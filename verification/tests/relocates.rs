use layerstack::composition_error::{
    CompositionError, InvalidAuthoredRelocation, InvalidConflictingRelocation,
    InvalidRelocationReason, InvalidSameTargetRelocations, RelocationConflict,
};
use layerstack::interner::TokenInterner;
use layerstack::path::{Path, PathId, PathInterner};
use layerstack::prim_index::LayerId;
use layerstack::relocates::{LayerRelocates, Relocate, RelocationTable};
use layerstack::stage::{Stage, StageError};

struct Store {
    tokens: TokenInterner,
    paths: PathInterner,
}

fn store() -> Store {
    Store {
        tokens: TokenInterner::default(),
        paths: PathInterner::default(),
    }
}

fn path(store: &mut Store, text: &str) -> PathId {
    let parsed = Path::parse_absolute(text, &mut store.tokens).expect("path");
    store.paths.intern(parsed)
}

fn relocate(store: &mut Store, source: &str, target: &str) -> Relocate {
    Relocate {
        source: path(store, source),
        target: if target.is_empty() {
            None
        } else {
            Some(path(store, target))
        },
    }
}

fn table(store: &Store, layers: Vec<LayerRelocates>) -> (RelocationTable, Vec<CompositionError>) {
    let mut errors = Vec::new();
    let table = RelocationTable::compute(&layers, &store.paths, &store.tokens, &mut errors);
    (table, errors)
}

fn layer(id: u64, relocates: Vec<Relocate>) -> LayerRelocates {
    LayerRelocates {
        layer: LayerId(id),
        relocates,
    }
}

#[test]
fn stronger_layers_win_a_shared_source() {
    let mut store = store();
    let root = layer(1, vec![relocate(&mut store, "/A/B", "/A/C")]);
    let sub = layer(
        2,
        vec![
            relocate(&mut store, "/A/B", "/A/D"),
            relocate(&mut store, "/A/E", ""),
        ],
    );

    let (table, errors) = table(&store, vec![root, sub]);
    assert!(errors.is_empty(), "{errors:?}");
    let (b, c, e) = (
        path(&mut store, "/A/B"),
        path(&mut store, "/A/C"),
        path(&mut store, "/A/E"),
    );
    assert_eq!(table.len(), 2);
    assert_eq!(table.target_of(b), Some(Some(c)));
    assert_eq!(table.source_of(c), Some(b));
    assert_eq!(table.target_of(e), Some(None));
    let child = path(&mut store, "/A/E/Child");
    assert_eq!(table.source_at_or_above(&store.paths, child), Some(e));
    assert_eq!(table.source_at_or_above(&store.paths, c), None);
}

#[test]
fn invalid_entries_are_reported_and_ignored() {
    let mut store = store();
    let authored = vec![
        relocate(&mut store, "/M1/I/T", "/M1/I/T"),
        relocate(&mut store, "/M2/I/T", "/M2/I"),
        relocate(&mut store, "/M3/I", "/M3/I/T"),
        relocate(&mut store, "/M4", "/M5"),
    ];

    let (table, errors) = table(&store, vec![layer(1, authored.clone())]);
    assert!(table.is_empty());
    let reasons = [
        InvalidRelocationReason::TargetIsSource,
        InvalidRelocationReason::TargetIsAncestor,
        InvalidRelocationReason::TargetIsDescendant,
        InvalidRelocationReason::RootPrimSource,
    ];
    let expected: Vec<CompositionError> = authored
        .iter()
        .zip(reasons)
        .map(|(relocate, reason)| {
            CompositionError::InvalidAuthoredRelocation(InvalidAuthoredRelocation {
                layer: LayerId(1),
                source: relocate.source,
                target: relocate.target,
                reason,
            })
        })
        .collect();
    assert_eq!(errors, expected);
}

#[test]
fn conflicting_entries_are_all_ignored() {
    let mut store = store();
    let relocates = vec![
        // Two sources, one target.
        relocate(&mut store, "/A/B", "/A/T"),
        relocate(&mut store, "/A/C", "/A/T"),
        // A chain: the target of one is the source of the next.
        relocate(&mut store, "/X/A", "/X/B"),
        relocate(&mut store, "/X/B", "/X/C"),
        // A source beneath another source: only the deeper one is ignored.
        relocate(&mut store, "/Y/A", "/Y/Z"),
        relocate(&mut store, "/Y/A/B", "/Y/W"),
        // Kept.
        relocate(&mut store, "/K/A", "/K/B"),
    ];

    let (table, errors) = table(&store, vec![layer(1, relocates)]);
    let mut kept: Vec<PathId> = table.iter().iter().map(|r| r.source).collect();
    kept.sort_unstable();
    let mut expected_kept = vec![path(&mut store, "/Y/A"), path(&mut store, "/K/A")];
    expected_kept.sort_unstable();
    assert_eq!(kept, expected_kept);

    let conflict = |store: &mut Store,
                    (source, target): (&str, &str),
                    (conflict_source, conflict_target): (&str, &str),
                    reason| {
        CompositionError::InvalidConflictingRelocation(InvalidConflictingRelocation {
            layer: LayerId(1),
            source: path(store, source),
            target: Some(path(store, target)),
            conflict_layer: LayerId(1),
            conflict_source: path(store, conflict_source),
            conflict_target: Some(path(store, conflict_target)),
            reason,
        })
    };
    let expected = vec![
        CompositionError::InvalidSameTargetRelocations(InvalidSameTargetRelocations {
            target: path(&mut store, "/A/T"),
            sources: vec![
                (LayerId(1), path(&mut store, "/A/B")),
                (LayerId(1), path(&mut store, "/A/C")),
            ],
        }),
        conflict(
            &mut store,
            ("/X/A", "/X/B"),
            ("/X/B", "/X/C"),
            RelocationConflict::TargetIsConflictSource,
        ),
        conflict(
            &mut store,
            ("/X/B", "/X/C"),
            ("/X/A", "/X/B"),
            RelocationConflict::SourceIsConflictTarget,
        ),
        conflict(
            &mut store,
            ("/Y/A/B", "/Y/W"),
            ("/Y/A", "/Y/Z"),
            RelocationConflict::SourceIsConflictSourceDescendant,
        ),
    ];
    assert_eq!(errors, expected);
}

#[test]
fn stages_report_the_errors_of_their_layer_stack() {
    let mut store = store();
    let invalid = relocate(&mut store, "/A", "/B");
    let (_, errors) = table(&store, vec![layer(1, vec![invalid])]);
    let errors = errors
        .into_iter()
        .map(|error| StageError { prim: None, error })
        .collect();
    let stage = Stage::from_parts(Vec::new(), Vec::new(), false).with_composition_errors(errors);
    let reported = stage.composition_errors();
    assert_eq!(reported.len(), 1);
    assert_eq!(
        reported[0].error,
        CompositionError::InvalidAuthoredRelocation(InvalidAuthoredRelocation {
            layer: LayerId(1),
            source: invalid.source,
            target: invalid.target,
            reason: InvalidRelocationReason::RootPrimSource,
        })
    );
    assert_eq!(reported[0].prim, None);
}

#[test]
fn a_target_beneath_a_source_conflicts() {
    let mut store = store();
    let relocates = vec![
        relocate(&mut store, "/A/B", "/A/C"),
        relocate(&mut store, "/D/E", "/A/B/E"),
    ];
    let (table, errors) = table(&store, vec![layer(1, relocates)]);
    assert_eq!(table.len(), 1, "only the conflicting entry is ignored");
    assert!(matches!(
        errors.as_slice(),
        [CompositionError::InvalidConflictingRelocation(
            InvalidConflictingRelocation {
                reason: RelocationConflict::TargetIsConflictSourceDescendant,
                ..
            }
        )]
    ));
}
