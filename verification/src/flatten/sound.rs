//! What a check without a mismatch shows of the two stages that it compared.

use crate::doc::{numbers_equal, Precision, ValueView};
use crate::fields::{named, FieldView};
use crate::flatten::anchored::anchored;
use crate::flatten::check::{
    compared, extra_prims_compared, extras_compared, fields_compared, keys_compared,
    members_compared, metadata_compared, nothing_compared, prim_compared, prim_counted, prim_keys,
    prims_compared, properties_compared, property_compared, property_counted, property_keys,
    property_times, shown_children, times_compared, value_compared, verified, walked, walked_all,
    CheckView, ComparisonView,
};
use crate::flatten::reading::{
    authored_keys, authored_times, by_place, by_time, chain_of, declaration_seen, default_seen,
    field_seen, first_of_runs, is_time_same, is_token_same, keys_of, members_of, metadata_seen,
    names_of, placed_times, placed_tokens, specs_of, targets_seen, value_at,
};
use crate::flatten::report::{object_text, FindingView, Loss};
use crate::flatten::verify::{
    anchors_at, declarations_alike, declared_at, lies_at, resolved_anchored, seen_alike, skip_at,
    MismatchKindView, SeenView,
};
use crate::flatten::whole::{longest, top};
use crate::interner::{lemma_first_position_unique, TokenId};
use crate::opinion::OpinionView;
use crate::path::{property_display, PathId, PropertyPath};
use crate::resolution::{declared_as, resolved_metadata};
use crate::sorting::{lemma_stable_sorted, stable_sorted};
use crate::stage::sources::{
    active_of, instanceable_of, prim_order_of, property_order_of, specifier_of, type_of,
};
use crate::stage::{children_in, targets_resolution, Lookup, StageView};
use crate::times::{stage_time, Times};
use vstd::prelude::*;

verus! {

/// Whether a comparison has met no difference.
spec fn clean(check: CheckView) -> bool {
    check.out.mismatches.len() == 0
}

// ── Lists ───────────────────────────────────────────────────────────────

proof fn lemma_first_of_runs<T>(items: Seq<T>, same: spec_fn(T, T) -> bool, i: int)
    requires
        0 <= i < items.len(),
    ensures
        exists|j: int|
            0 <= j < first_of_runs(items, same).len() && (#[trigger] first_of_runs(items, same)[j]
                == items[i] || same(first_of_runs(items, same)[j], items[i])),
    decreases items.len(),
{
    let rest = items.drop_last();
    let earlier = first_of_runs(rest, same);
    let out = first_of_runs(items, same);
    if i < rest.len() {
        lemma_first_of_runs(rest, same, i);
        assert(rest[i] == items[i]);
        let j = choose|j: int|
            0 <= j < earlier.len() && (#[trigger] earlier[j] == rest[i] || same(
                earlier[j],
                rest[i],
            ));
        assert(out[j] == earlier[j]);
    } else {
        assert(out[out.len() - 1] == items[i] || same(out[out.len() - 1], items[i]));
    }
}

proof fn lemma_placed_tokens(tokens: Seq<TokenId>, token: TokenId)
    requires
        tokens.contains(token),
    ensures
        placed_tokens(tokens).contains(token),
{
    let sorted = stable_sorted(tokens, by_place());
    lemma_stable_sorted(tokens, by_place());
    assert(sorted.contains(token));
    let i = choose|i: int| 0 <= i < sorted.len() && sorted[i] == token;
    lemma_first_of_runs(sorted, is_token_same(), i);
    let out = placed_tokens(tokens);
    let j = choose|j: int|
        0 <= j < out.len() && (#[trigger] out[j] == token || is_token_same()(out[j], token));
    assert(out[j] == token);
}

proof fn lemma_placed_times(times: Seq<u64>, time: u64) -> (u: u64)
    requires
        times.contains(time),
    ensures
        placed_times(times).contains(u),
        u == time || numbers_equal(Precision::Double, u, time),
{
    let sorted = stable_sorted(times, by_time());
    lemma_stable_sorted(times, by_time());
    assert(sorted.contains(time));
    let i = choose|i: int| 0 <= i < sorted.len() && sorted[i] == time;
    lemma_first_of_runs(sorted, is_time_same(), i);
    let out = placed_times(times);
    let j = choose|j: int|
        0 <= j < out.len() && (#[trigger] out[j] == time || is_time_same()(out[j], time));
    out[j]
}

proof fn lemma_authored_keys(opinions: Seq<OpinionView>, o: int, f: int)
    requires
        0 <= o < opinions.len(),
        opinions[o].value is Property,
        0 <= f < opinions[o].value->Property_0.metadata.len(),
    ensures
        authored_keys(opinions).contains(opinions[o].value->Property_0.metadata[f].0),
    decreases opinions.len(),
{
    let rest = opinions.drop_last();
    let earlier = authored_keys(rest);
    let all = authored_keys(opinions);
    let key = opinions[o].value->Property_0.metadata[f].0;
    if o < rest.len() {
        assert(rest[o] == opinions[o]);
        lemma_authored_keys(rest, o, f);
        let k = choose|k: int| 0 <= k < earlier.len() && earlier[k] == key;
        assert(all[k] == key);
    } else {
        let own = opinions[o].value->Property_0.metadata.map_values(
            |f: (TokenId, FieldView)| f.0,
        );
        assert(own[f] == key);
        assert(all[earlier.len() + f] == key);
    }
}

proof fn lemma_authored_times(opinions: Seq<OpinionView>, times: Times, o: int, s: int)
    requires
        0 <= o < opinions.len(),
        opinions[o].value.time_samples() is Some,
        0 <= s < (opinions[o].value.time_samples()->0).len(),
    ensures
        authored_times(opinions, times).contains(
            stage_time(
                times,
                opinions[o].layer_offset,
                (opinions[o].value.time_samples()->0)[s].0,
            ),
        ),
    decreases opinions.len(),
{
    let rest = opinions.drop_last();
    let earlier = authored_times(rest, times);
    let all = authored_times(opinions, times);
    let last = opinions[o];
    let samples = last.value.time_samples()->0;
    let time = stage_time(times, last.layer_offset, samples[s].0);
    if o < rest.len() {
        assert(rest[o] == opinions[o]);
        lemma_authored_times(rest, times, o, s);
        let k = choose|k: int| 0 <= k < earlier.len() && earlier[k] == time;
        assert(all[k] == time);
    } else {
        let own = samples.map_values(
            |s: (u64, ValueView)| stage_time(times, last.layer_offset, s.0),
        );
        assert(own[s] == time);
        assert(all[earlier.len() + s] == time);
    }
}

proof fn lemma_skip_at(findings: Seq<FindingView>, path: Seq<char>)
    requires
        forall|f: int|
            0 <= f < findings.len() && object_text((#[trigger] findings[f]).path) == path
                ==> !(findings[f].kind is Lost) || findings[f].kind->Lost_0
                == Loss::UnanchoredAssetPath,
    ensures
        skip_at(findings, path) is None,
    decreases findings.len(),
{
    if findings.len() > 0 {
        let rest = findings.drop_last();
        assert forall|f: int|
            0 <= f < rest.len() && object_text((#[trigger] rest[f]).path) == path implies !(
        rest[f].kind is Lost) || rest[f].kind->Lost_0 == Loss::UnanchoredAssetPath by {
            assert(rest[f] == findings[f]);
        }
        lemma_skip_at(rest, path);
        assert(findings[findings.len() - 1] == findings.last());
    }
}

// ── Properties ──────────────────────────────────────────────────────────

/// Whether a metadata field of a property is compared without a difference.
spec fn field_agrees(c: ComparisonView, property: PropertyPath, key: TokenId) -> bool {
    let path = property_display(property, c.paths, c.tokens);
    seen_alike(
        SeenView::Resolved(
            match field_seen(c.source, property, key) {
                Some(value) => Some(resolved_anchored(value, anchors_at(c.findings, path))),
                None => None,
            },
        ),
        SeenView::Resolved(field_seen(c.flattened, property, key)),
        c.paths,
        c.tokens,
    )
}

proof fn lemma_fields(
    before: CheckView,
    c: ComparisonView,
    property: PropertyPath,
    keys: Seq<TokenId>,
)
    ensures
        clean(fields_compared(before, c, property, keys)) ==> clean(before) && forall|k: int|
            0 <= k < keys.len() ==> field_agrees(c, property, #[trigger] keys[k]),
    decreases keys.len(),
{
    if keys.len() > 0 {
        let rest = keys.drop_last();
        lemma_fields(before, c, property, rest);
        if clean(fields_compared(before, c, property, keys)) {
            assert(field_agrees(c, property, keys.last()));
            assert forall|k: int| 0 <= k < keys.len() implies field_agrees(
                c,
                property,
                #[trigger] keys[k],
            ) by {
                if k < rest.len() {
                    assert(rest[k] == keys[k]);
                }
            }
        }
    }
}

/// Whether a value at a time is compared without a difference.
spec fn time_agrees(c: ComparisonView, property: PropertyPath, time: u64) -> bool {
    let path = property_display(property, c.paths, c.tokens);
    seen_alike(
        SeenView::Value(
            match value_at(c.source_values, property, time) {
                Some(value) => Some(anchored(value, anchors_at(c.findings, path))),
                None => None,
            },
        ),
        SeenView::Value(value_at(c.flattened_values, property, time)),
        c.paths,
        c.tokens,
    )
}

proof fn lemma_times(
    before: CheckView,
    c: ComparisonView,
    property: PropertyPath,
    times: Seq<u64>,
)
    ensures
        clean(times_compared(before, c, property, times)) ==> clean(before) && forall|k: int|
            0 <= k < times.len() ==> time_agrees(c, property, #[trigger] times[k]),
    decreases times.len(),
{
    if times.len() > 0 {
        let rest = times.drop_last();
        lemma_times(before, c, property, rest);
        if clean(times_compared(before, c, property, times)) {
            assert(time_agrees(c, property, times.last()));
            assert forall|k: int| 0 <= k < times.len() implies time_agrees(
                c,
                property,
                #[trigger] times[k],
            ) by {
                if k < rest.len() {
                    assert(rest[k] == times[k]);
                }
            }
        }
    }
}

/// Whether a property of the stage is compared without a difference.
spec fn property_agrees(c: ComparisonView, property: PropertyPath) -> bool {
    let path = property_display(property, c.paths, c.tokens);
    declaration_seen(c.source, property) matches Some(declared) ==> {
        &&& declaration_seen(c.flattened, property) matches Some(found) && declarations_alike(
            declared_at(c.findings, path, declared),
            found,
        )
        &&& forall|k: int|
            0 <= k < property_keys(c, property).len() ==> field_agrees(
                c,
                property,
                #[trigger] property_keys(c, property)[k],
            )
        &&& seen_alike(
            SeenView::Targets(targets_seen(c.source, property)),
            SeenView::Targets(targets_seen(c.flattened, property)),
            c.paths,
            c.tokens,
        )
        &&& seen_alike(
            SeenView::Resolved(
                match default_seen(c.source, property) {
                    Some(value) => Some(resolved_anchored(value, anchors_at(c.findings, path))),
                    None => None,
                },
            ),
            SeenView::Resolved(default_seen(c.flattened, property)),
            c.paths,
            c.tokens,
        )
        &&& forall|k: int|
            0 <= k < placed_times(property_times(c, property) + c.at).len() ==> time_agrees(
                c,
                property,
                #[trigger] placed_times(property_times(c, property) + c.at)[k],
            )
    }
}

proof fn lemma_property(before: CheckView, c: ComparisonView, property: PropertyPath)
    ensures
        clean(property_compared(before, c, property)) ==> clean(before) && (skip_at(
            c.findings,
            property_display(property, c.paths, c.tokens),
        ) is None ==> property_agrees(c, property)),
{
    let path = property_display(property, c.paths, c.tokens);
    if skip_at(c.findings, path) is None {
        match (declaration_seen(c.source, property), declaration_seen(c.flattened, property)) {
            (Some(declared), Some(found)) => {
                let expected = SeenView::Declaration(declared_at(c.findings, path, declared));
                let got = SeenView::Declaration(found);
                let declaration = compared(
                    property_counted(before),
                    c,
                    path,
                    MismatchKindView::Declaration,
                    expected,
                    got,
                );
                let fields = fields_compared(declaration, c, property, property_keys(c, property));
                let value = value_compared(fields, c, property);
                let sampled = property_times(c, property);
                let next = CheckView { sample_times: value.sample_times + sampled, ..value };
                lemma_fields(declaration, c, property, property_keys(c, property));
                lemma_times(next, c, property, placed_times(sampled + c.at));
            },
            _ => {},
        }
    }
}

proof fn lemma_properties(
    before: CheckView,
    c: ComparisonView,
    prim: PathId,
    names: Seq<TokenId>,
)
    ensures
        clean(properties_compared(before, c, prim, names)) ==> clean(before) && forall|k: int|
            0 <= k < names.len() && skip_at(
                c.findings,
                property_display(
                    PropertyPath { prim_path: prim, property: names[k] },
                    c.paths,
                    c.tokens,
                ),
            ) is None ==> property_agrees(
                c,
                PropertyPath { prim_path: prim, property: #[trigger] names[k] },
            ),
    decreases names.len(),
{
    if names.len() > 0 {
        let rest = names.drop_last();
        lemma_properties(before, c, prim, rest);
        let earlier = properties_compared(before, c, prim, rest);
        lemma_property(earlier, c, PropertyPath { prim_path: prim, property: names.last() });
        if clean(properties_compared(before, c, prim, names)) {
            assert forall|k: int|
                0 <= k < names.len() && skip_at(
                    c.findings,
                    property_display(
                        PropertyPath { prim_path: prim, property: names[k] },
                        c.paths,
                        c.tokens,
                    ),
                ) is None implies property_agrees(
                c,
                PropertyPath { prim_path: prim, property: #[trigger] names[k] },
            ) by {
                if k < rest.len() {
                    assert(rest[k] == names[k]);
                }
            }
        }
    }
}

proof fn lemma_extras(before: CheckView, c: ComparisonView, prim: PathId, names: Seq<TokenId>)
    ensures
        clean(extras_compared(before, c, prim, names)) ==> clean(before) && forall|k: int|
            0 <= k < names.len() ==> names_of(c.source, prim).contains(#[trigger] names[k]),
    decreases names.len(),
{
    if names.len() > 0 {
        let rest = names.drop_last();
        lemma_extras(before, c, prim, rest);
        if clean(extras_compared(before, c, prim, names)) {
            assert forall|k: int| 0 <= k < names.len() implies names_of(c.source, prim).contains(
                #[trigger] names[k],
            ) by {
                if k < rest.len() {
                    assert(rest[k] == names[k]);
                }
            }
        }
    }
}

// ── Prims ───────────────────────────────────────────────────────────────

/// Whether a metadata field of a prim is compared without a difference.
spec fn key_agrees(c: ComparisonView, prim: PathId, key: TokenId) -> bool {
    seen_alike(
        SeenView::Resolved(
            match metadata_seen(c.source, prim, key) {
                Some(value) => Some(
                    resolved_anchored(value, anchors_at(c.findings, c.prim_text(prim))),
                ),
                None => None,
            },
        ),
        SeenView::Resolved(metadata_seen(c.flattened, prim, key)),
        c.paths,
        c.tokens,
    )
}

proof fn lemma_keys(before: CheckView, c: ComparisonView, prim: PathId, keys: Seq<TokenId>)
    ensures
        clean(keys_compared(before, c, prim, keys)) ==> clean(before) && forall|k: int|
            0 <= k < keys.len() ==> key_agrees(c, prim, #[trigger] keys[k]),
    decreases keys.len(),
{
    if keys.len() > 0 {
        let rest = keys.drop_last();
        lemma_keys(before, c, prim, rest);
        if clean(keys_compared(before, c, prim, keys)) {
            assert(key_agrees(c, prim, keys.last()));
            assert forall|k: int| 0 <= k < keys.len() implies key_agrees(
                c,
                prim,
                #[trigger] keys[k],
            ) by {
                if k < rest.len() {
                    assert(rest[k] == keys[k]);
                }
            }
        }
    }
}

/// Whether what is declared of a prim is compared without a difference.
spec fn members_agree(c: ComparisonView, prim: PathId) -> bool {
    let want = specs_of(c.source, prim);
    let got = specs_of(c.flattened, prim);
    &&& specifier_of(want) == specifier_of(got)
    &&& seen_alike(
        SeenView::Label(type_of(want)),
        SeenView::Label(type_of(got)),
        c.paths,
        c.tokens,
    )
    &&& active_of(want) == active_of(got)
    &&& instanceable_of(want) == instanceable_of(got)
    &&& prim_order_of(want) == prim_order_of(got)
    &&& property_order_of(want) == property_order_of(got)
    &&& seen_alike(
        SeenView::Paths(shown_children(c, children_in(c.source.stage, prim))),
        SeenView::Paths(shown_children(c, children_in(c.flattened.stage, prim))),
        c.paths,
        c.tokens,
    )
}

proof fn lemma_members(before: CheckView, c: ComparisonView, prim: PathId)
    ensures
        clean(members_compared(before, c, prim)) ==> clean(before) && members_agree(c, prim),
{
    let want = members_of(c.source, prim);
    let got = members_of(c.flattened, prim);
    let wanted = specs_of(c.source, prim);
    let gotten = specs_of(c.flattened, prim);
    assert(want[0] == SeenView::Specifier(Some(specifier_of(wanted))));
    assert(got[0] == SeenView::Specifier(Some(specifier_of(gotten))));
    assert(want[1] == SeenView::Label(type_of(wanted)));
    assert(got[1] == SeenView::Label(type_of(gotten)));
    assert(want[2] == SeenView::Flag(active_of(wanted)));
    assert(got[2] == SeenView::Flag(active_of(gotten)));
    assert(want[3] == SeenView::Flag(instanceable_of(wanted)));
    assert(got[3] == SeenView::Flag(instanceable_of(gotten)));
    assert(want[4] == SeenView::Order(prim_order_of(wanted)));
    assert(got[4] == SeenView::Order(prim_order_of(gotten)));
    assert(want[5] == SeenView::Order(property_order_of(wanted)));
    assert(got[5] == SeenView::Order(property_order_of(gotten)));
    if clean(members_compared(before, c, prim)) {
        assert(seen_alike(want[5], got[5], c.paths, c.tokens));
        assert(seen_alike(want[4], got[4], c.paths, c.tokens));
        assert(seen_alike(want[3], got[3], c.paths, c.tokens));
        assert(seen_alike(want[2], got[2], c.paths, c.tokens));
        assert(seen_alike(want[1], got[1], c.paths, c.tokens));
        assert(seen_alike(want[0], got[0], c.paths, c.tokens));
    }
}

/// Whether a prim of the stage is compared without a difference.
spec fn prim_agrees(c: ComparisonView, prim: PathId) -> bool {
    &&& named(c.flattened.stage.prims, prim) is Some
    &&& members_agree(c, prim)
    &&& skip_at(c.findings, c.prim_text(prim)) is None ==> forall|k: int|
        0 <= k < prim_keys(c, prim).len() ==> key_agrees(c, prim, #[trigger] prim_keys(c, prim)[k])
    &&& forall|k: int|
        0 <= k < names_of(c.source, prim).len() && skip_at(
            c.findings,
            property_display(
                PropertyPath { prim_path: prim, property: names_of(c.source, prim)[k] },
                c.paths,
                c.tokens,
            ),
        ) is None ==> property_agrees(
            c,
            PropertyPath { prim_path: prim, property: #[trigger] names_of(c.source, prim)[k] },
        )
    &&& forall|k: int|
        0 <= k < names_of(c.flattened, prim).len() ==> names_of(c.source, prim).contains(
            #[trigger] names_of(c.flattened, prim)[k],
        )
}

proof fn lemma_prim(before: CheckView, c: ComparisonView, prim: PathId)
    ensures
        clean(prim_compared(before, c, prim)) ==> clean(before) && prim_agrees(c, prim),
{
    if named(c.flattened.stage.prims, prim) is Some {
        let members = members_compared(prim_counted(before), c, prim);
        let metadata = metadata_compared(members, c, prim);
        let properties = properties_compared(metadata, c, prim, names_of(c.source, prim));
        lemma_members(prim_counted(before), c, prim);
        lemma_keys(members, c, prim, prim_keys(c, prim));
        lemma_properties(metadata, c, prim, names_of(c.source, prim));
        lemma_extras(properties, c, prim, names_of(c.flattened, prim));
    }
}

proof fn lemma_prims(before: CheckView, c: ComparisonView, root: PathId, prims: Seq<PathId>)
    ensures
        clean(prims_compared(before, c, root, prims)) ==> clean(before) && forall|k: int|
            0 <= k < prims.len() && prims[k] != root ==> prim_agrees(c, #[trigger] prims[k]),
    decreases prims.len(),
{
    if prims.len() > 0 {
        let rest = prims.drop_last();
        lemma_prims(before, c, root, rest);
        lemma_prim(prims_compared(before, c, root, rest), c, prims.last());
        if clean(prims_compared(before, c, root, prims)) {
            assert forall|k: int| 0 <= k < prims.len() && prims[k] != root implies prim_agrees(
                c,
                #[trigger] prims[k],
            ) by {
                if k < rest.len() {
                    assert(rest[k] == prims[k]);
                }
            }
        }
    }
}

proof fn lemma_extra_prims(before: CheckView, c: ComparisonView, root: PathId, prims: Seq<PathId>)
    ensures
        clean(extra_prims_compared(before, c, root, prims)) ==> clean(before) && forall|k: int|
            0 <= k < prims.len() && prims[k] != root ==> named(
                c.source.stage.prims,
                #[trigger] prims[k],
            ) is Some || crate::flatten::verify::among_prototypes(
                c.prototypes(),
                c.prim_text(prims[k]),
            ),
    decreases prims.len(),
{
    if prims.len() > 0 {
        let rest = prims.drop_last();
        lemma_extra_prims(before, c, root, rest);
        if clean(extra_prims_compared(before, c, root, prims)) {
            assert forall|k: int| 0 <= k < prims.len() && prims[k] != root implies named(
                c.source.stage.prims,
                #[trigger] prims[k],
            ) is Some || crate::flatten::verify::among_prototypes(
                c.prototypes(),
                c.prim_text(prims[k]),
            ) by {
                if k < rest.len() {
                    assert(rest[k] == prims[k]);
                }
            }
        }
    }
}

// ── Walks ───────────────────────────────────────────────────────────────

proof fn lemma_longest(paths: Seq<Seq<TokenId>>, k: int)
    requires
        0 <= k < paths.len(),
    ensures
        paths[k].len() <= longest(paths),
    decreases paths.len(),
{
    if k < paths.len() - 1 {
        assert(paths.drop_last()[k] == paths[k]);
        lemma_longest(paths.drop_last(), k);
    }
}

/// Whether each prim of a line is a child of the one before it.
spec fn is_line(stage: StageView, line: Seq<PathId>) -> bool {
    &&& line.len() > 0
    &&& forall|k: int|
        0 <= k < line.len() - 1 ==> children_in(stage, #[trigger] line[k]).contains(line[k + 1])
}

proof fn lemma_walked(stage: StageView, line: Seq<PathId>, depth: nat)
    requires
        is_line(stage, line),
        line.len() - 1 <= depth,
    ensures
        walked(stage, line[0], depth).contains(line.last()),
    decreases line.len(),
{
    let prim = line[0];
    let below = walked_all(stage, children_in(stage, prim), depth);
    let all = walked(stage, prim, depth);
    assert(all[0] == prim);
    if line.len() > 1 {
        let rest = line.drop_first();
        assert(children_in(stage, line[0]).contains(line[0int + 1]));
        assert forall|k: int| 0 <= k < rest.len() - 1 implies children_in(
            stage,
            #[trigger] rest[k],
        ).contains(rest[k + 1]) by {
            assert(rest[k] == line[k + 1]);
            assert(children_in(stage, line[k + 1]).contains(line[k + 1 + 1]));
        }
        lemma_walked(stage, rest, (depth - 1) as nat);
        assert(rest.last() == line.last());
        let children = children_in(stage, prim);
        let j = choose|j: int| 0 <= j < children.len() && children[j] == line[1];
        lemma_walked_all(stage, children, depth, j, line.last());
        let m = choose|m: int| 0 <= m < below.len() && below[m] == line.last();
        assert(all[m + 1] == line.last());
    }
}

proof fn lemma_walked_all(
    stage: StageView,
    children: Seq<PathId>,
    depth: nat,
    j: int,
    prim: PathId,
)
    requires
        depth > 0,
        0 <= j < children.len(),
        walked(stage, children[j], (depth - 1) as nat).contains(prim),
    ensures
        walked_all(stage, children, depth).contains(prim),
    decreases children.len(),
{
    let rest = children.drop_last();
    let earlier = walked_all(stage, rest, depth);
    let all = walked_all(stage, children, depth);
    if j < rest.len() {
        assert(rest[j] == children[j]);
        lemma_walked_all(stage, rest, depth, j, prim);
        let m = choose|m: int| 0 <= m < earlier.len() && earlier[m] == prim;
        assert(all[m] == prim);
    } else {
        let own = walked(stage, children[j], (depth - 1) as nat);
        let m = choose|m: int| 0 <= m < own.len() && own[m] == prim;
        assert(all[earlier.len() + m] == prim);
    }
}

/// Whether a line of prims starts at the root and is no longer than the longest
/// path.
pub open spec fn descends(c: ComparisonView, stage: StageView, line: Seq<PathId>) -> bool {
    &&& line.len() > 0
    &&& line[0].index < c.paths.len()
    &&& c.paths[line[0].index as int] == Seq::<TokenId>::empty()
    &&& forall|p: int|
        0 <= p < line[0].index ==> #[trigger] c.paths[p] != Seq::<TokenId>::empty()
    &&& forall|k: int|
        0 <= k < line.len() - 1 ==> children_in(stage, #[trigger] line[k]).contains(line[k + 1])
    &&& exists|p: int| 0 <= p < c.paths.len() && line.len() - 1 <= (#[trigger] c.paths[p]).len()
    &&& line.last() != line[0]
}

proof fn lemma_agrees(c: ComparisonView, line: Seq<PathId>)
    requires
        verified(c).mismatches.len() == 0,
        descends(c, c.source.stage, line),
    ensures
        prim_agrees(c, line.last()),
{
    let root = line[0];
    assert(c.paths.contains(seq![]));
    lemma_first_position_unique(c.paths, Seq::<TokenId>::empty(), root.index as int);
    assert(root == top(c.paths));
    let p = choose|p: int| 0 <= p < c.paths.len() && line.len() - 1 <= (#[trigger] c.paths[p]).len();
    lemma_longest(c.paths, p);
    let depth = longest(c.paths);
    assert(is_line(c.source.stage, line));
    lemma_walked(c.source.stage, line, depth);
    let prims = walked(c.source.stage, root, depth);
    let start = nothing_compared(c.at);
    lemma_prims(start, c, root, prims);
    lemma_extra_prims(
        prims_compared(start, c, root, prims),
        c,
        root,
        walked(c.flattened.stage, root, depth),
    );
    let k = choose|k: int| 0 <= k < prims.len() && prims[k] == line.last();
    assert(prim_agrees(c, prims[k]));
}

// ── Laws ────────────────────────────────────────────────────────────────

/// Where the check finds no difference, every prim beneath the root is a prim
/// of the flattened stage, with the same specifier, flags and orders, and a type
/// and children that read alike.
pub proof fn law_verified_prims_are_alike(c: ComparisonView, line: Seq<PathId>)
    requires
        verified(c).mismatches.len() == 0,
        descends(c, c.source.stage, line),
    ensures
        ({
            let prim = line.last();
            let want = match named(c.source.sources, prim) {
                Some(source) => source.specs,
                None => seq![],
            };
            let got = match named(c.flattened.sources, prim) {
                Some(source) => source.specs,
                None => seq![],
            };
            &&& named(c.flattened.stage.prims, prim) is Some
            &&& specifier_of(want) == specifier_of(got)
            &&& seen_alike(
                SeenView::Label(type_of(want)),
                SeenView::Label(type_of(got)),
                c.paths,
                c.tokens,
            )
            &&& active_of(want) == active_of(got)
            &&& instanceable_of(want) == instanceable_of(got)
            &&& prim_order_of(want) == prim_order_of(got)
            &&& property_order_of(want) == property_order_of(got)
            &&& seen_alike(
                SeenView::Paths(shown_children(c, children_in(c.source.stage, prim))),
                SeenView::Paths(shown_children(c, children_in(c.flattened.stage, prim))),
                c.paths,
                c.tokens,
            )
        }),
{
    lemma_agrees(c, line);
    let prim = line.last();
    assert(members_agree(c, prim));
}

/// Where the check finds no difference, a prim of the flattened stage has no
/// property that the stage's prim has not.
pub proof fn law_verified_prims_have_no_further_properties(
    c: ComparisonView,
    line: Seq<PathId>,
    name: TokenId,
)
    requires
        verified(c).mismatches.len() == 0,
        descends(c, c.source.stage, line),
        named(c.flattened.sources, line.last()) matches Some(flattened)
            && flattened.property_names.contains(name),
    ensures
        named(c.source.sources, line.last()) matches Some(source) && source.property_names.contains(
            name,
        ),
{
    lemma_agrees(c, line);
    let prim = line.last();
    let names = names_of(c.flattened, prim);
    let k = choose|k: int| 0 <= k < names.len() && names[k] == name;
    assert(names_of(c.source, prim).contains(names_of(c.flattened, prim)[k]));
}

/// The children that a comparison of prims looks at: all that are neither a
/// prototype that the flatten added nor beneath one, in order.
pub proof fn law_shown_children_leave_out_prototypes(
    c: ComparisonView,
    children: Seq<PathId>,
    child: PathId,
)
    ensures
        shown_children(c, children).contains(child) <==> children.contains(child) && !exists|i: int|
            0 <= i < c.prototypes().len() && lies_at(
                #[trigger] c.prototypes()[i],
                c.prim_text(child),
            ),
        shown_children(c, children).len() <= children.len(),
    decreases children.len(),
{
    if children.len() > 0 {
        let rest = children.drop_last();
        let earlier = shown_children(c, rest);
        let out = shown_children(c, children);
        law_shown_children_leave_out_prototypes(c, rest, child);
        assert(children[children.len() - 1] == children.last());
        if out.contains(child) {
            let k = choose|k: int| 0 <= k < out.len() && out[k] == child;
            if k < earlier.len() {
                assert(earlier[k] == child);
                let m = choose|m: int| 0 <= m < rest.len() && rest[m] == child;
                assert(children[m] == child);
            }
        }
        if children.contains(child) && !exists|i: int|
            0 <= i < c.prototypes().len() && lies_at(
                #[trigger] c.prototypes()[i],
                c.prim_text(child),
            ) {
            let m = choose|m: int| 0 <= m < children.len() && children[m] == child;
            if m < rest.len() {
                assert(rest[m] == child);
                let k = choose|k: int| 0 <= k < earlier.len() && earlier[k] == child;
                assert(out[k] == child);
            } else {
                assert(out[out.len() - 1] == child);
            }
        }
    }
}

/// Where the check finds no difference, every metadata field that either stage
/// composes for a prim, unless a loss was recorded of the prim, resolves in the
/// flattened stage to a value that reads like the stage's, anchored.
pub proof fn law_verified_metadata_is_alike(
    c: ComparisonView,
    line: Seq<PathId>,
    stage: StageView,
    m: int,
)
    requires
        verified(c).mismatches.len() == 0,
        descends(c, c.source.stage, line),
        forall|f: int|
            0 <= f < c.findings.len() && object_text((#[trigger] c.findings[f]).path) == c.prim_text(
                line.last(),
            ) ==> !(c.findings[f].kind is Lost) || c.findings[f].kind->Lost_0
                == Loss::UnanchoredAssetPath,
        stage == c.source.stage || stage == c.flattened.stage,
        named(stage.prims, line.last()) is Some,
        0 <= m < (named(stage.prims, line.last())->0).metadata.len(),
    ensures
        ({
            let prim = line.last();
            let key = (named(stage.prims, prim)->0).metadata[m].0;
            let fold = match named(c.source.sources, prim) {
                Some(source) => named(source.metadata_folds, key),
                None => None,
            };
            let other = match named(c.flattened.sources, prim) {
                Some(source) => named(source.metadata_folds, key),
                None => None,
            };
            seen_alike(
                SeenView::Resolved(
                    match c.source.stage.resolution(prim, key, Lookup::Metadata, fold) {
                        Some((value, _)) => Some(
                            resolved_anchored(value, anchors_at(c.findings, c.prim_text(prim))),
                        ),
                        None => None,
                    },
                ),
                SeenView::Resolved(
                    match c.flattened.stage.resolution(prim, key, Lookup::Metadata, other) {
                        Some((value, _)) => Some(value),
                        None => None,
                    },
                ),
                c.paths,
                c.tokens,
            )
        }),
{
    lemma_agrees(c, line);
    let prim = line.last();
    lemma_skip_at(c.findings, c.prim_text(prim));
    let key = (named(stage.prims, prim)->0).metadata[m].0;
    let a = keys_of(c.source.stage, prim);
    let b = keys_of(c.flattened.stage, prim);
    if stage == c.source.stage {
        assert(a[m] == key);
        assert((a + b)[m] == key);
    } else {
        assert(b[m] == key);
        assert((a + b)[a.len() + m] == key);
    }
    lemma_placed_tokens(a + b, key);
    let keys = prim_keys(c, prim);
    let k = choose|k: int| 0 <= k < keys.len() && keys[k] == key;
    assert(key_agrees(c, prim, prim_keys(c, prim)[k]));
}

proof fn lemma_property_agrees(c: ComparisonView, line: Seq<PathId>, name: TokenId)
    requires
        verified(c).mismatches.len() == 0,
        descends(c, c.source.stage, line),
        named(c.source.sources, line.last()) matches Some(source) && source.property_names.contains(
            name,
        ),
        forall|f: int|
            0 <= f < c.findings.len() && object_text((#[trigger] c.findings[f]).path)
                == property_display(
                PropertyPath { prim_path: line.last(), property: name },
                c.paths,
                c.tokens,
            ) ==> !(c.findings[f].kind is Lost) || c.findings[f].kind->Lost_0
                == Loss::UnanchoredAssetPath,
    ensures
        property_agrees(c, PropertyPath { prim_path: line.last(), property: name }),
{
    lemma_agrees(c, line);
    let prim = line.last();
    let property = PropertyPath { prim_path: prim, property: name };
    lemma_skip_at(c.findings, property_display(property, c.paths, c.tokens));
    let names = names_of(c.source, prim);
    let k = choose|k: int| 0 <= k < names.len() && names[k] == name;
    assert(property_agrees(
        c,
        PropertyPath { prim_path: prim, property: names_of(c.source, prim)[k] },
    ));
}

/// Where the check finds no difference, every property that the stage declares,
/// unless a loss was recorded of it, is declared in the flattened stage alike,
/// but for what the flatten recorded; its targets read alike; and its default
/// resolves to a value that reads like the stage's, anchored.
pub proof fn law_verified_properties_are_alike(c: ComparisonView, line: Seq<PathId>, name: TokenId)
    requires
        verified(c).mismatches.len() == 0,
        descends(c, c.source.stage, line),
        named(c.source.sources, line.last()) matches Some(source) && source.property_names.contains(
            name,
        ),
        forall|f: int|
            0 <= f < c.findings.len() && object_text((#[trigger] c.findings[f]).path)
                == property_display(
                PropertyPath { prim_path: line.last(), property: name },
                c.paths,
                c.tokens,
            ) ==> !(c.findings[f].kind is Lost) || c.findings[f].kind->Lost_0
                == Loss::UnanchoredAssetPath,
        c.source.stage.opinions(line.last(), name, Lookup::Property) matches Some(opinions)
            && declared_as(opinions) is Some,
    ensures
        ({
            let prim = line.last();
            let path = property_display(
                PropertyPath { prim_path: prim, property: name },
                c.paths,
                c.tokens,
            );
            let declared = declared_as(
                c.source.stage.opinions(prim, name, Lookup::Property)->0,
            )->0;
            let fold = match named(c.source.sources, prim) {
                Some(source) => named(source.property_folds, name),
                None => None,
            };
            let other = match named(c.flattened.sources, prim) {
                Some(source) => named(source.property_folds, name),
                None => None,
            };
            &&& c.flattened.stage.opinions(prim, name, Lookup::Property) matches Some(opinions) && (
            declared_as(opinions) matches Some(found) && declarations_alike(
                declared_at(c.findings, path, declared),
                found,
            ))
            &&& seen_alike(
                SeenView::Targets(
                    match targets_resolution(c.source.stage, prim, name, Lookup::Property) {
                        Some((targets, _)) => targets,
                        None => seq![],
                    },
                ),
                SeenView::Targets(
                    match targets_resolution(c.flattened.stage, prim, name, Lookup::Property) {
                        Some((targets, _)) => targets,
                        None => seq![],
                    },
                ),
                c.paths,
                c.tokens,
            )
            &&& seen_alike(
                SeenView::Resolved(
                    match c.source.stage.resolution(prim, name, Lookup::Property, fold) {
                        Some((value, _)) => Some(
                            resolved_anchored(value, anchors_at(c.findings, path)),
                        ),
                        None => None,
                    },
                ),
                SeenView::Resolved(
                    match c.flattened.stage.resolution(prim, name, Lookup::Property, other) {
                        Some((value, _)) => Some(value),
                        None => None,
                    },
                ),
                c.paths,
                c.tokens,
            )
        }),
{
    lemma_property_agrees(c, line, name);
}

/// Where the check finds no difference, every metadata field that an opinion of
/// either stage authors on such a property resolves alike.
pub proof fn law_verified_property_metadata_is_alike(
    c: ComparisonView,
    line: Seq<PathId>,
    name: TokenId,
    stage: StageView,
    o: int,
    f: int,
)
    requires
        verified(c).mismatches.len() == 0,
        descends(c, c.source.stage, line),
        named(c.source.sources, line.last()) matches Some(source) && source.property_names.contains(
            name,
        ),
        forall|g: int|
            0 <= g < c.findings.len() && object_text((#[trigger] c.findings[g]).path)
                == property_display(
                PropertyPath { prim_path: line.last(), property: name },
                c.paths,
                c.tokens,
            ) ==> !(c.findings[g].kind is Lost) || c.findings[g].kind->Lost_0
                == Loss::UnanchoredAssetPath,
        c.source.stage.opinions(line.last(), name, Lookup::Property) matches Some(opinions)
            && declared_as(opinions) is Some,
        stage == c.source.stage || stage == c.flattened.stage,
        stage.opinions(line.last(), name, Lookup::Property) is Some,
        0 <= o < (stage.opinions(line.last(), name, Lookup::Property)->0).len(),
        (stage.opinions(line.last(), name, Lookup::Property)->0)[o].value is Property,
        0 <= f < (stage.opinions(
            line.last(),
            name,
            Lookup::Property,
        )->0)[o].value->Property_0.metadata.len(),
    ensures
        ({
            let prim = line.last();
            let key = (stage.opinions(
                prim,
                name,
                Lookup::Property,
            )->0)[o].value->Property_0.metadata[f].0;
            let path = property_display(
                PropertyPath { prim_path: prim, property: name },
                c.paths,
                c.tokens,
            );
            seen_alike(
                SeenView::Resolved(
                    match c.source.stage.read(prim, name, Lookup::Property) {
                        Some(opinions) => match resolved_metadata(opinions, key) {
                            Some(outcome) => Some(
                                resolved_anchored(outcome.value, anchors_at(c.findings, path)),
                            ),
                            None => None,
                        },
                        None => None,
                    },
                ),
                SeenView::Resolved(
                    match c.flattened.stage.read(prim, name, Lookup::Property) {
                        Some(opinions) => match resolved_metadata(opinions, key) {
                            Some(outcome) => Some(outcome.value),
                            None => None,
                        },
                        None => None,
                    },
                ),
                c.paths,
                c.tokens,
            )
        }),
{
    lemma_property_agrees(c, line, name);
    let prim = line.last();
    let property = PropertyPath { prim_path: prim, property: name };
    let opinions = stage.opinions(prim, name, Lookup::Property)->0;
    let key = opinions[o].value->Property_0.metadata[f].0;
    let a = authored_keys(chain_of(c.source.stage, property));
    let b = authored_keys(chain_of(c.flattened.stage, property));
    lemma_authored_keys(opinions, o, f);
    assert((a + b).contains(key)) by {
        if stage == c.source.stage {
            let k = choose|k: int| 0 <= k < a.len() && a[k] == key;
            assert((a + b)[k] == key);
        } else {
            let k = choose|k: int| 0 <= k < b.len() && b[k] == key;
            assert((a + b)[a.len() + k] == key);
        }
    }
    lemma_placed_tokens(a + b, key);
    let keys = property_keys(c, property);
    let k = choose|k: int| 0 <= k < keys.len() && keys[k] == key;
    assert(field_agrees(c, property, property_keys(c, property)[k]));
}

/// Where the check finds no difference, such a property composes to values that
/// read alike at every time asked for, and at the time of every sample of
/// either stage: at that time, or at one equal to it.
pub proof fn law_verified_values_are_alike(
    c: ComparisonView,
    line: Seq<PathId>,
    name: TokenId,
    time: u64,
)
    requires
        verified(c).mismatches.len() == 0,
        descends(c, c.source.stage, line),
        named(c.source.sources, line.last()) matches Some(source) && source.property_names.contains(
            name,
        ),
        forall|g: int|
            0 <= g < c.findings.len() && object_text((#[trigger] c.findings[g]).path)
                == property_display(
                PropertyPath { prim_path: line.last(), property: name },
                c.paths,
                c.tokens,
            ) ==> !(c.findings[g].kind is Lost) || c.findings[g].kind->Lost_0
                == Loss::UnanchoredAssetPath,
        c.source.stage.opinions(line.last(), name, Lookup::Property) matches Some(opinions)
            && declared_as(opinions) is Some,
        c.at.contains(time) || is_sampled(c, c.source.stage, line.last(), name, time) || is_sampled(
            c,
            c.flattened.stage,
            line.last(),
            name,
            time,
        ),
    ensures
        exists|u: u64|
            (u == time || numbers_equal(Precision::Double, u, time)) && #[trigger] values_agree(
                c,
                line.last(),
                name,
                u,
            ),
{
    lemma_property_agrees(c, line, name);
    let prim = line.last();
    let property = PropertyPath { prim_path: prim, property: name };
    let a = authored_times(chain_of(c.source.stage, property), c.times);
    let b = authored_times(chain_of(c.flattened.stage, property), c.times);
    let all = property_times(c, property) + c.at;
    assert(all.contains(time)) by {
        if c.at.contains(time) {
            let k = choose|k: int| 0 <= k < c.at.len() && c.at[k] == time;
            assert(all[property_times(c, property).len() + k] == time);
        } else if is_sampled(c, c.source.stage, prim, name, time) {
            lemma_sampled(c, c.source.stage, prim, name, time);
            let k = choose|k: int| 0 <= k < a.len() && a[k] == time;
            assert(property_times(c, property)[k] == time);
            assert(all[k] == time);
        } else {
            lemma_sampled(c, c.flattened.stage, prim, name, time);
            let k = choose|k: int| 0 <= k < b.len() && b[k] == time;
            assert(property_times(c, property)[a.len() + k] == time);
            assert(all[a.len() + k] == time);
        }
    }
    let u = lemma_placed_times(all, time);
    let placed = placed_times(all);
    let k = choose|k: int| 0 <= k < placed.len() && placed[k] == u;
    assert(time_agrees(c, property, placed_times(property_times(c, property) + c.at)[k]));
    assert(values_agree(c, prim, name, u));
}

/// Whether an opinion on a property has a sample at a stage time.
pub open spec fn is_sampled(
    c: ComparisonView,
    stage: StageView,
    prim: PathId,
    name: TokenId,
    time: u64,
) -> bool {
    stage.opinions(prim, name, Lookup::Property) matches Some(opinions) && exists|o: int, s: int|
        0 <= o < opinions.len() && opinions[o].value.time_samples() is Some && 0 <= s < (
        opinions[o].value.time_samples()->0).len() && stage_time(
            c.times,
            opinions[o].layer_offset,
            (#[trigger] (opinions[o].value.time_samples()->0)[s]).0,
        ) == time
}

proof fn lemma_sampled(
    c: ComparisonView,
    stage: StageView,
    prim: PathId,
    name: TokenId,
    time: u64,
)
    requires
        is_sampled(c, stage, prim, name, time),
    ensures
        authored_times(
            chain_of(stage, PropertyPath { prim_path: prim, property: name }),
            c.times,
        ).contains(time),
{
    let opinions = stage.opinions(prim, name, Lookup::Property)->0;
    let (o, s) = choose|o: int, s: int|
        0 <= o < opinions.len() && opinions[o].value.time_samples() is Some && 0 <= s < (
        opinions[o].value.time_samples()->0).len() && stage_time(
            c.times,
            opinions[o].layer_offset,
            (#[trigger] (opinions[o].value.time_samples()->0)[s]).0,
        ) == time;
    lemma_authored_times(opinions, c.times, o, s);
}

/// Whether what a property composes to at a time reads alike on both sides.
pub open spec fn values_agree(c: ComparisonView, prim: PathId, name: TokenId, time: u64) -> bool {
    let property = PropertyPath { prim_path: prim, property: name };
    let path = property_display(property, c.paths, c.tokens);
    seen_alike(
        SeenView::Value(
            match named(c.source_values, (property, time)) {
                Some(Some(value)) => Some(anchored(value, anchors_at(c.findings, path))),
                _ => None,
            },
        ),
        SeenView::Value(
            match named(c.flattened_values, (property, time)) {
                Some(value) => value,
                None => None,
            },
        ),
        c.paths,
        c.tokens,
    )
}

/// Where the check finds no difference, every prim beneath the root of the
/// flattened stage is a prim of the stage, or lies at or beneath a prototype
/// that the flatten added.
pub proof fn law_verified_stages_have_no_further_prims(c: ComparisonView, line: Seq<PathId>)
    requires
        verified(c).mismatches.len() == 0,
        descends(c, c.flattened.stage, line),
    ensures
        named(c.source.stage.prims, line.last()) is Some || exists|i: int|
            0 <= i < c.prototypes().len() && lies_at(
                #[trigger] c.prototypes()[i],
                c.prim_text(line.last()),
            ),
{
    let root = line[0];
    assert(c.paths.contains(seq![]));
    lemma_first_position_unique(c.paths, Seq::<TokenId>::empty(), root.index as int);
    let p = choose|p: int| 0 <= p < c.paths.len() && line.len() - 1 <= (#[trigger] c.paths[p]).len();
    lemma_longest(c.paths, p);
    let depth = longest(c.paths);
    assert(is_line(c.flattened.stage, line));
    lemma_walked(c.flattened.stage, line, depth);
    let prims = walked(c.flattened.stage, root, depth);
    lemma_extra_prims(
        prims_compared(nothing_compared(c.at), c, root, walked(c.source.stage, root, depth)),
        c,
        root,
        prims,
    );
    let k = choose|k: int| 0 <= k < prims.len() && prims[k] == line.last();
    assert(prims[k] != root);
}

} // verus!
