//! Which prototypes a flattened stage has, and what they are called.

use crate::fields::{lemma_place_of, lemma_place_of_unique, named, place_of};
use crate::flatten::copy::{arc_depth, Scene, SceneView};
use crate::flatten::prims::{
    instance_key, key_of_instance, InstanceKey, InstanceKeyView,
};
use crate::flatten::report::counted;
use crate::id_map::{first_places, get_id, index_first, IdMap};
use crate::interner::{
    extends, first_position, lemma_first_position, lemma_with_entry, with_entry, TokenId,
    TokenInterner,
};
use crate::path::{Path, PathId, PathInterner};
use crate::stage::{children_in, Stage, StageView};
use crate::text::{decimal, decimal_text, push_text, text};
use vstd::prelude::*;

verus! {

// ── Instances ───────────────────────────────────────────────────────────

/// The instances at or below a prim, to a depth, each before those below it.
pub open spec fn instances_below(stage: StageView, prim: PathId, depth: nat) -> Seq<PathId>
    decreases depth, 0nat, 0nat,
{
    let here = if stage.instances.contains(prim) {
        seq![prim]
    } else {
        seq![]
    };
    if depth == 0 {
        here
    } else {
        here + instances_among(stage, children_in(stage, prim), (depth - 1) as nat)
    }
}

/// The instances at or below the prims of a list, to a depth.
pub open spec fn instances_among(stage: StageView, prims: Seq<PathId>, depth: nat) -> Seq<PathId>
    decreases depth, 1nat, prims.len(),
{
    if prims.len() == 0 {
        seq![]
    } else {
        instances_among(stage, prims.drop_last(), depth) + instances_below(
            stage,
            prims.last(),
            depth,
        )
    }
}

/// Collects the instances at or below a prim, to a depth.
pub fn collect_instances(stage: &Stage, prim: PathId, depth: usize, out: &mut Vec<PathId>)
    ensures
        final(out)@ == old(out)@ + instances_below(stage@, prim, depth as nat),
    decreases depth,
{
    let ghost before = out@;
    if stage.is_instance(prim) {
        out.push(prim);
    }
    let ghost here = out@;
    if depth == 0 {
        assert(out@ =~= before + instances_below(stage@, prim, 0));
        return ;
    }
    match stage.children_of(prim) {
        Some(children) => {
            let mut i: usize = 0;
            assert(children@.take(0) =~= seq![]);
            assert(out@ =~= here + instances_among(stage@, children@.take(0), (depth - 1) as nat));
            while i < children.len()
                invariant
                    i <= children@.len(),
                    depth > 0,
                    out@ == here + instances_among(
                        stage@,
                        children@.take(i as int),
                        (depth - 1) as nat,
                    ),
                decreases children@.len() - i,
            {
                proof {
                    assert(children@.take(i + 1).drop_last() =~= children@.take(i as int));
                    assert(children@.take(i + 1).last() == children@[i as int]);
                }
                collect_instances(stage, children[i], depth - 1, out);
                i = i + 1;
                assert(out@ =~= here + instances_among(
                    stage@,
                    children@.take(i as int),
                    (depth - 1) as nat,
                ));
            }
            assert(children@.take(i as int) =~= children@);
        },
        None => {
            assert(instances_among(stage@, seq![], (depth - 1) as nat) =~= seq![]);
        },
    }
    assert(out@ =~= before + instances_below(stage@, prim, depth as nat));
}

// ── Names ───────────────────────────────────────────────────────────────

/// The name of a prototype.
pub open spec fn prototype_name(number: nat) -> Seq<char> {
    "Flattened_Prototype_"@ + decimal(number)
}

/// What is interned, with the next number for a prototype.
#[verifier::ext_equal]
pub struct Naming {
    pub tokens: Seq<Seq<char>>,
    pub paths: Seq<Seq<TokenId>>,
    pub next: usize,
}

/// The path of the prototype with the next number, and what is interned then.
pub open spec fn numbered(before: Naming) -> (PathId, Naming) {
    let name = prototype_name(before.next as nat);
    let path = seq![TokenId { index: first_position(before.tokens, name) as usize }];
    (
        PathId { index: first_position(before.paths, path) as usize },
        Naming {
            tokens: with_entry(before.tokens, name),
            paths: with_entry(before.paths, path),
            next: counted(before.next, 1),
        },
    )
}

/// The path of the next prototype whose path no prim of the stage has, looked
/// for `tries` times after the first.
pub open spec fn free_prototype(stage: StageView, before: Naming, tries: nat) -> (PathId, Naming)
    decreases tries,
{
    let (path, after) = numbered(before);
    if tries == 0 || named(stage.prims, path) is None {
        (path, after)
    } else {
        free_prototype(stage, after, (tries - 1) as nat)
    }
}

/// Interns the path of the prototype with the next number.
fn intern_numbered(next: &mut usize, tokens: &mut TokenInterner, paths: &mut PathInterner) -> (path:
    PathId)
    ensures
        (path, (Naming { tokens: final(tokens)@, paths: final(paths)@, next: *final(next) }))
            == numbered(Naming { tokens: old(tokens)@, paths: old(paths)@, next: *old(next) }),
        path.index < final(paths)@.len(),
        final(paths)@[path.index as int].len() == 1,
        extends(final(tokens)@, old(tokens)@),
        extends(final(paths)@, old(paths)@),
        final(tokens)@.len() > final(paths)@[path.index as int][0].index,
        forall|i: int|
            0 <= i < final(paths)@.len() ==> i < old(paths)@.len() || (final(paths)@[i].len() == 1
                && (#[trigger] final(paths)@[i])[0].index < final(tokens)@.len()),
{
    let mut name = text("Flattened_Prototype_");
    push_text(&mut name, decimal_text(*next as u64).as_str());
    assert(name@ =~= prototype_name(*next as nat));
    if *next < usize::MAX {
        *next = *next + 1;
    }
    let token = tokens.intern(name.as_str());
    let mut segments: Vec<TokenId> = Vec::new();
    segments.push(token);
    assert(segments@ =~= seq![token]);
    paths.intern(Path::from_segments(segments))
}

/// Interns the path of the next prototype that is free.
pub fn intern_prototype(
    stage: &Stage,
    next: &mut usize,
    tokens: &mut TokenInterner,
    paths: &mut PathInterner,
    tries: usize,
) -> (path: PathId)
    ensures
        (path, (Naming { tokens: final(tokens)@, paths: final(paths)@, next: *final(next) }))
            == free_prototype(
            stage@,
            Naming { tokens: old(tokens)@, paths: old(paths)@, next: *old(next) },
            tries as nat,
        ),
        path.index < final(paths)@.len(),
        final(paths)@[path.index as int].len() == 1,
        extends(final(tokens)@, old(tokens)@),
        extends(final(paths)@, old(paths)@),
        final(tokens)@.len() > final(paths)@[path.index as int][0].index,
        forall|i: int|
            0 <= i < final(paths)@.len() ==> i < old(paths)@.len() || (final(paths)@[i].len() == 1
                && (#[trigger] final(paths)@[i])[0].index < final(tokens)@.len()),
    decreases tries,
{
    let path = intern_numbered(next, tokens, paths);
    if tries == 0 || !stage.has_prim(path) {
        return path;
    }
    intern_prototype(stage, next, tokens, paths, tries - 1)
}

// ── Sharing ─────────────────────────────────────────────────────────────

/// How far sharing prototypes has come.
#[verifier::ext_equal]
pub struct Sharing {
    pub naming: Naming,
    /// The prototype of each key.
    pub prototypes: Seq<(InstanceKeyView, PathId)>,
    /// The prototypes, each with the first instance that it stands for.
    pub found: Seq<(PathId, PathId)>,
    /// The prototype of each instance.
    pub shared: Seq<(PathId, PathId)>,
}

/// The namespace depth of a prim, as arcs count it.
pub open spec fn depth_at(paths: Seq<Seq<TokenId>>, prim: PathId) -> u16 {
    if prim.index < paths.len() {
        arc_depth(paths[prim.index as int])
    } else {
        0
    }
}

/// The key of an instance of a scene.
pub open spec fn instance_key_in(
    scene: SceneView,
    instance: PathId,
    paths: Seq<Seq<TokenId>>,
) -> InstanceKeyView {
    match (named(scene.stage.prims, instance), named(scene.sources, instance)) {
        (Some(index), Some(source)) => key_of_instance(
            index.graph,
            index.offsets,
            source.nodes,
            depth_at(paths, instance),
            source.selections,
        ),
        _ => InstanceKeyView { arcs: seq![], selections: seq![] },
    }
}

/// Giving an instance its prototype: that of its key, or a new one.
pub open spec fn instance_shared(before: Sharing, scene: SceneView, instance: PathId) -> Sharing {
    let key = instance_key_in(scene, instance, before.naming.paths);
    match named(before.prototypes, key) {
        Some(prototype) => Sharing {
            shared: before.shared.push((instance, prototype)),
            ..before
        },
        None => {
            let (prototype, naming) = free_prototype(
                scene.stage,
                before.naming,
                scene.stage.prims.len(),
            );
            Sharing {
                naming,
                prototypes: before.prototypes.push((key, prototype)),
                found: before.found.push((instance, prototype)),
                shared: before.shared.push((instance, prototype)),
            }
        },
    }
}

/// Giving each instance of a list its prototype.
pub open spec fn instances_shared(
    naming: Naming,
    scene: SceneView,
    instances: Seq<PathId>,
) -> Sharing
    decreases instances.len(),
{
    if instances.len() == 0 {
        Sharing { naming, prototypes: seq![], found: seq![], shared: seq![] }
    } else {
        instance_shared(
            instances_shared(naming, scene, instances.drop_last()),
            scene,
            instances.last(),
        )
    }
}

/// The indices of the instances of a list.
spec fn instance_keys(list: Seq<(PathId, PathId)>) -> Seq<usize> {
    list.map_values(|shared: (PathId, PathId)| shared.0.index)
}

/// The prototype of each instance, found by the instance.
#[derive(Debug)]
pub struct PrototypeTable {
    list: Vec<(PathId, PathId)>,
    places: IdMap,
}

impl View for PrototypeTable {
    type V = Seq<(PathId, PathId)>;

    closed spec fn view(&self) -> Seq<(PathId, PathId)> {
        self.list@
    }
}

impl PrototypeTable {
    #[verifier::type_invariant]
    spec fn is_indexed(&self) -> bool {
        first_places(self.places@, instance_keys(self.list@))
    }

    /// A table of the prototypes in a list of them.
    pub fn new(list: Vec<(PathId, PathId)>) -> (table: PrototypeTable)
        ensures
            table@ == list@,
    {
        let mut keys: Vec<usize> = Vec::new();
        let mut i: usize = 0;
        while i < list.len()
            invariant
                i <= list@.len(),
                keys@ == instance_keys(list@).take(i as int),
            decreases list@.len() - i,
        {
            keys.push(list[i].0.index);
            i = i + 1;
            assert(keys@ =~= instance_keys(list@).take(i as int));
        }
        assert(keys@ =~= instance_keys(list@));
        let places = index_first(&keys);
        PrototypeTable { list, places }
    }

    /// The prototype of an instance.
    pub fn get(&self, instance: PathId) -> (out: Option<PathId>)
        ensures
            out == named(self@, instance),
    {
        proof {
            use_type_invariant(self);
        }
        match get_id(&self.places, instance.index) {
            Some(at) => {
                proof {
                    let keys = instance_keys(self.list@);
                    assert(keys[at as int] == instance.index);
                    assert forall|i: int| 0 <= i < at implies (#[trigger] self.list@[i]).0
                        != instance by {
                        assert(keys[i] != instance.index);
                    }
                    crate::fields::lemma_place_of_unique(self.list@, instance, at as int);
                }
                Some(self.list[at].1)
            },
            None => {
                proof {
                    let keys = instance_keys(self.list@);
                    assert forall|i: int| 0 <= i < self.list@.len() implies (
                    #[trigger] self.list@[i]).0 != instance by {
                        assert(keys[i] == self.list@[i].0.index);
                    }
                    crate::fields::lemma_place_of_unique(
                        self.list@,
                        instance,
                        self.list@.len() as int,
                    );
                }
                None
            },
        }
    }
}

/// The keys and prototypes of a list.
spec fn keyed(list: Seq<(InstanceKey, PathId)>) -> Seq<(InstanceKeyView, PathId)> {
    list.map_values(|p: (InstanceKey, PathId)| (p.0@, p.1))
}

/// The prototype of a key, in a list.
fn find_key(list: &Vec<(InstanceKey, PathId)>, key: &InstanceKey) -> (out: Option<PathId>)
    ensures
        out == named(keyed(list@), key@),
        out matches Some(path) ==> exists|i: int| 0 <= i < list@.len() && #[trigger] list@[i].1 == path,
{
    let ghost all = keyed(list@);
    let mut i: usize = 0;
    while i < list.len()
        invariant
            i <= list@.len(),
            all == keyed(list@),
            forall|k: int| 0 <= k < i ==> (#[trigger] all[k]).0 != key@,
        decreases list@.len() - i,
    {
        assert(all[i as int] == (list@[i as int].0@, list@[i as int].1));
        if list[i].0.same(key) {
            proof {
                crate::fields::lemma_place_of_unique(all, key@, i as int);
            }
            return Some(list[i].1);
        }
        i = i + 1;
    }
    proof {
        crate::fields::lemma_place_of_unique(all, key@, i as int);
    }
    None
}

/// The key of an instance of a scene.
fn scene_instance_key(scene: &Scene<'_>, instance: PathId, paths: &PathInterner) -> (key: InstanceKey)
    ensures
        key@ == instance_key_in(scene@, instance, paths@),
{
    match (scene.stage.prim(instance), scene.source(instance)) {
        (Some(index), Some(source)) => {
            let depth = if instance.index < paths.len() {
                crate::flatten::copy::depth_of(paths.resolve(instance))
            } else {
                0
            };
            instance_key(&index.graph, &source.nodes, depth, &source.selections)
        },
        _ => {
            let key = InstanceKey { arcs: Vec::new(), selections: Vec::new() };
            assert(key@ =~= InstanceKeyView { arcs: seq![], selections: seq![] });
            key
        },
    }
}

/// Whether a path is that of a prim right below the root, with a known name.
pub open spec fn is_root_prim(
    path: PathId,
    paths: Seq<Seq<TokenId>>,
    tokens: Seq<Seq<char>>,
) -> bool {
    &&& path.index < paths.len()
    &&& paths[path.index as int].len() == 1
    &&& paths[path.index as int][0].index < tokens.len()
}

/// Groups the instances of a list by what they share, and names a prototype
/// for each group: `Flattened_Prototype_` and a number, skipping what the
/// stage uses. Returns each prototype with the first instance of its group,
/// and the prototype of each instance.
pub fn find_prototypes(
    scene: &Scene<'_>,
    instances: &Vec<PathId>,
    tokens: &mut TokenInterner,
    paths: &mut PathInterner,
) -> (out: (Vec<(PathId, PathId)>, Vec<(PathId, PathId)>))
    ensures
        ({
            let done = instances_shared(
                Naming { tokens: old(tokens)@, paths: old(paths)@, next: 1 },
                scene@,
                instances@,
            );
            &&& out.0@ == done.found
            &&& out.1@ == done.shared
            &&& final(tokens)@ == done.naming.tokens
            &&& final(paths)@ == done.naming.paths
        }),
        extends(final(tokens)@, old(tokens)@),
        extends(final(paths)@, old(paths)@),
        forall|i: int|
            0 <= i < out.0@.len() ==> is_root_prim(
                (#[trigger] out.0@[i]).1,
                final(paths)@,
                final(tokens)@,
            ) && instances@.contains(out.0@[i].0),
        forall|i: int|
            0 <= i < out.1@.len() ==> is_root_prim(
                (#[trigger] out.1@[i]).1,
                final(paths)@,
                final(tokens)@,
            ),
        forall|i: int|
            0 <= i < final(paths)@.len() ==> i < old(paths)@.len() || (final(paths)@[i].len() == 1
                && (#[trigger] final(paths)@[i])[0].index < final(tokens)@.len()),
{
    let ghost start = Naming { tokens: tokens@, paths: paths@, next: 1 };
    let mut next: usize = 1;
    let mut prototypes: Vec<(InstanceKey, PathId)> = Vec::new();
    let mut found: Vec<(PathId, PathId)> = Vec::new();
    let mut shared: Vec<(PathId, PathId)> = Vec::new();
    let mut i: usize = 0;
    assert(instances@.take(0) =~= seq![]);
    assert(keyed(prototypes@) =~= seq![]);
    assert(found@ =~= seq![]);
    assert(shared@ =~= seq![]);
    while i < instances.len()
        invariant
            i <= instances@.len(),
            (Sharing {
                naming: Naming { tokens: tokens@, paths: paths@, next },
                prototypes: keyed(prototypes@),
                found: found@,
                shared: shared@,
            }) == instances_shared(start, scene@, instances@.take(i as int)),
            extends(tokens@, start.tokens),
            extends(paths@, start.paths),
            forall|k: int|
                0 <= k < prototypes@.len() ==> is_root_prim(
                    (#[trigger] prototypes@[k]).1,
                    paths@,
                    tokens@,
                ),
            forall|k: int|
                0 <= k < found@.len() ==> is_root_prim((#[trigger] found@[k]).1, paths@, tokens@)
                    && instances@.contains(found@[k].0),
            forall|k: int|
                0 <= k < shared@.len() ==> is_root_prim((#[trigger] shared@[k]).1, paths@, tokens@),
            forall|k: int|
                0 <= k < paths@.len() ==> k < start.paths.len() || (paths@[k].len() == 1 && (
                #[trigger] paths@[k])[0].index < tokens@.len()),
        decreases instances@.len() - i,
    {
        let instance = instances[i];
        let ghost had = prototypes@;
        let ghost had_paths = paths@;
        let ghost had_tokens = tokens@;
        proof {
            assert(instances@.take(i + 1).drop_last() =~= instances@.take(i as int));
            assert(instances@.take(i + 1).last() == instance);
            assert(instances@.contains(instance));
        }
        let key = scene_instance_key(scene, instance, paths);
        match find_key(&prototypes, &key) {
            Some(prototype) => {
                shared.push((instance, prototype));
            },
            None => {
                let tries = scene.stage.prim_count();
                let prototype = intern_prototype(scene.stage, &mut next, tokens, paths, tries);
                prototypes.push((key, prototype));
                assert(keyed(prototypes@) =~= keyed(had).push((key@, prototype)));
                found.push((instance, prototype));
                shared.push((instance, prototype));
            },
        }
        i = i + 1;
    }
    assert(instances@.take(i as int) =~= instances@);
    (found, shared)
}

// ── Laws ────────────────────────────────────────────────────────────────

/// Whether a path is that of a prototype with a number below the next.
spec fn is_numbered_below(path: PathId, naming: Naming) -> bool {
    &&& path.index < naming.paths.len()
    &&& naming.paths[path.index as int].len() == 1
    &&& naming.paths[path.index as int][0].index < naming.tokens.len()
    &&& exists|n: nat|
        n < naming.next && #[trigger] prototype_name(n)
            == naming.tokens[naming.paths[path.index as int][0].index as int]
}

/// The paths of a stage's prims.
spec fn prim_ids(stage: StageView) -> Seq<PathId> {
    stage.prims.map_values(|p: (PathId, crate::stage::PrimView)| p.0)
}

proof fn lemma_numbered(before: Naming)
    requires
        before.next < usize::MAX,
        before.tokens.len() < usize::MAX,
        before.paths.len() < usize::MAX,
    ensures
        ({
            let (path, after) = numbered(before);
            &&& after.next == before.next + 1
            &&& extends(after.tokens, before.tokens)
            &&& extends(after.paths, before.paths)
            &&& after.tokens.len() <= before.tokens.len() + 1
            &&& after.paths.len() <= before.paths.len() + 1
            &&& is_numbered_below(path, after)
            &&& after.tokens[after.paths[path.index as int][0].index as int] == prototype_name(
                before.next as nat,
            )
        }),
{
    let (path, after) = numbered(before);
    let name = prototype_name(before.next as nat);
    lemma_with_entry(before.tokens, name);
    lemma_first_position(before.tokens, name);
    let segments = seq![TokenId { index: first_position(before.tokens, name) as usize }];
    lemma_with_entry(before.paths, segments);
    lemma_first_position(before.paths, segments);
    assert(after.paths[path.index as int] == segments);
    assert(prototype_name(before.next as nat) == after.tokens[segments[0].index as int]);
}

proof fn lemma_free(stage: StageView, before: Naming, tries: nat, taken: Seq<PathId>)
    requires
        before.next + tries < usize::MAX,
        before.tokens.len() + tries < usize::MAX,
        before.paths.len() + tries < usize::MAX,
        taken.no_duplicates(),
        taken.len() + tries == stage.prims.len(),
        forall|i: int|
            0 <= i < taken.len() ==> is_numbered_below(#[trigger] taken[i], before) && prim_ids(
                stage,
            ).contains(taken[i]),
    ensures
        named(stage.prims, free_prototype(stage, before, tries).0) is None,
    decreases tries,
{
    let (path, after) = numbered(before);
    lemma_numbered(before);
    if named(stage.prims, path) is Some {
        let ids = prim_ids(stage);
        lemma_place_of(stage.prims, path, 0);
        assert(ids[place_of(stage.prims, path, 0)] == path);
        let more = taken.push(path);
        assert forall|i: int| 0 <= i < taken.len() implies #[trigger] taken[i] != path by {
            let t = taken[i];
            assert(is_numbered_below(t, before));
            let n = choose|n: nat|
                n < before.next && #[trigger] prototype_name(n)
                    == before.tokens[before.paths[t.index as int][0].index as int];
            if t == path {
                assert(after.paths[t.index as int] == before.paths[t.index as int]);
                let token = before.paths[t.index as int][0];
                assert(after.tokens[token.index as int] == before.tokens[token.index as int]);
                let head = "Flattened_Prototype_"@;
                assert(prototype_name(n) == prototype_name(before.next as nat));
                assert(decimal(n) =~= prototype_name(n).skip(head.len() as int));
                assert(decimal(before.next as nat) =~= prototype_name(before.next as nat).skip(
                    head.len() as int,
                ));
                crate::text::lemma_decimal_injective(n, before.next as nat);
            }
        }
        assert(more.no_duplicates());
        assert forall|i: int| 0 <= i < more.len() implies is_numbered_below(
            #[trigger] more[i],
            after,
        ) && ids.contains(more[i]) by {
            if i < taken.len() {
                let t = taken[i];
                assert(is_numbered_below(t, before));
                assert(after.paths[t.index as int] == before.paths[t.index as int]);
                let token = before.paths[t.index as int][0];
                assert(after.tokens[token.index as int] == before.tokens[token.index as int]);
                let n = choose|n: nat|
                    n < before.next && #[trigger] prototype_name(n)
                        == before.tokens[token.index as int];
                assert(prototype_name(n) == after.tokens[token.index as int]);
                assert(more[i] == t);
            }
        }
        if tries == 0 {
            lemma_crowded(more, ids);
        } else {
            lemma_free(stage, after, (tries - 1) as nat, more);
        }
    }
}

/// A list without repetitions whose items all stand in another is no longer
/// than that.
proof fn lemma_crowded(some: Seq<PathId>, all: Seq<PathId>)
    requires
        some.no_duplicates(),
        forall|i: int| 0 <= i < some.len() ==> all.contains(#[trigger] some[i]),
    ensures
        some.len() <= all.len(),
{
    vstd::seq_lib::seq_to_set_is_finite(some);
    vstd::seq_lib::seq_to_set_is_finite(all);
    some.unique_seq_to_set();
    all.lemma_cardinality_of_set();
    assert(some.to_set().subset_of(all.to_set()));
    vstd::set_lib::lemma_len_subset(some.to_set(), all.to_set());
}

/// A new prototype has a path that no prim of the stage has.
pub proof fn law_prototype_is_free(stage: StageView, before: Naming)
    requires
        before.next + stage.prims.len() < usize::MAX,
        before.tokens.len() + stage.prims.len() < usize::MAX,
        before.paths.len() + stage.prims.len() < usize::MAX,
    ensures
        named(stage.prims, free_prototype(stage, before, stage.prims.len()).0) is None,
{
    lemma_free(stage, before, stage.prims.len(), seq![]);
}

/// Instances with the same key share a prototype: an instance whose key has
/// one gets that one, and no new one is made.
pub proof fn law_same_key_shares_the_prototype(
    before: Sharing,
    scene: SceneView,
    instance: PathId,
    prototype: PathId,
)
    requires
        named(before.prototypes, instance_key_in(scene, instance, before.naming.paths)) == Some(
            prototype,
        ),
    ensures
        instance_shared(before, scene, instance).found == before.found,
        instance_shared(before, scene, instance).shared == before.shared.push(
            (instance, prototype),
        ),
{
}


proof fn lemma_named_push<K, T>(entries: Seq<(K, T)>, last: (K, T), name: K)
    ensures
        named(entries, name) is Some ==> named(entries.push(last), name) == named(entries, name),
        named(entries, name) is None && last.0 == name ==> named(entries.push(last), name) == Some(
            last.1,
        ),
{
    let more = entries.push(last);
    let at = place_of(entries, name, 0);
    lemma_place_of(entries, name, 0);
    assert forall|i: int| 0 <= i < at implies (#[trigger] more[i]).0 != name by {
        assert(more[i] == entries[i]);
    }
    if at < entries.len() {
        assert(more[at] == entries[at]);
        lemma_place_of_unique(more, name, at);
    } else if last.0 == name {
        assert(more[at] == last);
        lemma_place_of_unique(more, name, at);
    }
}

proof fn lemma_naming_extends(stage: StageView, before: Naming, tries: nat)
    ensures
        extends(free_prototype(stage, before, tries).1.paths, before.paths),
    decreases tries,
{
    let (path, after) = numbered(before);
    let name = prototype_name(before.next as nat);
    lemma_with_entry(
        before.paths,
        seq![TokenId { index: first_position(before.tokens, name) as usize }],
    );
    if tries > 0 && named(stage.prims, path) is Some {
        lemma_naming_extends(stage, after, (tries - 1) as nat);
    }
}

proof fn lemma_sharing(naming: Naming, scene: SceneView, instances: Seq<PathId>)
    ensures
        ({
            let out = instances_shared(naming, scene, instances);
            &&& extends(out.naming.paths, naming.paths)
            &&& out.shared.len() == instances.len()
            &&& forall|i: int|
                0 <= i < instances.len() ==> {
                    &&& (#[trigger] out.shared[i]).0 == instances[i]
                    &&& instances[i].index < naming.paths.len() ==> named(
                        out.prototypes,
                        instance_key_in(scene, instances[i], naming.paths),
                    ) == Some(out.shared[i].1)
                }
        }),
    decreases instances.len(),
{
    if instances.len() > 0 {
        let rest = instances.drop_last();
        let last = instances.last();
        lemma_sharing(naming, scene, rest);
        let before = instances_shared(naming, scene, rest);
        let out = instances_shared(naming, scene, instances);
        let key = instance_key_in(scene, last, before.naming.paths);
        lemma_naming_extends(scene.stage, before.naming, scene.stage.prims.len());
        let made = free_prototype(scene.stage, before.naming, scene.stage.prims.len()).0;
        assert forall|i: int| 0 <= i < instances.len() implies {
            &&& (#[trigger] out.shared[i]).0 == instances[i]
            &&& instances[i].index < naming.paths.len() ==> named(
                out.prototypes,
                instance_key_in(scene, instances[i], naming.paths),
            ) == Some(out.shared[i].1)
        } by {
            if i < rest.len() {
                assert(out.shared[i] == before.shared[i]);
                assert(rest[i] == instances[i]);
                lemma_named_push(
                    before.prototypes,
                    (key, made),
                    instance_key_in(scene, instances[i], naming.paths),
                );
            } else {
                if last.index < naming.paths.len() {
                    assert(before.naming.paths[last.index as int] == naming.paths[last.index as int]);
                }
                lemma_named_push(before.prototypes, (key, made), key);
            }
        }
    }
}

/// Every instance gets one prototype, in the order of the instances, and two
/// with the same key get the same one.
pub proof fn law_every_instance_gets_a_prototype(
    naming: Naming,
    scene: SceneView,
    instances: Seq<PathId>,
    i: int,
    j: int,
)
    requires
        0 <= i < instances.len(),
        0 <= j < instances.len(),
        instances[i].index < naming.paths.len(),
        instances[j].index < naming.paths.len(),
    ensures
        instances_shared(naming, scene, instances).shared.len() == instances.len(),
        instances_shared(naming, scene, instances).shared[i].0 == instances[i],
        instance_key_in(scene, instances[i], naming.paths) == instance_key_in(
            scene,
            instances[j],
            naming.paths,
        ) ==> instances_shared(naming, scene, instances).shared[i].1 == instances_shared(
            naming,
            scene,
            instances,
        ).shared[j].1,
{
    lemma_sharing(naming, scene, instances);
    let out = instances_shared(naming, scene, instances);
    assert(out.shared[i].0 == instances[i]);
    assert(out.shared[j].0 == instances[j]);
}

/// An instance that a line of children leads to from a prim is found below it.
pub proof fn law_instances_below_are_found(stage: StageView, line: Seq<PathId>, depth: nat)
    requires
        0 < line.len() <= depth + 1,
        forall|k: int|
            0 <= k < line.len() - 1 ==> children_in(stage, #[trigger] line[k]).contains(
                line[k + 1],
            ),
        stage.instances.contains(line.last()),
    ensures
        instances_below(stage, line[0], depth).contains(line.last()),
    decreases line.len(),
{
    let prim = line[0];
    let all = instances_below(stage, prim, depth);
    if line.len() == 1 {
        assert(all[0] == prim);
    } else {
        let rest = line.skip(1);
        assert(children_in(stage, line[0]).contains(line[0int + 1]));
        assert forall|k: int| 0 <= k < rest.len() - 1 implies children_in(
            stage,
            #[trigger] rest[k],
        ).contains(rest[k + 1]) by {
            assert(children_in(stage, line[k + 1]).contains(line[k + 1 + 1]));
        }
        law_instances_below_are_found(stage, rest, (depth - 1) as nat);
        let children = children_in(stage, prim);
        let at = choose|at: int| 0 <= at < children.len() && children[at] == rest[0];
        lemma_found_among(stage, children, (depth - 1) as nat, at, line.last());
        let among = instances_among(stage, children, (depth - 1) as nat);
        let k = choose|k: int| 0 <= k < among.len() && among[k] == line.last();
        assert(all[all.len() - among.len() + k] == line.last());
    }
}

proof fn lemma_found_among(
    stage: StageView,
    prims: Seq<PathId>,
    depth: nat,
    at: int,
    instance: PathId,
)
    requires
        0 <= at < prims.len(),
        instances_below(stage, prims[at], depth).contains(instance),
    ensures
        instances_among(stage, prims, depth).contains(instance),
    decreases prims.len(),
{
    let before = instances_among(stage, prims.drop_last(), depth);
    let below = instances_below(stage, prims.last(), depth);
    let all = instances_among(stage, prims, depth);
    if at == prims.len() - 1 {
        let k = choose|k: int| 0 <= k < below.len() && below[k] == instance;
        assert(all[before.len() + k] == instance);
    } else {
        lemma_found_among(stage, prims.drop_last(), depth, at, instance);
        let k = choose|k: int| 0 <= k < before.len() && before[k] == instance;
        assert(all[k] == instance);
    }
}

} // verus!
