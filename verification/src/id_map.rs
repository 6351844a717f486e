//! Maps from ids to ids, held in a `hashbrown::HashMap`.

use vstd::prelude::*;

verus! {

/// A map between the indices of ids. The allocator that `hashbrown::HashMap`
/// is generic over cannot be named here, so the map is held in a field that
/// only the functions below read.
#[verifier::external_body]
#[derive(Debug)]
pub struct IdMap {
    entries: hashbrown::HashMap<usize, usize>,
}

/// The entries of a map.
pub uninterp spec fn id_entries(map: IdMap) -> Map<usize, usize>;

/// The map without entries.
pub open spec fn no_entries() -> Map<usize, usize> {
    Map::empty()
}

impl View for IdMap {
    type V = Map<usize, usize>;

    open spec fn view(&self) -> Map<usize, usize> {
        id_entries(*self)
    }
}

/// `hashbrown::HashMap::new` makes a map without entries.
#[verifier::external_body]
pub(crate) fn new_id_map() -> (map: IdMap)
    ensures
        id_entries(map) == no_entries(),
{
    IdMap { entries: hashbrown::HashMap::new() }
}

/// `hashbrown::HashMap::insert` sets the value of a key, and returns the value
/// that the key had.
#[verifier::external_body]
pub(crate) fn insert_id(map: &mut IdMap, key: usize, value: usize) -> (earlier: Option<usize>)
    ensures
        id_entries(*final(map)) == id_entries(*old(map)).insert(key, value),
        earlier == (if id_entries(*old(map)).dom().contains(key) {
            Some(id_entries(*old(map))[key])
        } else {
            None
        }),
{
    map.entries.insert(key, value)
}

/// `hashbrown::HashMap::get` returns the value of a key, if it has one.
#[verifier::external_body]
pub(crate) fn get_id(map: &IdMap, key: usize) -> (value: Option<usize>)
    ensures
        value == (if id_entries(*map).dom().contains(key) {
            Some(id_entries(*map)[key])
        } else {
            None
        }),
{
    map.entries.get(&key).copied()
}

/// Whether a map gives the first place of each key of a list.
pub open spec fn first_places(map: Map<usize, usize>, keys: Seq<usize>) -> bool {
    &&& forall|i: int| 0 <= i < keys.len() ==> map.dom().contains(#[trigger] keys[i])
    &&& forall|k: usize| #[trigger]
        map.dom().contains(k) ==> map[k] < keys.len() && keys[map[k] as int] == k && forall|i: int|
            0 <= i < map[k] ==> #[trigger] keys[i] != k
}

/// Maps each key of a list to its first place.
pub fn index_first(keys: &Vec<usize>) -> (map: IdMap)
    ensures
        first_places(map@, keys@),
{
    let mut places = new_id_map();
    let mut i: usize = 0;
    while i < keys.len()
        invariant
            i <= keys@.len(),
            first_places(places@, keys@.take(i as int)),
        decreases keys@.len() - i,
    {
        let ghost before = places@;
        let ghost part = keys@.take(i as int);
        let ghost next = keys@.take(i + 1);
        let key = keys[i];
        let known = get_id(&places, key).is_some();
        if !known {
            insert_id(&mut places, key, i);
        }
        proof {
            assert forall|k: int| 0 <= k < next.len() implies places@.dom().contains(
                #[trigger] next[k],
            ) by {
                if k < i {
                    assert(part[k] == next[k]);
                }
            }
            assert forall|k: usize| #[trigger] places@.dom().contains(k) implies places@[k]
                < next.len() && next[places@[k] as int] == k && forall|m: int|
                0 <= m < places@[k] ==> #[trigger] next[m] != k by {
                if known || k != key {
                    assert(before.dom().contains(k));
                    assert(part[before[k] as int] == next[before[k] as int]);
                }
                assert forall|m: int| 0 <= m < places@[k] implies #[trigger] next[m] != k by {
                    assert(part[m] == next[m]);
                    if !known && k == key && part[m] == k {
                        assert(before.dom().contains(k));
                    }
                }
            }
        }
        i = i + 1;
    }
    assert(keys@.take(i as int) =~= keys@);
    places
}

} // verus!
