//! The persistent collections behind a board state.
//!
//! The collections are those of the `im_rc` crate: a clone shares its
//! structure with the collection it was made from, and a change copies only
//! what it touches.
//! Their contents are named here, and the contract of each operation says what
//! it does to the contents.

use std::collections::hash_map::RandomState;
use std::collections::HashSet;
use vstd::prelude::*;
use vstd::std_specs::iter::IteratorSpec;

verus! {

/// The type `im_rc::Vector`. Nothing of its inside is known here.
#[verifier::external_type_specification]
#[verifier::external_body]
#[verifier::reject_recursive_types(A)]
pub struct ExVector<A>(im_rc::Vector<A>);

/// The type `im_rc::HashMap`. Nothing of its inside is known here.
#[verifier::external_type_specification]
#[verifier::external_body]
#[verifier::reject_recursive_types(K)]
#[verifier::reject_recursive_types(V)]
#[verifier::reject_recursive_types(S)]
pub struct ExHashMap<K, V, S>(im_rc::HashMap<K, V, S>);

/// The type `im_rc::OrdSet`. Nothing of its inside is known here.
#[verifier::external_type_specification]
#[verifier::external_body]
#[verifier::reject_recursive_types(A)]
pub struct ExOrdSet<A>(im_rc::OrdSet<A>);

/// The 81 cells of a board.
pub type Puzzle = im_rc::Vector<u8>;

/// The candidate bits of each cell that has an entry.
pub type CandidateMap = im_rc::HashMap<usize, u16, RandomState>;

/// A set of cell indices.
pub type LocationSet = HashSet<usize>;

/// The open locations of each digit key that has an entry, by the key's code.
pub type ValueMap = im_rc::HashMap<usize, LocationSet, RandomState>;

/// Pairs of a set's size and the rank of its key, smallest first.
pub type ChoiceQueue = im_rc::OrdSet<(usize, usize)>;

/// The items of a vector, in order.
pub uninterp spec fn cells_of(v: Puzzle) -> Seq<u8>;

/// The entries of a candidate map.
pub uninterp spec fn candidate_bits(m: CandidateMap) -> Map<usize, u16>;

/// The entries of a value map, each location set by its view.
pub uninterp spec fn location_sets(m: ValueMap) -> Map<usize, Set<usize>>;

/// The items of a queue.
pub uninterp spec fn queue_items(q: ChoiceQueue) -> Set<(usize, usize)>;

/// The order of the queue: by the first component, then by the second.
pub open spec fn pair_le(a: (usize, usize), b: (usize, usize)) -> bool {
    a.0 < b.0 || (a.0 == b.0 && a.1 <= b.1)
}

/// `im_rc::Vector::from` on a slice: the vector holds the items of the array, in order.
#[verifier::external_body]
pub(crate) fn puzzle_from(cells: &[u8; 81]) -> (r: Puzzle)
    ensures
        cells_of(r) == cells@,
{
    im_rc::Vector::from(&cells[..])
}

/// `im_rc::Vector::get`: the item at the index, `None` past the end.
#[verifier::external_body]
pub(crate) fn puzzle_get(v: &Puzzle, index: usize) -> (r: Option<u8>)
    ensures
        r == (if index < cells_of(*v).len() {
            Some(cells_of(*v)[index as int])
        } else {
            None
        }),
{
    v.get(index).copied()
}

/// `im_rc::Vector::set`: replaces the item at the index and returns the one
/// that was there. The outside function panics past the end.
#[verifier::external_body]
pub(crate) fn puzzle_set(v: &mut Puzzle, index: usize, value: u8) -> (r: u8)
    requires
        index < cells_of(*old(v)).len(),
    ensures
        cells_of(*final(v)) == cells_of(*old(v)).update(index as int, value),
        r == cells_of(*old(v))[index as int],
{
    v.set(index, value)
}

/// `im_rc::Vector::iter`: hands the items out in order.
#[verifier::external_body]
pub(crate) fn puzzle_items(v: &Puzzle) -> (r: Vec<u8>)
    ensures
        r@ == cells_of(*v),
{
    v.iter().copied().collect()
}

/// `Clone` of `im_rc::Vector`: the clone holds the same items.
#[verifier::external_body]
pub(crate) fn puzzle_clone(v: &Puzzle) -> (r: Puzzle)
    ensures
        cells_of(r) == cells_of(*v),
{
    v.clone()
}

/// `im_rc::HashMap::new`: a map without entries.
#[verifier::external_body]
pub(crate) fn candidate_map_new() -> (r: CandidateMap)
    ensures
        candidate_bits(r).dom() == Set::<usize>::empty(),
{
    im_rc::HashMap::new()
}

/// `im_rc::HashMap::get`: the value under the key, `None` without an entry.
#[verifier::external_body]
pub(crate) fn candidate_map_get(m: &CandidateMap, key: usize) -> (r: Option<u16>)
    ensures
        r == (if candidate_bits(*m).contains_key(key) {
            Some(candidate_bits(*m)[key])
        } else {
            None
        }),
{
    m.get(&key).copied()
}

/// `im_rc::HashMap::insert`: sets the value under the key and returns the
/// value that was there.
#[verifier::external_body]
pub(crate) fn candidate_map_insert(m: &mut CandidateMap, key: usize, value: u16) -> (r: Option<u16>)
    ensures
        candidate_bits(*final(m)) == candidate_bits(*old(m)).insert(key, value),
        r == (if candidate_bits(*old(m)).contains_key(key) {
            Some(candidate_bits(*old(m))[key])
        } else {
            None
        }),
{
    m.insert(key, value)
}

/// `im_rc::HashMap::remove`: takes the entry under the key out and returns
/// its value.
#[verifier::external_body]
pub(crate) fn candidate_map_remove(m: &mut CandidateMap, key: usize) -> (r: Option<u16>)
    ensures
        candidate_bits(*final(m)) == candidate_bits(*old(m)).remove(key),
        r == (if candidate_bits(*old(m)).contains_key(key) {
            Some(candidate_bits(*old(m))[key])
        } else {
            None
        }),
{
    m.remove(&key)
}

/// `Clone` of `im_rc::HashMap`: the clone holds the same entries.
#[verifier::external_body]
pub(crate) fn candidate_map_clone(m: &CandidateMap) -> (r: CandidateMap)
    ensures
        candidate_bits(r) == candidate_bits(*m),
{
    m.clone()
}

/// `im_rc::HashMap::new`: a map without entries.
#[verifier::external_body]
pub(crate) fn value_map_new() -> (r: ValueMap)
    ensures
        location_sets(r).dom() == Set::<usize>::empty(),
{
    im_rc::HashMap::new()
}

/// `im_rc::HashMap::get`: the set under the key, `None` without an entry.
#[verifier::external_body]
pub(crate) fn value_map_get<'a>(m: &'a ValueMap, key: usize) -> (r: Option<&'a LocationSet>)
    ensures
        match r {
            Some(set) => location_sets(*m).contains_key(key) && set@ == location_sets(*m)[key],
            None => !location_sets(*m).contains_key(key),
        },
{
    m.get(&key)
}

/// `im_rc::HashMap::get_mut`: the set under the key, to be changed in place;
/// what the caller leaves in it is what the map then holds under the key.
/// Without an entry the map stays as it is.
#[verifier::external_body]
pub(crate) fn value_map_get_mut<'a>(m: &'a mut ValueMap, key: usize) -> (r: Option<
    &'a mut LocationSet,
>)
    ensures
        match r {
            Some(set) => location_sets(*old(m)).contains_key(key) && (*set)@ == location_sets(
                *old(m),
            )[key] && location_sets(*final(m)) == location_sets(*old(m)).insert(
                key,
                (*final(set))@,
            ),
            None => !location_sets(*old(m)).contains_key(key) && location_sets(*final(m))
                == location_sets(*old(m)),
        },
{
    m.get_mut(&key)
}

/// `im_rc::HashMap::insert`: sets the set under the key and returns the set
/// that was there.
#[verifier::external_body]
pub(crate) fn value_map_insert(m: &mut ValueMap, key: usize, set: LocationSet) -> (r: Option<
    LocationSet,
>)
    ensures
        location_sets(*final(m)) == location_sets(*old(m)).insert(key, set@),
        match r {
            Some(before) => location_sets(*old(m)).contains_key(key) && before@ == location_sets(
                *old(m),
            )[key],
            None => !location_sets(*old(m)).contains_key(key),
        },
{
    m.insert(key, set)
}

/// `im_rc::HashMap::remove`: takes the entry under the key out and returns
/// its set.
#[verifier::external_body]
pub(crate) fn value_map_remove(m: &mut ValueMap, key: usize) -> (r: Option<LocationSet>)
    ensures
        location_sets(*final(m)) == location_sets(*old(m)).remove(key),
        match r {
            Some(before) => location_sets(*old(m)).contains_key(key) && before@ == location_sets(
                *old(m),
            )[key],
            None => !location_sets(*old(m)).contains_key(key),
        },
{
    m.remove(&key)
}

/// `Clone` of `im_rc::HashMap`: the clone holds the same entries.
#[verifier::external_body]
pub(crate) fn value_map_clone(m: &ValueMap) -> (r: ValueMap)
    ensures
        location_sets(r) == location_sets(*m),
{
    m.clone()
}

/// `im_rc::OrdSet::new`: a queue without items.
#[verifier::external_body]
pub(crate) fn queue_new() -> (r: ChoiceQueue)
    ensures
        queue_items(r) == Set::<(usize, usize)>::empty(),
{
    im_rc::OrdSet::new()
}

/// `im_rc::OrdSet::get_min`: the least item in the order of pairs, `None`
/// for a queue without items.
#[verifier::external_body]
pub(crate) fn queue_min(q: &ChoiceQueue) -> (r: Option<(usize, usize)>)
    ensures
        match r {
            Some(least) => queue_items(*q).contains(least) && forall|item: (usize, usize)|
                queue_items(*q).contains(item) ==> pair_le(least, item),
            None => queue_items(*q) == Set::<(usize, usize)>::empty(),
        },
{
    q.get_min().copied()
}

/// `im_rc::OrdSet::insert`: the queue holds the item afterwards.
#[verifier::external_body]
pub(crate) fn queue_insert(q: &mut ChoiceQueue, item: (usize, usize))
    ensures
        queue_items(*final(q)) == queue_items(*old(q)).insert(item),
{
    q.insert(item);
}

/// `im_rc::OrdSet::remove`: the queue no longer holds the item afterwards.
#[verifier::external_body]
pub(crate) fn queue_remove(q: &mut ChoiceQueue, item: (usize, usize))
    ensures
        queue_items(*final(q)) == queue_items(*old(q)).remove(item),
{
    q.remove(&item);
}

/// `Clone` of `im_rc::OrdSet`: the clone holds the same items.
#[verifier::external_body]
pub(crate) fn queue_clone(q: &ChoiceQueue) -> (r: ChoiceQueue)
    ensures
        queue_items(r) == queue_items(*q),
{
    q.clone()
}

/// The members of a location set, each once, in the order in which the set
/// hands them out.
pub fn members(set: &LocationSet) -> (r: Vec<usize>)
    ensures
        r@.no_duplicates(),
        r@.to_set() == set@,
        r@.len() == set@.len(),
        set@.finite(),
{
    broadcast use vstd::std_specs::hash::group_hash_axioms;

    let mut items: Vec<usize> = Vec::new();
    let ghost all = set.iter().remaining();
    for x in it: set.iter()
        invariant
            it.seq() == all,
            all.no_duplicates(),
            all.unref().to_set() == set@,
            all.len() == set@.len(),
            items@ == all.unref().take(it.index()),
    {
        assert(all.unref().take(it.index() + 1) == all.unref().take(it.index()).push(*x));
        items.push(*x);
    }
    proof {
        assert(items@ == all.unref());
        assert forall|i: int, j: int|
            0 <= i < items@.len() && 0 <= j < items@.len() && i != j implies items@[i]
            != items@[j] by {
            assert(all[i] != all[j]);
        }
        vstd::seq_lib::seq_to_set_is_finite(items@);
    }
    items
}

} // verus!
