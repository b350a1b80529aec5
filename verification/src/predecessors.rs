//! For each vertex that a search has reached, the best distance and the vertex
//! that it was reached from.

use rustc_hash::FxHashMap;
use vstd::prelude::*;

use crate::graph::Vertex;

verus! {

/// A distance from the start, and the vertex before.
pub type PredecessorInfo<'a, 'b> = (u64, &'b Vertex<'a>);

/// `rustc_hash::FxHasher`, the hash function of `FxHashMap`.
#[verifier::external_type_specification]
#[verifier::external_body]
pub struct ExFxHasher(rustc_hash::FxHasher);

/// `std::hash::BuildHasherDefault`, which makes the hashers of an `FxHashMap`.
#[verifier::external_type_specification]
#[verifier::external_body]
#[verifier::reject_recursive_types(H)]
pub struct ExBuildHasherDefault<H>(std::hash::BuildHasherDefault<H>);

/// Calls `get` of a `rustc_hash::FxHashMap`, which is a `std::collections::HashMap`
/// that hashes by `FxHasher`: the value that the map holds for `key`, if any. The
/// hash of a key depends on the key alone, so that a key is found again.
#[verifier::external_body]
pub(crate) fn lookup<'m, T>(map: &'m FxHashMap<u64, T>, key: u64) -> (found: Option<&'m T>)
    ensures
        match found {
            Some(value) => map@.contains_key(key) && *value == map@[key],
            None => !map@.contains_key(key),
        },
{
    map.get(&key)
}

/// Calls `insert` of an `FxHashMap`: from then on the map holds `value` for `key`,
/// and for every other key what it held before. As with a `Vec`, nothing is said of
/// what happens when memory runs out.
#[verifier::external_body]
pub(crate) fn record<T>(map: &mut FxHashMap<u64, T>, key: u64, value: T)
    ensures
        final(map)@ == old(map)@.insert(key, value),
{
    map.insert(key, value);
}

/// Calls `remove` of an `FxHashMap`: takes the value for `key` out of the map, if
/// there is one, and leaves the others.
#[verifier::external_body]
pub(crate) fn take<T>(map: &mut FxHashMap<u64, T>, key: u64) -> (taken: Option<T>)
    ensures
        final(map)@ == old(map)@.remove(key),
        match taken {
            Some(value) => old(map)@.contains_key(key) && value == old(map)@[key],
            None => !old(map)@.contains_key(key),
        },
{
    map.remove(&key)
}

/// Calls `len` of an `FxHashMap`: the number of keys that the map holds values for.
#[verifier::external_body]
pub(crate) fn count<T>(map: &FxHashMap<u64, T>) -> (len: usize)
    ensures
        len == map@.len(),
{
    map.len()
}

/// A table of this many entries can be addressed: rounded up to a power of two,
/// with room to spare, an entry takes fewer than 64 bytes, and no allocation
/// exceeds half of the address space.
pub open spec fn reservable_count(count: nat) -> bool {
    count <= usize::MAX / 128
}

/// Room for `size_hint` entries can be reserved.
pub open spec fn reservable(size_hint: usize) -> bool {
    reservable_count(size_hint as nat)
}

/// Can room for `size_hint` entries be reserved?
pub fn check_reservable(size_hint: usize) -> (ok: bool)
    ensures
        ok == reservable(size_hint),
        ok == (size_hint <= usize::MAX / 128),
{
    size_hint <= usize::MAX / 128
}

/// An empty map with room for `size_hint` entries.
pub(crate) fn with_room<'a, 'b>(size_hint: usize) -> (predecessors: FxHashMap<
    u64,
    PredecessorInfo<'a, 'b>,
>)
    requires
        reservable(size_hint),
    ensures
        predecessors@ == Map::<u64, PredecessorInfo<'a, 'b>>::empty(),
{
    let mut predecessors: FxHashMap<u64, PredecessorInfo<'a, 'b>> = FxHashMap::default();
    predecessors.reserve(size_hint);
    predecessors
}

/// The vertices that lead to `end` according to `predecessors`, none of which is
/// consulted twice.
pub open spec fn traced<'a>(
    predecessors: Map<u64, PredecessorInfo<'a, 'a>>,
    end: Vertex<'a>,
) -> Seq<Vertex<'a>>
    decreases predecessors.dom().len(),
    when predecessors.dom().finite()
{
    if predecessors.contains_key(end.key) {
        traced(predecessors.remove(end.key), *predecessors[end.key].1).push(end)
    } else {
        seq![end]
    }
}

/// Follows `predecessors` back from `end`.
pub(crate) fn trace_back<'a, 'b>(
    predecessors: FxHashMap<u64, PredecessorInfo<'a, 'b>>,
    end: &'b Vertex<'a>,
) -> (route: Vec<Vertex<'a>>)
    requires
        predecessors@.dom().finite(),
    ensures
        route@ == traced(predecessors@, *end),
{
    let mut predecessors: FxHashMap<u64, PredecessorInfo<'a, 'b>> = predecessors;
    let ghost all = predecessors@;
    let mut current: &'b Vertex<'a> = end;
    let mut backwards: Vec<Vertex<'a>> = Vec::new();
    backwards.push(*end);
    loop
        invariant
            predecessors@.dom().finite(),
            backwards@.len() > 0,
            backwards@.last() == *current,
            traced(all, *end) == traced(predecessors@, *current) + backwards@.drop_last().reverse(),
        ensures
            traced(all, *end) == backwards@.reverse(),
        decreases predecessors@.dom().len(),
    {
        let ghost earlier = predecessors@;
        let ghost shorter = backwards@;
        match take(&mut predecessors, current.key) {
            Some((_, node)) => {
                backwards.push(*node);
                proof {
                    assert(backwards@.drop_last() =~= shorter);
                    assert(shorter.reverse() =~= seq![*current] + shorter.drop_last().reverse());
                    assert(traced(all, *end) =~= traced(predecessors@, *node)
                        + backwards@.drop_last().reverse());
                }
                current = node;
            },
            None => {
                assert(backwards@.reverse() =~= seq![*current] + backwards@.drop_last().reverse());
                break;
            },
        }
    }
    reversed(&backwards)
}

/// The same vertices in the opposite order.
fn reversed<'a>(backwards: &Vec<Vertex<'a>>) -> (route: Vec<Vertex<'a>>)
    ensures
        route@ == backwards@.reverse(),
{
    let mut route: Vec<Vertex<'a>> = Vec::new();
    let mut i: usize = backwards.len();
    while i > 0
        invariant
            0 <= i <= backwards@.len(),
            route@ == backwards@.skip(i as int).reverse(),
        decreases i,
    {
        i = i - 1;
        proof {
            assert(backwards@.skip(i as int).reverse() =~= backwards@.skip(i + 1).reverse().push(
                backwards@[i as int],
            ));
        }
        route.push(backwards[i]);
    }
    assert(backwards@.skip(0) =~= backwards@);
    route
}

} // verus!
