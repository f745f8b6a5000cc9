//! The islands of a document, kept in a slot map so that the key of an
//! island stays valid while other islands come and go.
use vstd::prelude::*;

use slotmap::{DefaultKey, SlotMap};

use crate::index::FaceIndex;

verus! {

#[verifier::external_type_specification]
#[verifier::external_body]
pub struct ExDefaultKey(DefaultKey);


/// Stable identity of an island.
pub type IslandKey = DefaultKey;

/// A group of faces placed together on the paper, known by its root face.
/// `place` names the rotation and location of the island in the caller's
/// table of placements.
#[derive(Debug, Clone, Copy, PartialEq, Eq, Structural)]
pub struct Island {
    pub root: FaceIndex,
    pub place: u32,
}

impl Island {
    pub fn root_face(&self) -> (r: FaceIndex)
        ensures
            r == self.root,
    {
        self.root
    }

    pub fn placement(&self) -> (r: u32)
        ensures
            r == self.place,
    {
        self.place
    }

    /// Gives the island another root face and placement; the new root must
    /// already be one of its faces.
    pub fn reset_transformation(&mut self, root: FaceIndex, place: u32)
        ensures
            *final(self) == (Island { root, place }),
    {
        self.root = root;
        self.place = place;
    }
}

/// A slot map of islands. Verus does not take a declaration of
/// `slotmap::SlotMap` itself, whose key parameter is bound by a trait of the
/// slotmap crate, so the map is held here, out of Verus's sight, and reached
/// only through the functions below.
#[verifier::external_body]
pub struct IslandMap {
    slots: SlotMap<IslandKey, Island>,
}

/// The islands that a slot map holds, by key.
pub uninterp spec fn island_map(m: IslandMap) -> Map<IslandKey, Island>;

/// The empty map of islands.
pub open spec fn no_islands() -> Map<IslandKey, Island> {
    Map::empty()
}

/// How many slots the map has made, free ones included.
pub uninterp spec fn slot_count(m: IslandMap) -> nat;

/// Relies on SlotMap::with_key: a new map is empty and has made only its
/// sentinel slot.
#[verifier::external_body]
pub(crate) fn islands_new() -> (r: IslandMap)
    ensures
        island_map(r) == no_islands(),
        slot_count(r) == 1,
{
    IslandMap { slots: SlotMap::with_key() }
}

/// Relies on SlotMap::len: the number of islands held.
#[verifier::external_body]
pub(crate) fn islands_len(m: &IslandMap) -> (r: usize)
    ensures
        r == island_map(*m).len(),
{
    m.slots.len()
}

/// Relies on SlotMap::insert: the island is stored under a key that the map
/// did not hold; a new slot is made only when no free one is left, and the
/// map panics when that would be slot `u32::MAX`.
#[verifier::external_body]
pub(crate) fn islands_insert(m: &mut IslandMap, v: Island) -> (k: IslandKey)
    requires
        slot_count(*old(m)) < u32::MAX,
    ensures
        !island_map(*old(m)).contains_key(k),
        island_map(*final(m)) == island_map(*old(m)).insert(k, v),
        slot_count(*final(m)) <= slot_count(*old(m)) + 1,
{
    m.slots.insert(v)
}

/// Relies on SlotMap::remove: the island under `k`, if any, is taken out.
#[verifier::external_body]
pub(crate) fn islands_remove(m: &mut IslandMap, k: IslandKey) -> (r: Option<
    Island,
>)
    ensures
        slot_count(*final(m)) == slot_count(*old(m)),
        match r {
            Some(v) => {
                &&& island_map(*old(m)).contains_key(k)
                &&& v == island_map(*old(m))[k]
                &&& island_map(*final(m)) == island_map(*old(m)).remove(k)
            },
            None => {
                &&& !island_map(*old(m)).contains_key(k)
                &&& island_map(*final(m)) == island_map(*old(m))
            },
        },
{
    m.slots.remove(k)
}

/// Relies on SlotMap::get: the island under `k`, if any.
#[verifier::external_body]
pub(crate) fn islands_get(m: &IslandMap, k: IslandKey) -> (r: Option<Island>)
    ensures
        r == if island_map(*m).contains_key(k) {
            Some(island_map(*m)[k])
        } else {
            None::<Island>
        },
{
    m.slots.get(k).copied()
}

/// Relies on SlotMap::get_mut: the island under `k`, if any, is replaced.
#[verifier::external_body]
pub(crate) fn islands_set(m: &mut IslandMap, k: IslandKey, v: Island) -> (r: bool)
    ensures
        slot_count(*final(m)) == slot_count(*old(m)),
        r == island_map(*old(m)).contains_key(k),
        island_map(*final(m)) == if r {
            island_map(*old(m)).insert(k, v)
        } else {
            island_map(*old(m))
        },
{
    match m.slots.get_mut(k) {
        Some(x) => {
            *x = v;
            true
        },
        None => false,
    }
}

/// Relies on SlotMap::keys: every key once, in an order that the map picks.
#[verifier::external_body]
pub(crate) fn islands_keys(m: &IslandMap) -> (r: Vec<IslandKey>)
    ensures
        r@.no_duplicates(),
        forall|k: IslandKey| r@.contains(k) <==> island_map(*m).contains_key(k),
{
    m.slots.keys().collect()
}

} // verus!
