//! Edges of the plan graph and their storage.

use slotmap::{DefaultKey, SlotMap};
use vstd::prelude::*;

verus! {

/// Whether a consumer may rely on the order of the rows that it gets from an input.
#[derive(Clone, Copy, PartialEq, Eq, Structural, Debug)]
pub enum Edge {
    Ordered,
    Unordered,
}

impl Default for Edge {
    fn default() -> (edge: Self)
        ensures
            edge == Edge::Ordered,
    {
        Edge::Ordered
    }
}

impl Edge {
    pub fn is_unordered(&self) -> (unordered: bool)
        ensures
            unordered == (*self == Edge::Unordered),
    {
        matches!(self, Edge::Unordered)
    }
}

/// Names an edge in an [`EdgesMap`].
pub type EdgeKey = DefaultKey;

/// `slotmap::DefaultKey`: an opaque handle that can be copied and compared.
#[verifier::external_type_specification]
#[verifier::external_body]
pub struct ExDefaultKey(DefaultKey);

/// All edges of a plan graph, each under the key that it got when it was inserted.
///
/// Holds a `slotmap::SlotMap`. Edges are added and overwritten, never removed.
#[verifier::external_body]
pub struct EdgesMap {
    map: SlotMap<DefaultKey, Edge>,
}

/// The edges that an [`EdgesMap`] holds, by key.
pub uninterp spec fn edges_of(map: EdgesMap) -> Map<DefaultKey, Edge>;

impl View for EdgesMap {
    type V = Map<EdgeKey, Edge>;

    open spec fn view(&self) -> Map<EdgeKey, Edge> {
        edges_of(*self)
    }
}

/// `<slotmap::DefaultKey as PartialEq>::eq`: derived, so two keys compare equal exactly when
/// they are the same key.
#[verifier::external_body]
pub(crate) fn same_key(a: EdgeKey, b: EdgeKey) -> (same: bool)
    ensures
        same == (a == b),
{
    a == b
}

impl EdgesMap {
    /// `slotmap::SlotMap::with_capacity_and_key`: an empty map.
    ///
    /// One slot of eight bytes more than `capacity` is allocated at once; the bound keeps that
    /// below the largest allocation there is.
    #[verifier::external_body]
    pub(crate) fn with_capacity_and_key(capacity: usize) -> (edges: Self)
        requires
            capacity < isize::MAX as int / 8,
        ensures
            edges_of(edges).is_empty(),
    {
        EdgesMap { map: SlotMap::with_capacity_and_key(capacity) }
    }

    /// `slotmap::SlotMap::insert`: stores `edge` under a key that was not in use.
    ///
    /// Slots are counted in 32 bits, and one of them is never handed out. The second bound
    /// keeps the storage below the largest allocation there is when it has to double.
    #[verifier::external_body]
    pub(crate) fn insert(&mut self, edge: Edge) -> (key: EdgeKey)
        requires
            edges_of(*old(self)).len() < u32::MAX - 1,
            edges_of(*old(self)).len() + 1 <= isize::MAX as int / 16,
        ensures
            !edges_of(*old(self)).contains_key(key),
            edges_of(*final(self)) == edges_of(*old(self)).insert(key, edge),
    {
        self.map.insert(edge)
    }

    /// `slotmap::SlotMap::get`: the edge under `key`, if there is one.
    #[verifier::external_body]
    pub(crate) fn get(&self, key: EdgeKey) -> (edge: Option<&Edge>)
        ensures
            edge is Some <==> edges_of(*self).contains_key(key),
            edge matches Some(edge) ==> *edge == edges_of(*self)[key],
    {
        self.map.get(key)
    }

    /// `slotmap::SlotMap::get_mut`: access to the edge under `key`, if there is one; no other
    /// edge changes through it.
    #[verifier::external_body]
    pub(crate) fn get_mut(&mut self, key: EdgeKey) -> (edge: Option<&mut Edge>)
        ensures
            edge is Some <==> edges_of(*old(self)).contains_key(key),
            match edge {
                Some(edge) => {
                    &&& *edge == edges_of(*old(self))[key]
                    &&& edges_of(*final(self)) == edges_of(*old(self)).insert(key, *final(edge))
                },
                None => edges_of(*final(self)) == edges_of(*old(self)),
            },
    {
        self.map.get_mut(key)
    }

    /// `slotmap::SlotMap::get_disjoint_mut`: access to the edges under all of `keys` at once,
    /// in the order of the keys. There is none if a key is unknown or occurs twice. No other
    /// edge changes through it.
    #[verifier::external_body]
    pub(crate) fn get_disjoint_mut<const N: usize>(&mut self, keys: &Vec<EdgeKey>) -> (edges:
        Option<[&mut Edge; N]>)
        requires
            keys@.len() == N,
        ensures
            edges is Some <==> keys@.no_duplicates() && forall|i: int|
                0 <= i < N ==> edges_of(*old(self)).contains_key(#[trigger] keys@[i]),
            edges is None ==> edges_of(*final(self)) == edges_of(*old(self)),
            edges matches Some(edges) ==> {
                &&& edges_of(*final(self)).dom() == edges_of(*old(self)).dom()
                &&& forall|i: int|
                    0 <= i < N ==> *#[trigger] edges@[i] == edges_of(*old(self))[keys@[i]]
                &&& forall|i: int|
                    0 <= i < N ==> edges_of(*final(self))[keys@[i]] == *final(#[trigger] edges@[i])
                &&& forall|key: EdgeKey|
                    edges_of(*old(self)).contains_key(key) && !keys@.contains(key) ==> #[trigger]
                        edges_of(*final(self))[key] == edges_of(*old(self))[key]
            },
    {
        let keys: [DefaultKey; N] = keys.as_slice().try_into().unwrap();
        self.map.get_disjoint_mut(keys)
    }
}

} // verus!
