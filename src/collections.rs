//! The two hash collections the library keeps: an index from node id to
//! position, and a set of node ids.  Both are hashbrown's tables, seen by
//! the proofs only through what they hold.
use vstd::prelude::*;

verus! {

/// Index from a node id to the node's position in the node sequence.
#[verifier::external_body]
pub struct NodeIndex {
    map: hashbrown::HashMap<u64, usize>,
}

/// The entries held by a [`NodeIndex`].
pub uninterp spec fn index_entries(m: NodeIndex) -> Map<u64, usize>;

impl NodeIndex {
    /// Relies on hashbrown::HashMap::new: a new map holds no entry.
    #[verifier::external_body]
    pub(crate) fn new() -> (r: NodeIndex)
        ensures
            index_entries(r).is_empty(),
    {
        NodeIndex { map: hashbrown::HashMap::new() }
    }

    /// Relies on hashbrown::HashMap::insert: the key now maps to the value,
    /// every other entry stays.
    #[verifier::external_body]
    pub(crate) fn insert(&mut self, id: u64, pos: usize)
        ensures
            index_entries(*final(self)) == index_entries(*old(self)).insert(id, pos),
    {
        self.map.insert(id, pos);
    }

    /// Relies on hashbrown::HashMap::get: the value stored under the key, if any.
    #[verifier::external_body]
    pub(crate) fn get(&self, id: u64) -> (r: Option<usize>)
        ensures
            r == (if index_entries(*self).contains_key(id) {
                Some(index_entries(*self)[id])
            } else {
                None::<usize>
            }),
    {
        self.map.get(&id).copied()
    }
}

/// A set of node ids.
#[verifier::external_body]
pub struct IdSet {
    set: hashbrown::HashSet<u64>,
}

/// The ids held by an [`IdSet`].
pub uninterp spec fn set_contents(s: IdSet) -> Set<u64>;

impl IdSet {
    /// Relies on hashbrown::HashSet::new: a new set is empty.
    #[verifier::external_body]
    pub(crate) fn new() -> (r: IdSet)
        ensures
            set_contents(r).is_empty(),
    {
        IdSet { set: hashbrown::HashSet::new() }
    }

    /// Relies on hashbrown::HashSet::insert: the id is added, and the result
    /// tells whether it was absent before.
    #[verifier::external_body]
    pub(crate) fn insert(&mut self, id: u64) -> (r: bool)
        ensures
            set_contents(*final(self)) == set_contents(*old(self)).insert(id),
            r == !set_contents(*old(self)).contains(id),
    {
        self.set.insert(id)
    }

    /// Relies on hashbrown::HashSet::contains: whether the id is in the set.
    #[verifier::external_body]
    pub(crate) fn contains(&self, id: u64) -> (r: bool)
        ensures
            r == set_contents(*self).contains(id),
    {
        self.set.contains(&id)
    }
}

} // verus!
