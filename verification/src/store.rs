//! The adjacency store: the links filed by source in one table and by target
//! in another. The store keeps each table in order; that the two tables
//! mirror each other is the concern of the index built on it.

use crate::table::{rows_ascending, rows_of, Entry, LinkTable, Triple};
use vstd::prelude::*;

verus! {

/// Forward and reverse adjacency of a set of links.
pub struct AdjacencyStore {
    forward: LinkTable,
    reverse: LinkTable,
}

impl AdjacencyStore {
    /// The forward entries, each as `(source, target, link type)`.
    pub closed spec fn forward(&self) -> Set<Triple> {
        self.forward@
    }

    /// The reverse entries, each as `(target, source, link type)`.
    pub closed spec fn reverse(&self) -> Set<Triple> {
        self.reverse@
    }

    /// Both tables are in order.
    pub closed spec fn wf(&self) -> bool {
        self.forward.wf() && self.reverse.wf()
    }

    /// A store without entries.
    pub fn new() -> (store: Self)
        ensures
            store.wf(),
            store.forward() == Set::<Triple>::empty(),
            store.reverse() == Set::<Triple>::empty(),
    {
        AdjacencyStore { forward: LinkTable::new(), reverse: LinkTable::new() }
    }

    /// Adds `(target, link_type)` to the forward set of `source` and tells
    /// whether the pair was new there.
    pub fn insert_forward(&mut self, source: &str, target: &str, link_type: &str) -> (inserted:
        bool)
        requires
            old(self).wf(),
        ensures
            final(self).wf(),
            final(self).forward() == old(self).forward().insert((source@, target@, link_type@)),
            final(self).reverse() == old(self).reverse(),
            inserted == !old(self).forward().contains((source@, target@, link_type@)),
            !inserted ==> *final(self) == *old(self),
    {
        self.forward.insert(source, target, link_type)
    }

    /// Adds `(source, link_type)` to the reverse set of `target` and tells
    /// whether the pair was new there.
    pub fn insert_reverse(&mut self, target: &str, source: &str, link_type: &str) -> (inserted:
        bool)
        requires
            old(self).wf(),
        ensures
            final(self).wf(),
            final(self).reverse() == old(self).reverse().insert((target@, source@, link_type@)),
            final(self).forward() == old(self).forward(),
            inserted == !old(self).reverse().contains((target@, source@, link_type@)),
            !inserted ==> *final(self) == *old(self),
    {
        self.reverse.insert(target, source, link_type)
    }

    /// The forward entries of `source`, in ascending order of target and
    /// link type; none if `source` has no outgoing link.
    pub fn forward_of(&self, source: &str) -> (run: &[Entry])
        requires
            self.wf(),
        ensures
            rows_ascending(rows_of(run@)),
            rows_of(run@).to_set() == self.forward().filter(|e: Triple| e.0 == source@),
    {
        self.forward.entries_of(source)
    }

    /// The reverse entries of `target`, in ascending order of source and
    /// link type; none if `target` has no incoming link.
    pub fn reverse_of(&self, target: &str) -> (run: &[Entry])
        requires
            self.wf(),
        ensures
            rows_ascending(rows_of(run@)),
            rows_of(run@).to_set() == self.reverse().filter(|e: Triple| e.0 == target@),
    {
        self.reverse.entries_of(target)
    }
}

} // verus!
