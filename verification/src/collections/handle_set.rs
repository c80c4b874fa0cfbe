//! A hash set of node handles.
//!
//! A handle is a small number that stands for a node. The set itself is a
//! `hashbrown::HashSet<usize>`; nothing of it is verified here, and what the
//! functions below state of it is taken from its documentation.

use vstd::prelude::*;

verus! {

#[verifier::external_body]
#[derive(Debug)]
pub struct HandleSet {
    items: hashbrown::HashSet<usize>,
}

/// The handles that a set holds.
pub uninterp spec fn handle_set_items(set: HandleSet) -> Set<usize>;

impl HandleSet {
    /// `HashSet::new`: a set that holds nothing.
    #[verifier::external_body]
    pub(crate) fn new() -> (set: HandleSet)
        ensures
            handle_set_items(set) == Set::<usize>::empty(),
    {
        HandleSet { items: hashbrown::HashSet::new() }
    }

    /// `HashSet::insert`: afterwards the set holds `handle` besides what it
    /// held before, and the result says whether `handle` was new to it.
    #[verifier::external_body]
    pub(crate) fn insert(&mut self, handle: usize) -> (fresh: bool)
        ensures
            handle_set_items(*final(self)) == handle_set_items(*old(self)).insert(handle),
            fresh == !handle_set_items(*old(self)).contains(handle),
    {
        self.items.insert(handle)
    }

    /// `HashSet::contains`: whether the set holds `handle`.
    #[verifier::external_body]
    pub(crate) fn contains(&self, handle: usize) -> (found: bool)
        ensures
            found == handle_set_items(*self).contains(handle),
    {
        self.items.contains(&handle)
    }

    /// `HashSet::is_empty`: whether the set holds nothing.
    #[verifier::external_body]
    pub(crate) fn is_empty(&self) -> (empty: bool)
        ensures
            empty == (handle_set_items(*self) == Set::<usize>::empty()),
    {
        self.items.is_empty()
    }
}

} // verus!
