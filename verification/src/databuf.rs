use std::collections::HashMap;
use vstd::prelude::*;

verus! {

/// A byte store addressed by absolute location. An announcement buffer
/// forwards every accepted announcement to it, together with its hash.
pub trait AnnStore {
    /// What the store holds at each location that was written.
    spec fn contents(&self) -> Map<usize, (Seq<u8>, crate::types::Hash)>;

    /// Writes the announcement `ann` and its hash at `mloc`, replacing what
    /// was there.
    fn put_ann(&mut self, mloc: usize, ann: &[u8], hash: &crate::types::Hash)
        ensures
            final(self).contents() == old(self).contents().insert(mloc, (ann@, *hash)),
    ;
}

/// A byte store that keeps every announcement in memory.
pub struct MemStore {
    slots: HashMap<usize, (Vec<u8>, crate::types::Hash)>,
}

impl MemStore {
    /// A store with nothing written.
    pub fn new() -> (s: Self)
        ensures
            s.contents() == Map::<usize, (Seq<u8>, crate::types::Hash)>::empty(),
    {
        let s = MemStore { slots: HashMap::new() };
        assert(s.contents() =~= Map::<usize, (Seq<u8>, crate::types::Hash)>::empty());
        s
    }

    /// The announcement and hash written at `mloc`, if any.
    pub fn get(&self, mloc: usize) -> (r: Option<&(Vec<u8>, crate::types::Hash)>)
        ensures
            r.is_some() == self.contents().contains_key(mloc),
            r.is_some() ==> (r.unwrap().0@, r.unwrap().1) == self.contents()[mloc],
    {
        broadcast use vstd::std_specs::hash::group_hash_axioms;

        self.slots.get(&mloc)
    }

    /// The number of locations written.
    pub fn len(&self) -> (n: usize)
        ensures
            n == self.contents().len(),
            self.contents().dom().finite(),
    {
        broadcast use vstd::std_specs::hash::group_hash_axioms;

        assert(self.contents().dom() =~= self.slots@.dom());
        self.slots.len()
    }
}

impl AnnStore for MemStore {
    closed spec fn contents(&self) -> Map<usize, (Seq<u8>, crate::types::Hash)> {
        Map::new(
            |k: usize| self.slots@.contains_key(k),
            |k: usize| (self.slots@[k].0@, self.slots@[k].1),
        )
    }

    fn put_ann(&mut self, mloc: usize, ann: &[u8], hash: &crate::types::Hash) {
        broadcast use vstd::std_specs::hash::group_hash_axioms;

        let bytes = vstd::slice::slice_to_vec(ann);
        self.slots.insert(mloc, (bytes, *hash));
        assert(self.contents() =~= old(self).contents().insert(mloc, (ann@, *hash)));
    }
}

} // verus!
