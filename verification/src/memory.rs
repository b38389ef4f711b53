use crate::vector::Vector;
use std::collections::HashMap;
use vstd::prelude::*;
use vstd::std_specs::iter::IteratorSpec;

verus! {

/// A keyed collection of vectors.
pub trait Storage {
    /// Each stored id mapped to its vector.
    spec fn stored(&self) -> Map<u64, Vector>;

    /// Stores `vector` under `id`, replacing any vector stored there.
    fn insert(&mut self, id: u64, vector: Vector)
        ensures
            final(self).stored() == old(self).stored().insert(id, vector),
    ;

    /// The vector stored under `id`, if any.
    fn get(&self, id: u64) -> (result: Option<&Vector>)
        ensures
            match result {
                Some(v) => self.stored().contains_key(id) && *v == self.stored()[id],
                None => !self.stored().contains_key(id),
            },
    ;

    /// Removes and returns the vector stored under `id`, if any.
    fn remove(&mut self, id: u64) -> (result: Option<Vector>)
        ensures
            final(self).stored() == old(self).stored().remove(id),
            match result {
                Some(v) => old(self).stored().contains_key(id) && v == old(self).stored()[id],
                None => !old(self).stored().contains_key(id),
            },
    ;

    /// Every stored id once, in no particular order.
    fn list_ids(&self) -> (ids: Vec<u64>)
        ensures
            ids@.to_set() == self.stored().dom(),
            ids@.no_duplicates(),
    ;
}

/// Vectors held in a hash map keyed by id.
pub struct InMemoryStorage {
    vectors: HashMap<u64, Vector>,
}

impl InMemoryStorage {
    /// Creates empty storage.
    pub fn new() -> (storage: Self)
        ensures
            storage.stored() == Map::<u64, Vector>::empty(),
    {
        Self { vectors: HashMap::new() }
    }
}

impl Storage for InMemoryStorage {
    closed spec fn stored(&self) -> Map<u64, Vector> {
        self.vectors@
    }

    fn insert(&mut self, id: u64, vector: Vector) {
        broadcast use vstd::std_specs::hash::group_hash_axioms;

        self.vectors.insert(id, vector);
    }

    fn get(&self, id: u64) -> (result: Option<&Vector>) {
        broadcast use vstd::std_specs::hash::group_hash_axioms;

        self.vectors.get(&id)
    }

    fn remove(&mut self, id: u64) -> (result: Option<Vector>) {
        broadcast use vstd::std_specs::hash::group_hash_axioms;

        self.vectors.remove(&id)
    }

    fn list_ids(&self) -> (ids: Vec<u64>) {
        broadcast use vstd::std_specs::hash::group_hash_axioms;

        let ghost keys = vstd::std_specs::hash::spec_keys_iter(&self.vectors).remaining();
        let mut ids: Vec<u64> = Vec::new();
        for key in it: self.vectors.keys()
            invariant
                it.seq() == keys,
                ids@ == keys.take(it.index()).unref(),
        {
            proof {
                assert(keys.take(it.index() + 1).unref() =~= keys.take(it.index()).unref().push(*key));
            }
            ids.push(*key);
        }
        proof {
            assert(keys.take(keys.len() as int) =~= keys);
            assert(ids@ =~= keys.unref());
            assert(ids@.no_duplicates()) by {
                assert forall|a: int, b: int| 0 <= a < ids@.len() && 0 <= b < ids@.len() && a != b implies ids@[a] != ids@[b] by {
                    assert(keys[a] != keys[b]);
                }
            }
        }
        ids
    }
}

} // verus!
