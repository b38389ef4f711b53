use crate::error::Error;
use crate::metrics::{Metric, valid_vector, validate_vector, vector_error};
use crate::search::{SearchHit, SearchSnapshot, candidates, is_top_k, search_storage};
use crate::storage::{
    VectorId, VectorStorage, contents_of, lemma_contents_push, lemma_index_of_unique, lemma_contents_swap_remove,
    lemma_contents_write_row, lemma_row_of_push, lemma_row_of_write_row, raw_ids, row_of,
    swap_remove_rows, swap_remove_seq, write_row,
};
use vstd::prelude::*;

verus! {

/// What a store (or a search snapshot) holds: its metric, its fixed dimension,
/// the ids in row order, and their values row after row.
pub struct StoreView {
    pub metric: Metric,
    pub dims: nat,
    pub ids: Seq<u64>,
    pub flat: Seq<u32>,
}

impl StoreView {
    /// The number of stored vectors.
    pub open spec fn len(self) -> nat {
        self.ids.len()
    }

    /// The values of row `i`.
    pub open spec fn row(self, i: int) -> Seq<u32> {
        row_of(self.flat, self.dims, i)
    }

    /// Each stored id mapped to its vector.
    pub open spec fn contents(self) -> Map<u64, Seq<u32>> {
        contents_of(self.ids, self.flat, self.dims)
    }

    /// A positive dimension, one row per id, distinct ids, and every vector valid
    /// under the metric.
    pub open spec fn well_formed(self) -> bool {
        &&& self.dims > 0
        &&& self.flat.len() == self.ids.len() * self.dims
        &&& self.ids.no_duplicates()
        &&& forall|i: int| 0 <= i < self.ids.len() ==> valid_vector(self.metric, #[trigger] self.row(i))
    }
}

/// Reading back an insert: after inserting `vector` under a new id `id`, the
/// store holds `vector` under `id`, every other entry as before, one vector
/// more, and stays well-formed.
pub proof fn law_get_after_insert(before: StoreView, id: u64, vector: Seq<u32>)
    requires
        before.well_formed(),
        !before.contents().contains_key(id),
        vector.len() == before.dims,
        valid_vector(before.metric, vector),
    ensures
        ({
            let after = StoreView { ids: before.ids.push(id), flat: before.flat + vector, ..before };
            &&& after.well_formed()
            &&& after.len() == before.len() + 1
            &&& after.contents().contains_key(id)
            &&& after.contents()[id] == vector
            &&& forall|k: u64|
                k != id ==> (#[trigger] after.contents().contains_key(k)
                    == before.contents().contains_key(k) && (before.contents().contains_key(k)
                    ==> after.contents()[k] == before.contents()[k]))
        }),
{
    let after = StoreView { ids: before.ids.push(id), flat: before.flat + vector, ..before };
    lemma_contents_push(before.ids, before.flat, before.dims, id, vector);
    assert forall|i: int| 0 <= i < after.ids.len() implies valid_vector(
        after.metric,
        #[trigger] after.row(i),
    ) by {
        lemma_row_of_push(before.flat, before.dims, before.ids.len() as int, vector, i);
        if i < before.ids.len() {
            assert(valid_vector(before.metric, before.row(i)));
        }
    }
}

/// Reading back a replacement: after an upsert of `vector` under a stored id
/// `id`, the store holds `vector` under `id`, every other entry as before, as
/// many vectors as before, and stays well-formed.
pub proof fn law_get_after_replace(before: StoreView, id: u64, vector: Seq<u32>)
    requires
        before.well_formed(),
        before.contents().contains_key(id),
        vector.len() == before.dims,
        valid_vector(before.metric, vector),
    ensures
        ({
            let after = StoreView {
                flat: write_row(before.flat, before.dims, before.ids.index_of(id), vector),
                ..before
            };
            &&& after.well_formed()
            &&& after.len() == before.len()
            &&& after.contents() == before.contents().insert(id, vector)
        }),
{
    let r = before.ids.index_of(id);
    let n = before.ids.len() as int;
    let after = StoreView { flat: write_row(before.flat, before.dims, r, vector), ..before };
    lemma_contents_write_row(before.ids, before.flat, before.dims, r, vector);
    assert forall|i: int| 0 <= i < n implies valid_vector(after.metric, #[trigger] after.row(i)) by {
        lemma_row_of_write_row(before.flat, before.dims, n, r, vector, i);
        assert(valid_vector(before.metric, before.row(i)));
    }
}

/// Reading back a removal: after removing a stored id `id`, the store no longer
/// holds it, holds every other entry as before, one vector less, and stays
/// well-formed.
pub proof fn law_get_after_remove(before: StoreView, id: u64)
    requires
        before.well_formed(),
        before.contents().contains_key(id),
    ensures
        ({
            let r = before.ids.index_of(id);
            let after = StoreView {
                ids: swap_remove_seq(before.ids, r),
                flat: swap_remove_rows(before.flat, before.dims, before.ids.len() as int, r),
                ..before
            };
            &&& after.well_formed()
            &&& after.len() + 1 == before.len()
            &&& after.contents() == before.contents().remove(id)
        }),
{
    let r = before.ids.index_of(id);
    let n = before.ids.len() as int;
    let after = StoreView {
        ids: swap_remove_seq(before.ids, r),
        flat: swap_remove_rows(before.flat, before.dims, n, r),
        ..before
    };
    lemma_contents_swap_remove(before.ids, before.flat, before.dims, r);
    assert forall|i: int| 0 <= i < after.ids.len() implies valid_vector(
        after.metric,
        #[trigger] after.row(i),
    ) by {
        if i == r {
            assert(valid_vector(before.metric, before.row(n - 1)));
        } else {
            assert(valid_vector(before.metric, before.row(i)));
        }
    }
}

/// Removing undoes inserting: removing an id right after inserting it as a new
/// id gives back exactly the store as it was, row order included.
pub proof fn law_remove_undoes_insert(before: StoreView, id: u64, vector: Seq<u32>)
    requires
        before.well_formed(),
        !before.contents().contains_key(id),
        vector.len() == before.dims,
    ensures
        ({
            let after = StoreView { ids: before.ids.push(id), flat: before.flat + vector, ..before };
            let r = after.ids.index_of(id);
            StoreView {
                ids: swap_remove_seq(after.ids, r),
                flat: swap_remove_rows(after.flat, after.dims, after.ids.len() as int, r),
                ..after
            } == before
        }),
{
    let n = before.ids.len() as int;
    let after = StoreView { ids: before.ids.push(id), flat: before.flat + vector, ..before };
    lemma_contents_push(before.ids, before.flat, before.dims, id, vector);
    lemma_index_of_unique(after.ids, n);
    assert(after.ids[n] == id);
    assert(swap_remove_seq(after.ids, n) =~= before.ids);
    assert(swap_remove_rows(after.flat, after.dims, n + 1, n) =~= before.flat);
}

/// Result of an upsert operation.
#[derive(Debug, Clone, Copy, PartialEq, Eq, Structural)]
pub enum UpsertResult {
    /// The id did not exist and a new vector was inserted.
    Inserted,
    /// The id existed and its vector was replaced.
    Replaced,
}

/// In-memory vector store with exact top-k search.
///
/// A store has one fixed dimension and one search metric. All vectors inserted
/// into the store must match that dimension.
#[derive(Debug)]
pub struct Store {
    metric: Metric,
    storage: VectorStorage,
}

impl View for Store {
    type V = StoreView;

    closed spec fn view(&self) -> StoreView {
        StoreView {
            metric: self.metric,
            dims: self.storage.dims(),
            ids: self.storage.id_seq(),
            flat: self.storage.flat(),
        }
    }
}

impl Clone for Store {
    /// An independent copy of the store.
    fn clone(&self) -> (copy: Self)
        ensures
            copy@ == self@,
            self.wf() ==> copy.wf(),
    {
        Self { metric: self.metric, storage: self.storage.clone() }
    }
}

impl Store {
    /// The storage behind the store is consistent with its view.
    pub closed spec fn storage_wf(&self) -> bool {
        self.storage.wf()
    }

    /// Well-formedness of a store.
    pub open spec fn wf(&self) -> bool {
        self.storage_wf() && self@.well_formed()
    }

    /// Creates an empty store with fixed `dimensions` and `metric`.
    pub fn new(dimensions: usize, metric: Metric) -> (result: Result<Self, Error>)
        ensures
            match result {
                Ok(store) => {
                    &&& dimensions > 0
                    &&& store.wf()
                    &&& store@ == StoreView {
                        metric,
                        dims: dimensions as nat,
                        ids: Seq::empty(),
                        flat: Seq::empty(),
                    }
                },
                Err(e) => dimensions == 0 && e is ZeroDimensions,
            },
    {
        let storage = match VectorStorage::new(dimensions) {
            Ok(storage) => storage,
            Err(e) => {
                return Err(e);
            },
        };
        Ok(Self { metric, storage })
    }

    /// Rebuilds a store from ids and row-major values that were already checked
    /// against the metric.
    pub(crate) fn from_parts(
        dimensions: usize,
        metric: Metric,
        ids: Vec<VectorId>,
        vectors: Vec<u32>,
    ) -> (result: Result<Self, Error>)
        requires
            ids@.len() * dimensions == vectors@.len() ==> forall|i: int|
                0 <= i < ids@.len() ==> valid_vector(metric, #[trigger] row_of(vectors@, dimensions as nat, i)),
        ensures
            match result {
                Ok(store) => {
                    &&& dimensions > 0
                    &&& ids@.len() * dimensions == vectors@.len()
                    &&& raw_ids(ids@).no_duplicates()
                    &&& store.wf()
                    &&& store@ == StoreView {
                        metric,
                        dims: dimensions as nat,
                        ids: raw_ids(ids@),
                        flat: vectors@,
                    }
                },
                Err(e) => if dimensions == 0 {
                    e is ZeroDimensions
                } else if ids@.len() * dimensions != vectors@.len() {
                    e == Error::CorruptedFile("vector payload length does not match header")
                } else {
                    &&& !raw_ids(ids@).no_duplicates()
                    &&& e == Error::CorruptedFile("duplicate vector id")
                },
            },
    {
        let storage = match VectorStorage::from_parts(dimensions, ids, vectors) {
            Ok(storage) => storage,
            Err(e) => {
                return Err(e);
            },
        };
        Ok(Self { metric, storage })
    }

    /// Checks that a vector or query has the store's dimension and is valid under
    /// its metric.
    pub fn validate_input(&self, vector: &[u32]) -> (result: Result<(), Error>)
        requires
            self.wf(),
        ensures
            match result {
                Ok(()) => vector@.len() == self@.dims && valid_vector(self@.metric, vector@),
                Err(e) => if vector@.len() != self@.dims {
                    e == Error::DimensionMismatch { expected: self@.dims as usize, actual: vector@.len() as usize }
                } else {
                    !valid_vector(self@.metric, vector@) && e == vector_error(self@.metric, vector@)
                },
            },
    {
        if vector.len() != self.dimensions() {
            return Err(Error::DimensionMismatch { expected: self.dimensions(), actual: vector.len() });
        }
        validate_vector(self.metric, vector)
    }

    /// Inserts a new vector.
    ///
    /// Duplicate ids are rejected. Use [`Store::upsert`] to insert or replace.
    pub fn insert(&mut self, id: VectorId, vector: &[u32]) -> (result: Result<(), Error>)
        requires
            old(self).wf(),
        ensures
            final(self).wf(),
            match result {
                Ok(()) => {
                    &&& vector@.len() == old(self)@.dims
                    &&& valid_vector(old(self)@.metric, vector@)
                    &&& !old(self)@.contents().contains_key(id@)
                    &&& final(self)@ == StoreView {
                        ids: old(self)@.ids.push(id@),
                        flat: old(self)@.flat + vector@,
                        ..old(self)@
                    }
                    &&& final(self)@.contents() == old(self)@.contents().insert(id@, vector@)
                },
                Err(e) => {
                    &&& final(self)@ == old(self)@
                    &&& if vector@.len() != old(self)@.dims {
                        e == Error::DimensionMismatch {
                            expected: old(self)@.dims as usize,
                            actual: vector@.len() as usize,
                        }
                    } else if !valid_vector(old(self)@.metric, vector@) {
                        e == vector_error(old(self)@.metric, vector@)
                    } else {
                        &&& old(self)@.contents().contains_key(id@)
                        &&& e == Error::DuplicateId(id)
                    }
                },
            },
    {
        match self.validate_input(vector) {
            Ok(()) => {},
            Err(e) => {
                return Err(e);
            },
        }
        let ghost before = self@;
        let result = self.storage.insert(id, vector);
        proof {
            if result is Ok {
                assert forall|i: int| 0 <= i < self@.ids.len() implies valid_vector(
                    self@.metric,
                    #[trigger] self@.row(i),
                ) by {
                    lemma_row_of_push(before.flat, before.dims, before.ids.len() as int, vector@, i);
                    if i < before.ids.len() {
                        assert(valid_vector(before.metric, before.row(i)));
                    }
                }
            }
        }
        result
    }

    /// Inserts a new vector or replaces an existing vector with the same id.
    pub fn upsert(&mut self, id: VectorId, vector: &[u32]) -> (result: Result<UpsertResult, Error>)
        requires
            old(self).wf(),
        ensures
            final(self).wf(),
            match result {
                Ok(outcome) => {
                    &&& vector@.len() == old(self)@.dims
                    &&& valid_vector(old(self)@.metric, vector@)
                    &&& (outcome == UpsertResult::Replaced) == old(self)@.contents().contains_key(id@)
                    &&& final(self)@.contents() == old(self)@.contents().insert(id@, vector@)
                    &&& final(self)@ == if outcome == UpsertResult::Replaced {
                        StoreView {
                            flat: write_row(
                                old(self)@.flat,
                                old(self)@.dims,
                                old(self)@.ids.index_of(id@),
                                vector@,
                            ),
                            ..old(self)@
                        }
                    } else {
                        StoreView {
                            ids: old(self)@.ids.push(id@),
                            flat: old(self)@.flat + vector@,
                            ..old(self)@
                        }
                    }
                },
                Err(e) => {
                    &&& final(self)@ == old(self)@
                    &&& if vector@.len() != old(self)@.dims {
                        e == Error::DimensionMismatch {
                            expected: old(self)@.dims as usize,
                            actual: vector@.len() as usize,
                        }
                    } else {
                        !valid_vector(old(self)@.metric, vector@) && e == vector_error(
                            old(self)@.metric,
                            vector@,
                        )
                    }
                },
            },
    {
        match self.validate_input(vector) {
            Ok(()) => {},
            Err(e) => {
                return Err(e);
            },
        }
        let ghost before = self@;
        let replaced = self.storage.upsert(id, vector);
        proof {
            let n = before.ids.len() as int;
            assert forall|i: int| 0 <= i < self@.ids.len() implies valid_vector(
                self@.metric,
                #[trigger] self@.row(i),
            ) by {
                if replaced {
                    let r = before.ids.index_of(id@);
                    lemma_row_of_write_row(before.flat, before.dims, n, r, vector@, i);
                    assert(valid_vector(before.metric, before.row(i)));
                } else {
                    lemma_row_of_push(before.flat, before.dims, n, vector@, i);
                    if i < n {
                        assert(valid_vector(before.metric, before.row(i)));
                    }
                }
            }
        }
        if replaced {
            Ok(UpsertResult::Replaced)
        } else {
            Ok(UpsertResult::Inserted)
        }
    }

    /// Removes a vector and returns it if the id existed.
    ///
    /// The last row moves into the freed row.
    pub fn remove(&mut self, id: VectorId) -> (removed: Option<Vec<u32>>)
        requires
            old(self).wf(),
        ensures
            final(self).wf(),
            final(self)@.contents() == old(self)@.contents().remove(id@),
            match removed {
                None => {
                    &&& !old(self)@.contents().contains_key(id@)
                    &&& final(self)@ == old(self)@
                },
                Some(values) => {
                    &&& old(self)@.contents().contains_key(id@)
                    &&& values@ == old(self)@.contents()[id@]
                    &&& final(self)@ == StoreView {
                        ids: swap_remove_seq(old(self)@.ids, old(self)@.ids.index_of(id@)),
                        flat: swap_remove_rows(
                            old(self)@.flat,
                            old(self)@.dims,
                            old(self)@.ids.len() as int,
                            old(self)@.ids.index_of(id@),
                        ),
                        ..old(self)@
                    }
                },
            },
    {
        let ghost before = self@;
        let removed = self.storage.remove(id);
        proof {
            if removed is Some {
                let r = before.ids.index_of(id@);
                lemma_contents_swap_remove(before.ids, before.flat, before.dims, r);
                assert forall|i: int| 0 <= i < self@.ids.len() implies valid_vector(
                    self@.metric,
                    #[trigger] self@.row(i),
                ) by {
                    if i == r {
                        assert(valid_vector(before.metric, before.row(before.ids.len() - 1)));
                    } else {
                        assert(valid_vector(before.metric, before.row(i)));
                    }
                }
            }
        }
        removed
    }

    /// Returns the vector for `id` without copying it.
    pub fn get(&self, id: VectorId) -> (result: Option<&[u32]>)
        requires
            self.wf(),
        ensures
            match result {
                Some(values) => {
                    &&& self@.contents().contains_key(id@)
                    &&& values@ == self@.contents()[id@]
                },
                None => !self@.contents().contains_key(id@),
            },
    {
        self.storage.get(id)
    }

    /// Returns true if `id` exists in the store.
    pub fn contains(&self, id: VectorId) -> (found: bool)
        requires
            self.wf(),
        ensures
            found == self@.contents().contains_key(id@),
    {
        self.storage.contains(id)
    }

    /// Searches the store and returns up to `k` best matches, best first.
    ///
    /// `scores[i]` is the metric score of `query` against row `i` of the store.
    pub fn search(&self, query: &[u32], scores: &[u32], k: usize) -> (result: Result<
        Vec<SearchHit>,
        Error,
    >)
        requires
            self.wf(),
            scores@.len() == self@.len(),
        ensures
            match result {
                Ok(hits) => {
                    &&& query@.len() == self@.dims
                    &&& valid_vector(self@.metric, query@)
                    &&& is_top_k(self@.metric, candidates(self@.ids, scores@), k as nat, hits@)
                },
                Err(e) => if query@.len() != self@.dims {
                    e == Error::DimensionMismatch { expected: self@.dims as usize, actual: query@.len() as usize }
                } else {
                    !valid_vector(self@.metric, query@) && e == vector_error(self@.metric, query@)
                },
            },
    {
        search_storage(&self.storage, self.metric, query, scores, k)
    }

    /// Creates an owned immutable snapshot that can be searched independently.
    pub fn snapshot(&self) -> (snapshot: SearchSnapshot)
        requires
            self.wf(),
        ensures
            snapshot@ == self@,
            snapshot@.well_formed(),
    {
        SearchSnapshot::new(&self.storage, self.metric)
    }

    /// Returns the fixed vector dimension.
    pub fn dimensions(&self) -> (d: usize)
        ensures
            d == self@.dims,
    {
        self.storage.dimensions()
    }

    /// Returns the metric used by this store.
    pub fn metric(&self) -> (metric: Metric)
        ensures
            metric == self@.metric,
    {
        self.metric
    }

    /// Returns the number of stored vectors.
    pub fn len(&self) -> (n: usize)
        ensures
            n == self@.len(),
    {
        self.storage.len()
    }

    /// Returns true when the store contains no vectors.
    pub fn is_empty(&self) -> (empty: bool)
        ensures
            empty == (self@.len() == 0),
    {
        self.storage.is_empty()
    }

    /// The stored ids in row order.
    pub fn ids(&self) -> (ids: &[VectorId])
        ensures
            raw_ids(ids@) == self@.ids,
    {
        self.storage.ids()
    }

    /// All stored values, row after row.
    pub fn vectors(&self) -> (values: &[u32])
        ensures
            values@ == self@.flat,
    {
        self.storage.vectors()
    }
}

} // verus!
