use crate::error::Error;
use crate::text::{decimal, decimal_string};
use std::collections::HashMap;
use vstd::prelude::*;

verus! {

/// Caller-supplied identifier for a stored vector.
#[derive(Debug, Clone, Copy, PartialEq, Eq, Structural, PartialOrd, Ord, Hash)]
pub struct VectorId(u64);

impl View for VectorId {
    type V = u64;

    /// The raw id value.
    closed spec fn view(&self) -> u64 {
        self.0
    }
}

/// Two ids are the same id exactly when their raw values agree.
pub proof fn lemma_vector_id_view_injective(a: VectorId, b: VectorId)
    ensures
        a@ == b@ <==> a == b,
{
}

/// The id with raw value `raw`.
pub closed spec fn id_from_raw(raw: u64) -> VectorId {
    VectorId(raw)
}

/// An id built from a raw value has that raw value.
pub broadcast proof fn lemma_id_from_raw_view(raw: u64)
    ensures
        #[trigger] id_from_raw(raw)@ == raw,
{
}

/// An id is rebuilt from its raw value.
pub broadcast proof fn lemma_id_from_raw_of_view(id: VectorId)
    ensures
        #[trigger] id_from_raw(id@) == id,
{
}

/// Moving between ids and their raw values.
pub broadcast group group_vector_id {
    lemma_id_from_raw_view,
    lemma_id_from_raw_of_view,
}

impl From<u64> for VectorId {
    fn from(value: u64) -> (id: Self) {
        Self::new(value)
    }
}

impl vstd::std_specs::convert::FromSpecImpl<u64> for VectorId {
    open spec fn obeys_from_spec() -> bool {
        true
    }

    open spec fn from_spec(value: u64) -> Self {
        id_from_raw(value)
    }
}

impl VectorId {
    /// Creates a new vector id from a raw `u64`.
    pub fn new(value: u64) -> (id: Self)
        ensures
            id@ == value,
    {
        Self(value)
    }

    /// Returns the raw id value.
    pub fn get(self) -> (value: u64)
        ensures
            value == self@,
    {
        self.0
    }

    /// The raw id value in decimal.
    pub fn to_string(&self) -> (text: String)
        ensures
            text@ == decimal(self@ as nat),
    {
        decimal_string(self.0)
    }
}

/// The raw values of a sequence of ids.
pub open spec fn raw_ids(ids: Seq<VectorId>) -> Seq<u64> {
    ids.map_values(|id: VectorId| id@)
}

/// Row `i` of a row-major flat buffer whose rows hold `dims` values each.
pub open spec fn row_of(flat: Seq<u32>, dims: nat, i: int) -> Seq<u32> {
    flat.subrange(i * dims, i * dims + dims)
}

/// The id-to-vector map described by parallel rows: id `ids[i]` owns row `i`.
pub open spec fn contents_of(ids: Seq<u64>, flat: Seq<u32>, dims: nat) -> Map<u64, Seq<u32>> {
    Map::new(|k: u64| ids.contains(k), |k: u64| row_of(flat, dims, ids.index_of(k)))
}

/// In a sequence without duplicates, the position of an element is the index it sits at.
pub proof fn lemma_index_of_unique(s: Seq<u64>, i: int)
    requires
        s.no_duplicates(),
        0 <= i < s.len(),
    ensures
        s.contains(s[i]),
        s.index_of(s[i]) == i,
{
    assert(s.contains(s[i]));
    let j = s.index_of(s[i]);
    assert(0 <= j < s.len() && s[j] == s[i]);
}

/// Row `i` of `n` rows of width `d` lies inside the buffer of `n * d` values.
pub proof fn lemma_row_in_bounds(i: int, n: int, d: int)
    requires
        0 <= i < n,
        0 < d,
    ensures
        0 <= i * d,
        i * d + d <= n * d,
        (i + 1) * d == i * d + d,
{
    assert(0 <= i * d) by (nonlinear_arith)
        requires
            0 <= i,
            0 < d,
    ;
    assert(i * d + d <= n * d) by (nonlinear_arith)
        requires
            i < n,
            0 < d,
    ;
    assert((i + 1) * d == i * d + d) by (nonlinear_arith);
}

/// Two buffers of `n` rows agree when every row agrees.
pub proof fn lemma_flat_from_rows(f1: Seq<u32>, f2: Seq<u32>, dims: nat, n: int)
    requires
        dims > 0,
        n >= 0,
        f1.len() == n * dims,
        f2.len() == n * dims,
        forall|i: int| 0 <= i < n ==> #[trigger] row_of(f1, dims, i) == row_of(f2, dims, i),
    ensures
        f1 == f2,
{
    let d = dims as int;
    assert forall|p: int| 0 <= p < f1.len() implies f1[p] == f2[p] by {
        vstd::arithmetic::div_mod::lemma_fundamental_div_mod(p, d);
        vstd::arithmetic::div_mod::lemma_mod_bound(p, d);
        let i = p / d;
        let j = p % d;
        assert(p == d * i + j);
        assert(0 <= i < n) by (nonlinear_arith)
            requires
                p == d * i + j,
                0 <= j < d,
                0 <= p < n * d,
        ;
        lemma_row_in_bounds(i, n, d);
        assert(i * d == d * i) by (nonlinear_arith);
        assert(row_of(f1, dims, i)[j] == f1[p]);
        assert(row_of(f2, dims, i)[j] == f2[p]);
    }
    assert(f1 =~= f2);
}

/// A flat buffer with the values of row `r` replaced by `v`.
pub open spec fn write_row(flat: Seq<u32>, dims: nat, r: int, v: Seq<u32>) -> Seq<u32> {
    flat.subrange(0, r * dims) + v + flat.subrange(r * dims + dims, flat.len() as int)
}

/// The value stored for an id is the row it occupies.
pub proof fn lemma_contents_at(ids: Seq<u64>, flat: Seq<u32>, dims: nat, i: int)
    requires
        ids.no_duplicates(),
        0 <= i < ids.len(),
    ensures
        contents_of(ids, flat, dims).contains_key(ids[i]),
        contents_of(ids, flat, dims)[ids[i]] == row_of(flat, dims, i),
{
    lemma_index_of_unique(ids, i);
}

/// Where the vectors sit: row `i` is the `dims` values from `i * dims` on, and
/// the vector stored for `ids[i]` is that row; an id is stored exactly when it
/// occurs among the ids.
pub proof fn law_row_layout(ids: Seq<u64>, flat: Seq<u32>, dims: nat, i: int, j: int)
    requires
        ids.no_duplicates(),
        dims > 0,
        flat.len() == ids.len() * dims,
        0 <= i < ids.len(),
        0 <= j < dims,
    ensures
        row_of(flat, dims, i).len() == dims,
        row_of(flat, dims, i)[j] == flat[i * dims + j],
        contents_of(ids, flat, dims).contains_key(ids[i]),
        contents_of(ids, flat, dims)[ids[i]] == flat.subrange(i * dims, i * dims + dims),
        forall|k: u64| #[trigger] contents_of(ids, flat, dims).contains_key(k) <==> ids.contains(k),
{
    lemma_row_in_bounds(i, ids.len() as int, dims as int);
    lemma_contents_at(ids, flat, dims, i);
}

/// Rewriting one row leaves every other row as it was.
pub proof fn lemma_row_of_write_row(flat: Seq<u32>, dims: nat, n: int, r: int, v: Seq<u32>, i: int)
    requires
        flat.len() == n * dims,
        dims > 0,
        0 <= r < n,
        0 <= i < n,
        v.len() == dims,
    ensures
        write_row(flat, dims, r, v).len() == flat.len(),
        row_of(write_row(flat, dims, r, v), dims, i) == if i == r {
            v
        } else {
            row_of(flat, dims, i)
        },
{
    let d = dims as int;
    lemma_row_in_bounds(r, n, d);
    lemma_row_in_bounds(i, n, d);
    let w = write_row(flat, dims, r, v);
    assert(w.len() == flat.len());
    if i < r {
        lemma_row_in_bounds(i, r, d);
        assert(row_of(w, dims, i) =~= row_of(flat, dims, i));
    } else if i > r {
        lemma_row_in_bounds(r, i, d);
        assert(row_of(w, dims, i) =~= row_of(flat, dims, i));
    } else {
        assert(row_of(w, dims, i) =~= v);
    }
}

/// Rows before the cut survive truncating the buffer.
pub proof fn lemma_row_of_take(flat: Seq<u32>, dims: nat, m: int, i: int)
    requires
        flat.len() >= m * dims,
        dims > 0,
        0 <= i < m,
    ensures
        row_of(flat.take(m * dims), dims, i) == row_of(flat, dims, i),
{
    lemma_row_in_bounds(i, m, dims as int);
    assert(row_of(flat.take(m * dims), dims, i) =~= row_of(flat, dims, i));
}

/// A sequence with entry `r` replaced by the last entry, and the last entry dropped.
pub open spec fn swap_remove_seq<A>(s: Seq<A>, r: int) -> Seq<A> {
    s.update(r, s.last()).drop_last()
}

/// The flat buffer of `n` rows after the same swap-removal of row `r`.
pub open spec fn swap_remove_rows(flat: Seq<u32>, dims: nat, n: int, r: int) -> Seq<u32> {
    if r == n - 1 {
        flat.take((n - 1) * dims)
    } else {
        write_row(flat, dims, r, row_of(flat, dims, n - 1)).take((n - 1) * dims)
    }
}

/// Swap-removing the row of an id removes exactly that id from the contents.
pub proof fn lemma_contents_swap_remove(ids: Seq<u64>, flat: Seq<u32>, dims: nat, r: int)
    requires
        ids.no_duplicates(),
        flat.len() == ids.len() * dims,
        dims > 0,
        0 <= r < ids.len(),
    ensures
        swap_remove_seq(ids, r).no_duplicates(),
        swap_remove_rows(flat, dims, ids.len() as int, r).len() == swap_remove_seq(ids, r).len()
            * dims,
        forall|i: int|
            0 <= i < ids.len() - 1 ==> #[trigger] row_of(
                swap_remove_rows(flat, dims, ids.len() as int, r),
                dims,
                i,
            ) == if i == r {
                row_of(flat, dims, ids.len() - 1)
            } else {
                row_of(flat, dims, i)
            },
        contents_of(swap_remove_seq(ids, r), swap_remove_rows(flat, dims, ids.len() as int, r), dims)
            == contents_of(ids, flat, dims).remove(ids[r]),
{
    let n = ids.len() as int;
    let m = n - 1;
    let d = dims as int;
    let ids2 = swap_remove_seq(ids, r);
    let flat2 = swap_remove_rows(flat, dims, n, r);
    let last_row = row_of(flat, dims, m);
    lemma_row_in_bounds(m, n, d);
    assert(0 <= m * d);
    assert(flat2.len() == m * d) by {
        if r != m {
            lemma_row_of_write_row(flat, dims, n, r, last_row, r);
        }
    }
    assert(ids2.len() == m);
    // Every surviving row is an old row: row `r` now holds the old last row.
    assert forall|i: int| 0 <= i < m implies #[trigger] row_of(flat2, dims, i) == if i == r {
        last_row
    } else {
        row_of(flat, dims, i)
    } by {
        if r == m {
            lemma_row_of_take(flat, dims, m, i);
        } else {
            lemma_row_of_write_row(flat, dims, n, r, last_row, i);
            lemma_row_of_take(write_row(flat, dims, r, last_row), dims, m, i);
        }
    }
    assert forall|i: int| 0 <= i < m implies #[trigger] ids2[i] == if i == r {
        ids[m]
    } else {
        ids[i]
    } by {}
    assert(ids2.no_duplicates()) by {
        assert forall|a: int, b: int| 0 <= a < m && 0 <= b < m && a != b implies ids2[a]
            != ids2[b] by {
            assert(ids2[a] == (if a == r { ids[m] } else { ids[a] }));
            assert(ids2[b] == (if b == r { ids[m] } else { ids[b] }));
        }
    }
    let c1 = contents_of(ids2, flat2, dims);
    let c0 = contents_of(ids, flat, dims).remove(ids[r]);
    assert forall|k: u64| c1.contains_key(k) <==> c0.contains_key(k) by {
        if ids2.contains(k) {
            let i = ids2.index_of(k);
            if i == r {
                assert(ids[m] == k);
                assert(ids.contains(k));
            } else {
                assert(ids[i] == k);
                assert(ids.contains(k));
            }
        }
        if ids.contains(k) && k != ids[r] {
            let j = ids.index_of(k);
            if j == m {
                assert(ids2[r] == k);
            } else {
                assert(ids2[j] == k);
            }
        }
    }
    assert forall|k: u64| #[trigger] c1.contains_key(k) implies c1[k] == c0[k] by {
        let i = ids2.index_of(k);
        lemma_contents_at(ids2, flat2, dims, i);
        if i == r {
            lemma_contents_at(ids, flat, dims, m);
        } else {
            lemma_contents_at(ids, flat, dims, i);
        }
    }
    assert(c1 =~= c0);
}

/// Rewriting the row of one id changes that id's entry and nothing else.
pub proof fn lemma_contents_write_row(ids: Seq<u64>, flat: Seq<u32>, dims: nat, r: int, v: Seq<u32>)
    requires
        ids.no_duplicates(),
        flat.len() == ids.len() * dims,
        dims > 0,
        0 <= r < ids.len(),
        v.len() == dims,
    ensures
        write_row(flat, dims, r, v).len() == flat.len(),
        contents_of(ids, write_row(flat, dims, r, v), dims) == contents_of(ids, flat, dims).insert(
            ids[r],
            v,
        ),
{
    let n = ids.len() as int;
    let w = write_row(flat, dims, r, v);
    lemma_row_of_write_row(flat, dims, n, r, v, r);
    let c1 = contents_of(ids, w, dims);
    let c0 = contents_of(ids, flat, dims).insert(ids[r], v);
    lemma_index_of_unique(ids, r);
    assert forall|k: u64| #[trigger] c1.contains_key(k) implies c1[k] == c0[k] by {
        let j = ids.index_of(k);
        lemma_contents_at(ids, w, dims, j);
        lemma_contents_at(ids, flat, dims, j);
        lemma_row_of_write_row(flat, dims, n, r, v, j);
    }
    assert(c1 =~= c0);
}

/// Appending a row keeps the earlier rows and adds the new one last.
pub proof fn lemma_row_of_push(flat: Seq<u32>, dims: nat, n: int, v: Seq<u32>, i: int)
    requires
        flat.len() == n * dims,
        dims > 0,
        v.len() == dims,
        0 <= i <= n,
    ensures
        row_of(flat + v, dims, i) == if i == n {
            v
        } else {
            row_of(flat, dims, i)
        },
{
    lemma_row_in_bounds(i, n + 1, dims as int);
    assert((n + 1) * dims == n * dims + dims) by (nonlinear_arith);
    if i < n {
        lemma_row_in_bounds(i, n, dims as int);
        assert(row_of(flat + v, dims, i) =~= row_of(flat, dims, i));
    } else {
        assert(row_of(flat + v, dims, i) =~= v);
    }
}

/// Appending a row appends an entry to the contents.
pub proof fn lemma_contents_push(ids: Seq<u64>, flat: Seq<u32>, dims: nat, id: u64, v: Seq<u32>)
    requires
        ids.no_duplicates(),
        !ids.contains(id),
        flat.len() == ids.len() * dims,
        dims > 0,
        v.len() == dims,
    ensures
        ids.push(id).no_duplicates(),
        (flat + v).len() == ids.push(id).len() * dims,
        contents_of(ids.push(id), flat + v, dims) == contents_of(ids, flat, dims).insert(id, v),
{
    let n = ids.len() as int;
    let ids2 = ids.push(id);
    let flat2 = flat + v;
    assert((n + 1) * dims == n * dims + dims) by (nonlinear_arith);
    assert(ids2.no_duplicates()) by {
        assert forall|a: int, b: int| 0 <= a < ids2.len() && 0 <= b < ids2.len() && a != b implies ids2[a]
            != ids2[b] by {
            if a == n {
                assert(ids.contains(ids[b]));
            } else if b == n {
                assert(ids.contains(ids[a]));
            }
        }
    }
    let c1 = contents_of(ids2, flat2, dims);
    let c0 = contents_of(ids, flat, dims).insert(id, v);
    assert forall|k: u64| c1.contains_key(k) <==> c0.contains_key(k) by {
        if ids2.contains(k) {
            let j = ids2.index_of(k);
            if j < n {
                assert(ids[j] == k);
            }
        }
        if ids.contains(k) {
            let j = ids.index_of(k);
            assert(ids2[j] == k);
        }
        assert(ids2[n] == id);
    }
    assert forall|k: u64| #[trigger] c1.contains_key(k) implies c1[k] == c0[k] by {
        let j = ids2.index_of(k);
        lemma_contents_at(ids2, flat2, dims, j);
        if j == n {
            lemma_row_in_bounds(n, n + 1, dims as int);
            assert(row_of(flat2, dims, n) =~= v);
        } else {
            lemma_contents_at(ids, flat, dims, j);
            lemma_row_in_bounds(j, n, dims as int);
            assert(row_of(flat2, dims, j) =~= row_of(flat, dims, j));
        }
    }
    assert(c1 =~= c0);
}

/// Where an id that is among the first `row` entries of `raw` sits.
proof fn old_rows_index(raw: Seq<u64>, row: int, id: u64) -> (j: int)
    requires
        0 <= row <= raw.len(),
        raw.take(row).contains(id),
    ensures
        0 <= j < row,
        raw[j] == id,
{
    let j = raw.take(row).index_of(id);
    assert(raw.take(row)[j] == raw[j]);
    j
}

/// Fixed-dimension vectors stored row-major in one contiguous buffer, with an
/// index from id to row.
///
/// Components are kept as IEEE-754 single-precision bit patterns.
#[derive(Debug)]
pub struct VectorStorage {
    dimensions: usize,
    ids: Vec<VectorId>,
    vectors: Vec<u32>,
    rows_by_id: HashMap<u64, usize>,
}

impl Clone for VectorStorage {
    /// An independent copy with the same ids, values and index.
    fn clone(&self) -> (copy: Self)
        ensures
            copy.dims() == self.dims(),
            copy.id_seq() == self.id_seq(),
            copy.flat() == self.flat(),
            self.wf() ==> copy.wf(),
    {
        Self {
            dimensions: self.dimensions,
            ids: vstd::slice::slice_to_vec(self.ids.as_slice()),
            vectors: vstd::slice::slice_to_vec(self.vectors.as_slice()),
            rows_by_id: self.rows_by_id.clone(),
        }
    }
}

impl VectorStorage {
    /// The fixed number of values per vector.
    pub closed spec fn dims(&self) -> nat {
        self.dimensions as nat
    }

    /// The stored ids, in row order.
    pub closed spec fn id_seq(&self) -> Seq<u64> {
        raw_ids(self.ids@)
    }

    /// All stored values, row after row.
    pub closed spec fn flat(&self) -> Seq<u32> {
        self.vectors@
    }

    /// The values of row `i`.
    pub open spec fn row(&self, i: int) -> Seq<u32> {
        row_of(self.flat(), self.dims(), i)
    }

    /// Each stored id mapped to its vector.
    pub open spec fn contents(&self) -> Map<u64, Seq<u32>> {
        contents_of(self.id_seq(), self.flat(), self.dims())
    }

    /// The row index agrees with the id rows.
    pub closed spec fn index_wf(&self) -> bool {
        &&& forall|k: u64| #[trigger]
            self.rows_by_id@.contains_key(k) <==> self.id_seq().contains(k)
        &&& forall|k: u64| #[trigger]
            self.rows_by_id@.contains_key(k) ==> {
                &&& self.rows_by_id@[k] < self.id_seq().len()
                &&& self.id_seq()[self.rows_by_id@[k] as int] == k
            }
    }

    /// Well-formedness: a positive dimension, a buffer of exactly one row per
    /// id, distinct ids, and an index that finds each id's row.
    pub open spec fn wf(&self) -> bool {
        &&& self.dims() > 0
        &&& self.flat().len() == self.id_seq().len() * self.dims()
        &&& self.id_seq().no_duplicates()
        &&& self.index_wf()
    }

    /// Creates empty storage for vectors of `dimensions` values.
    pub fn new(dimensions: usize) -> (result: Result<Self, Error>)
        ensures
            match result {
                Ok(s) => {
                    &&& dimensions > 0
                    &&& s.wf()
                    &&& s.dims() == dimensions
                    &&& s.id_seq() == Seq::<u64>::empty()
                    &&& s.flat() == Seq::<u32>::empty()
                },
                Err(e) => dimensions == 0 && e is ZeroDimensions,
            },
    {
        if dimensions == 0 {
            return Err(Error::ZeroDimensions);
        }
        let s = Self {
            dimensions,
            ids: Vec::new(),
            vectors: Vec::new(),
            rows_by_id: HashMap::new(),
        };
        proof {
            broadcast use vstd::std_specs::hash::group_hash_axioms;
            assert(s.id_seq() =~= Seq::<u64>::empty());
        }
        Ok(s)
    }

    /// Rebuilds storage from ids and their row-major values.
    ///
    /// Fails when the dimension is zero, when the buffer does not hold exactly
    /// one row per id, or when an id occurs twice.
    pub fn from_parts(dimensions: usize, ids: Vec<VectorId>, vectors: Vec<u32>) -> (result: Result<
        Self,
        Error,
    >)
        ensures
            match result {
                Ok(s) => {
                    &&& dimensions > 0
                    &&& ids@.len() * dimensions == vectors@.len()
                    &&& raw_ids(ids@).no_duplicates()
                    &&& s.wf()
                    &&& s.dims() == dimensions
                    &&& s.id_seq() == raw_ids(ids@)
                    &&& s.flat() == vectors@
                },
                Err(e) => if dimensions == 0 {
                    e is ZeroDimensions
                } else if ids@.len() * dimensions != vectors@.len() {
                    e == Error::CorruptedFile("vector payload length does not match header")
                } else {
                    &&& !raw_ids(ids@).no_duplicates()
                    &&& e == Error::CorruptedFile("duplicate vector id")
                },
            },
    {
        if dimensions == 0 {
            return Err(Error::ZeroDimensions);
        }
        let n = ids.len();
        let values = vectors.len();
        match n.checked_mul(dimensions) {
            Some(total) => {
                if total != values {
                    return Err(Error::CorruptedFile("vector payload length does not match header"));
                }
            },
            None => {
                return Err(Error::CorruptedFile("vector payload length does not match header"));
            },
        }
        let ghost raw = raw_ids(ids@);
        let mut rows_by_id: HashMap<u64, usize> = HashMap::with_capacity(n);
        let mut row: usize = 0;
        while row < n
            invariant
                n == ids@.len(),
                raw == raw_ids(ids@),
                dimensions > 0,
                n * dimensions == vectors@.len(),
                0 <= row <= n,
                raw.take(row as int).no_duplicates(),
                forall|k: u64| #[trigger]
                    rows_by_id@.contains_key(k) <==> raw.take(row as int).contains(k),
                forall|k: u64| #[trigger]
                    rows_by_id@.contains_key(k) ==> {
                        &&& rows_by_id@[k] < row
                        &&& raw[rows_by_id@[k] as int] == k
                    },
            decreases n - row,
        {
            broadcast use vstd::std_specs::hash::group_hash_axioms;

            let id = ids[row].get();
            assert(raw[row as int] == id);
            let previous = rows_by_id.insert(id, row);
            if previous.is_some() {
                proof {
                    let j0 = old_rows_index(raw, row as int, id);
                    assert(raw[j0] == raw[row as int]);
                    assert(!raw.no_duplicates());
                }
                return Err(Error::CorruptedFile("duplicate vector id"));
            }
            proof {
                assert(raw.take(row + 1) =~= raw.take(row as int).push(id));
                assert forall|k: u64| #[trigger]
                    rows_by_id@.contains_key(k) <==> raw.take(row + 1).contains(k) by {
                    assert(raw.take(row + 1)[row as int] == id);
                    if raw.take(row as int).contains(k) {
                        let j = raw.take(row as int).index_of(k);
                        assert(raw.take(row + 1)[j] == k);
                    }
                    if raw.take(row + 1).contains(k) {
                        let j = raw.take(row + 1).index_of(k);
                        if j < row {
                            assert(raw.take(row as int)[j] == k);
                        }
                    }
                }
            }
            row = row + 1;
        }
        proof {
            assert(raw.take(n as int) =~= raw);
        }
        let s = Self { dimensions, ids, vectors, rows_by_id };
        Ok(s)
    }

    /// Appends a row for an id that is not stored yet.
    fn append_row(&mut self, id: VectorId, vector: &[u32])
        requires
            old(self).wf(),
            vector@.len() == old(self).dims(),
            !old(self).contents().contains_key(id@),
        ensures
            final(self).wf(),
            final(self).dims() == old(self).dims(),
            final(self).id_seq() == old(self).id_seq().push(id@),
            final(self).flat() == old(self).flat() + vector@,
            final(self).contents() == old(self).contents().insert(id@, vector@),
    {
        broadcast use vstd::std_specs::hash::group_hash_axioms;

        let ghost old_ids = self.id_seq();
        let ghost old_flat = self.flat();
        let row = self.ids.len();
        self.ids.push(id);
        let ghost pushed = *self;
        let mut j: usize = 0;
        while j < vector.len()
            invariant
                self.vectors@ == old_flat + vector@.take(j as int),
                self.ids == pushed.ids,
                self.dimensions == pushed.dimensions,
                self.rows_by_id == pushed.rows_by_id,
                0 <= j <= vector@.len(),
            decreases vector@.len() - j,
        {
            self.vectors.push(vector[j]);
            proof {
                assert(old_flat + vector@.take(j + 1) =~= (old_flat + vector@.take(j as int)).push(
                    vector@[j as int],
                ));
            }
            j = j + 1;
        }
        proof {
            assert(vector@.take(vector@.len() as int) =~= vector@);
        }
        self.rows_by_id.insert(id.get(), row);
        proof {
            assert(self.id_seq() =~= old_ids.push(id@));
            lemma_contents_push(old_ids, old_flat, self.dims(), id@, vector@);
            assert forall|k: u64| #[trigger]
                self.rows_by_id@.contains_key(k) <==> self.id_seq().contains(k) by {
                assert(self.id_seq()[row as int] == id@);
                if old_ids.contains(k) {
                    let i = old_ids.index_of(k);
                    assert(self.id_seq()[i] == k);
                }
                if self.id_seq().contains(k) {
                    let i = self.id_seq().index_of(k);
                    if i < row {
                        assert(old_ids[i] == k);
                    }
                }
            }
        }
    }

    /// Replaces the values of row `row`.
    fn overwrite_row(&mut self, row: usize, vector: &[u32])
        requires
            old(self).wf(),
            row < old(self).id_seq().len(),
            vector@.len() == old(self).dims(),
        ensures
            final(self).wf(),
            final(self).dims() == old(self).dims(),
            final(self).id_seq() == old(self).id_seq(),
            final(self).ids == old(self).ids,
            final(self).rows_by_id == old(self).rows_by_id,
            final(self).flat() == write_row(old(self).flat(), old(self).dims(), row as int, vector@),
            final(self).contents() == old(self).contents().insert(
                old(self).id_seq()[row as int],
                vector@,
            ),
    {
        let range = self.row_range(row);
        let start = range.start;
        let ghost old_flat = self.flat();
        let ghost before = *self;
        let mut j: usize = 0;
        while j < vector.len()
            invariant
                self.ids == before.ids,
                self.dimensions == before.dimensions,
                self.rows_by_id == before.rows_by_id,
                vector@.len() == self.dimensions,
                start + vector@.len() <= old_flat.len(),
                start + vector@.len() <= usize::MAX,
                0 <= j <= vector@.len(),
                self.vectors@.len() == old_flat.len(),
                forall|p: int|
                    0 <= p < old_flat.len() ==> #[trigger] self.vectors@[p] == if start <= p < start
                        + j {
                        vector@[p - start]
                    } else {
                        old_flat[p]
                    },
            decreases vector@.len() - j,
        {
            self.vectors.set(start + j, vector[j]);
            j = j + 1;
        }
        proof {
            lemma_row_in_bounds(row as int, before.id_seq().len() as int, before.dims() as int);
            assert(self.vectors@ =~= write_row(old_flat, before.dims(), row as int, vector@));
            lemma_contents_write_row(before.id_seq(), old_flat, before.dims(), row as int, vector@);
        }
    }

    /// Inserts a vector, replacing the one already stored under `id`.
    ///
    /// Returns true when a vector was replaced.
    pub fn upsert(&mut self, id: VectorId, vector: &[u32]) -> (replaced: bool)
        requires
            old(self).wf(),
            vector@.len() == old(self).dims(),
        ensures
            final(self).wf(),
            final(self).dims() == old(self).dims(),
            replaced == old(self).contents().contains_key(id@),
            final(self).contents() == old(self).contents().insert(id@, vector@),
            if replaced {
                &&& final(self).id_seq() == old(self).id_seq()
                &&& final(self).flat() == write_row(
                    old(self).flat(),
                    old(self).dims(),
                    old(self).id_seq().index_of(id@),
                    vector@,
                )
            } else {
                &&& final(self).id_seq() == old(self).id_seq().push(id@)
                &&& final(self).flat() == old(self).flat() + vector@
            },
    {
        broadcast use vstd::std_specs::hash::group_hash_axioms;

        let found = match self.rows_by_id.get(&id.get()) {
            Some(row) => Some(*row),
            None => None,
        };
        match found {
            Some(row) => {
                proof {
                    lemma_index_of_unique(self.id_seq(), row as int);
                }
                self.overwrite_row(row, vector);
                true
            },
            None => {
                self.append_row(id, vector);
                false
            },
        }
    }

    /// Removes a vector and returns it if the id was stored.
    ///
    /// The last row moves into the freed row, so the row order of the other
    /// ids changes only there.
    pub fn remove(&mut self, id: VectorId) -> (removed: Option<Vec<u32>>)
        requires
            old(self).wf(),
        ensures
            final(self).wf(),
            final(self).dims() == old(self).dims(),
            final(self).contents() == old(self).contents().remove(id@),
            match removed {
                None => {
                    &&& !old(self).contents().contains_key(id@)
                    &&& final(self).id_seq() == old(self).id_seq()
                    &&& final(self).flat() == old(self).flat()
                },
                Some(values) => {
                    &&& old(self).contents().contains_key(id@)
                    &&& values@ == old(self).contents()[id@]
                    &&& final(self).id_seq() == swap_remove_seq(
                        old(self).id_seq(),
                        old(self).id_seq().index_of(id@),
                    )
                    &&& final(self).flat() == swap_remove_rows(
                        old(self).flat(),
                        old(self).dims(),
                        old(self).id_seq().len() as int,
                        old(self).id_seq().index_of(id@),
                    )
                },
            },
    {
        broadcast use vstd::std_specs::hash::group_hash_axioms;

        let key = id.get();
        let found = match self.rows_by_id.get(&key) {
            Some(row) => Some(*row),
            None => None,
        };
        let row = match found {
            Some(row) => row,
            None => {
                return None;
            },
        };
        let ghost before = *self;
        let ghost n = before.id_seq().len() as int;
        let ghost d = before.dims();
        proof {
            lemma_index_of_unique(before.id_seq(), row as int);
            lemma_contents_swap_remove(before.id_seq(), before.flat(), d, row as int);
            lemma_row_in_bounds(n - 1, n, d as int);
            assert(0 <= (n - 1) * d <= n * d) by (nonlinear_arith)
                requires
                    n >= 1,
            ;
        }
        let total = self.vectors.len();
        assert((n - 1) * d <= total);
        let removed = vstd::slice::slice_to_vec(self.vector(row));
        let last_row = self.ids.len() - 1;
        if row != last_row {
            let last_id = self.ids[last_row];
            let last_values = vstd::slice::slice_to_vec(self.vector(last_row));
            self.overwrite_row(row, last_values.as_slice());
            self.ids.set(row, last_id);
            self.rows_by_id.insert(last_id.get(), row);
        }
        assert(self.rows_by_id@ == if row != last_row {
            before.rows_by_id@.insert(before.id_seq()[n - 1], row)
        } else {
            before.rows_by_id@
        });
        self.rows_by_id.remove(&key);
        self.ids.pop();
        let keep = last_row * self.dimensions;
        self.vectors.truncate(keep);
        proof {
            let ids2 = swap_remove_seq(before.id_seq(), row as int);
            let flat2 = swap_remove_rows(before.flat(), d, n, row as int);
            assert(self.id_seq() =~= ids2);
            assert(self.flat() =~= flat2);
            assert forall|k: u64| #[trigger]
                self.rows_by_id@.contains_key(k) <==> self.id_seq().contains(k) by {
                if self.id_seq().contains(k) {
                    let i = self.id_seq().index_of(k);
                    if i == row {
                        assert(before.id_seq()[n - 1] == k);
                    } else {
                        assert(before.id_seq()[i] == k);
                    }
                }
                if before.id_seq().contains(k) && k != key {
                    let j = before.id_seq().index_of(k);
                    if j == n - 1 {
                        assert(self.id_seq()[row as int] == k);
                    } else {
                        assert(self.id_seq()[j] == k);
                    }
                }
            }
            assert forall|k: u64| #[trigger] self.rows_by_id@.contains_key(k) implies {
                &&& self.rows_by_id@[k] < self.id_seq().len()
                &&& self.id_seq()[self.rows_by_id@[k] as int] == k
            } by {
                if k != before.id_seq()[n - 1] {
                    assert(before.rows_by_id@.contains_key(k));
                    let j = before.rows_by_id@[k] as int;
                    assert(before.id_seq()[j] == k);
                    if j == n - 1 {
                        assert(false);
                    }
                }
            }
        }
        Some(removed)
    }

    /// Inserts a new vector; an id that is already stored is rejected.
    pub fn insert(&mut self, id: VectorId, vector: &[u32]) -> (result: Result<(), Error>)
        requires
            old(self).wf(),
            vector@.len() == old(self).dims(),
        ensures
            final(self).wf(),
            final(self).dims() == old(self).dims(),
            match result {
                Ok(()) => {
                    &&& !old(self).contents().contains_key(id@)
                    &&& final(self).id_seq() == old(self).id_seq().push(id@)
                    &&& final(self).flat() == old(self).flat() + vector@
                    &&& final(self).contents() == old(self).contents().insert(id@, vector@)
                },
                Err(e) => {
                    &&& old(self).contents().contains_key(id@)
                    &&& e == Error::DuplicateId(id)
                    &&& final(self).id_seq() == old(self).id_seq()
                    &&& final(self).flat() == old(self).flat()
                },
            },
    {
        if self.contains(id) {
            return Err(Error::DuplicateId(id));
        }
        self.append_row(id, vector);
        Ok(())
    }

    /// Returns true if `id` is stored.
    pub fn contains(&self, id: VectorId) -> (found: bool)
        requires
            self.wf(),
        ensures
            found == self.contents().contains_key(id@),
    {
        broadcast use vstd::std_specs::hash::group_hash_axioms;

        self.rows_by_id.contains_key(&id.get())
    }

    /// Returns the fixed vector dimension.
    pub fn dimensions(&self) -> (d: usize)
        ensures
            d == self.dims(),
    {
        self.dimensions
    }

    /// Returns the number of stored vectors.
    pub fn len(&self) -> (n: usize)
        ensures
            n == self.id_seq().len(),
    {
        self.ids.len()
    }

    /// Returns true when nothing is stored.
    pub fn is_empty(&self) -> (empty: bool)
        ensures
            empty == (self.id_seq().len() == 0),
    {
        self.ids.len() == 0
    }

    /// The stored ids in row order.
    pub fn ids(&self) -> (ids: &[VectorId])
        ensures
            raw_ids(ids@) == self.id_seq(),
    {
        self.ids.as_slice()
    }

    /// All stored values, row after row.
    pub fn vectors(&self) -> (values: &[u32])
        ensures
            values@ == self.flat(),
    {
        self.vectors.as_slice()
    }

    /// The positions of row `row` in the flat buffer.
    fn row_range(&self, row: usize) -> (range: std::ops::Range<usize>)
        requires
            self.wf(),
            row < self.id_seq().len(),
        ensures
            range.start == row * self.dims(),
            range.end == row * self.dims() + self.dims(),
            range.end <= self.flat().len(),
    {
        let total = self.vectors.len();
        proof {
            lemma_row_in_bounds(row as int, self.id_seq().len() as int, self.dims() as int);
            assert(row * self.dims() + self.dims() <= total);
        }
        let start = row * self.dimensions;
        start..start + self.dimensions
    }

    /// The values of row `row`.
    pub fn vector(&self, row: usize) -> (values: &[u32])
        requires
            self.wf(),
            row < self.id_seq().len(),
        ensures
            values@ == self.row(row as int),
    {
        let range = self.row_range(row);
        vstd::slice::slice_subrange(self.vectors.as_slice(), range.start, range.end)
    }

    /// Returns the vector stored under `id`, without copying it.
    pub fn get(&self, id: VectorId) -> (result: Option<&[u32]>)
        requires
            self.wf(),
        ensures
            match result {
                Some(values) => {
                    &&& self.contents().contains_key(id@)
                    &&& values@ == self.contents()[id@]
                },
                None => !self.contents().contains_key(id@),
            },
    {
        broadcast use vstd::std_specs::hash::group_hash_axioms;

        match self.rows_by_id.get(&id.get()) {
            Some(row) => {
                proof {
                    lemma_index_of_unique(self.id_seq(), *row as int);
                }
                Some(self.vector(*row))
            },
            None => None,
        }
    }
}

} // verus!
