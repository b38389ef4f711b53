use crate::error::Error;
use crate::metrics::{
    Metric, lemma_metric_id_round_trip, metric_from_id, metric_id, valid_vector, validate_vector,
    vector_error,
};
use crate::storage::{VectorId, lemma_flat_from_rows, lemma_row_in_bounds, raw_ids, row_of};
use crate::store::{Store, StoreView};
use vstd::bytes::*;
use vstd::prelude::*;
use vstd::string::StringExecFns;

verus! {

/// Length of the fixed snapshot header: magic (8), version (2), metric (1),
/// reserved (1), dimensions (8) and vector count (8).
pub const HEADER_LEN: usize = 28;

/// The snapshot format version this library writes and reads.
pub const VERSION: u16 = 1;

/// The magic bytes that open every snapshot: `WEGDORT\0`.
pub open spec fn magic_bytes() -> Seq<u8> {
    seq![87u8, 69u8, 71u8, 68u8, 79u8, 82u8, 84u8, 0u8]
}

/// Bytes per stored row: the id (8) and the values (4 each).
pub open spec fn row_stride(dims: nat) -> nat {
    8 + 4 * dims
}

/// Where row `i` starts in a snapshot.
pub open spec fn row_offset(dims: nat, i: int) -> int {
    HEADER_LEN + i * row_stride(dims)
}

/// The total length of a snapshot of `count` rows of `dims` values.
pub open spec fn snapshot_len(dims: nat, count: nat) -> int {
    HEADER_LEN + count * row_stride(dims)
}

/// Values written one after another, each as four little-endian bytes.
pub open spec fn encode_values(values: Seq<u32>) -> Seq<u8>
    decreases values.len(),
{
    if values.len() == 0 {
        Seq::empty()
    } else {
        encode_values(values.drop_last()) + spec_u32_to_le_bytes(values.last())
    }
}

/// Rows written one after another: each id as eight little-endian bytes, then
/// the row's values.
pub open spec fn encode_rows(ids: Seq<u64>, flat: Seq<u32>, dims: nat) -> Seq<u8>
    decreases ids.len(),
{
    if ids.len() == 0 {
        Seq::empty()
    } else {
        encode_rows(ids.drop_last(), flat, dims) + spec_u64_to_le_bytes(ids.last())
            + encode_values(row_of(flat, dims, ids.len() - 1))
    }
}

/// The snapshot header for a store of `count` rows.
pub open spec fn encode_header(metric: Metric, dims: nat, count: nat) -> Seq<u8> {
    magic_bytes() + spec_u16_to_le_bytes(VERSION) + seq![metric_id(metric), 0u8]
        + spec_u64_to_le_bytes(dims as u64) + spec_u64_to_le_bytes(count as u64)
}

/// The snapshot of a store: the header, then every row in row order.
pub open spec fn snapshot_bytes(view: StoreView) -> Seq<u8> {
    encode_header(view.metric, view.dims, view.len()) + encode_rows(view.ids, view.flat, view.dims)
}

/// The little-endian `u16` at offset `o`.
pub open spec fn u16_at(bytes: Seq<u8>, o: int) -> u16 {
    spec_u16_from_le_bytes(bytes.subrange(o, o + 2))
}

/// The little-endian `u32` at offset `o`.
pub open spec fn u32_at(bytes: Seq<u8>, o: int) -> u32 {
    spec_u32_from_le_bytes(bytes.subrange(o, o + 4))
}

/// The little-endian `u64` at offset `o`.
pub open spec fn u64_at(bytes: Seq<u8>, o: int) -> u64 {
    spec_u64_from_le_bytes(bytes.subrange(o, o + 8))
}

/// The metric that the header names.
pub open spec fn header_metric(bytes: Seq<u8>) -> Metric {
    metric_from_id(bytes[10]).unwrap()
}

/// The dimension that the header names.
pub open spec fn header_dims(bytes: Seq<u8>) -> u64 {
    u64_at(bytes, 12)
}

/// The row count that the header names.
pub open spec fn header_count(bytes: Seq<u8>) -> u64 {
    u64_at(bytes, 20)
}

/// The ids of the first `count` rows.
pub open spec fn snapshot_ids(bytes: Seq<u8>, dims: nat, count: nat) -> Seq<u64> {
    Seq::new(count, |i: int| u64_at(bytes, row_offset(dims, i)))
}

/// The values of row `i`.
pub open spec fn snapshot_row(bytes: Seq<u8>, dims: nat, i: int) -> Seq<u32> {
    Seq::new(dims, |j: int| u32_at(bytes, row_offset(dims, i) + 8 + 4 * j))
}

/// The error of the first failing header check, if any.
pub open spec fn header_error(bytes: Seq<u8>) -> Option<Error> {
    let dims = header_dims(bytes);
    let count = header_count(bytes);
    if bytes.len() < HEADER_LEN {
        Some(Error::CorruptedFile("file is shorter than snapshot header"))
    } else if bytes.subrange(0, 8) != magic_bytes() {
        Some(Error::InvalidSnapshot("missing wegdort magic bytes"))
    } else if u16_at(bytes, 8) != VERSION {
        Some(Error::UnsupportedSnapshotVersion(u16_at(bytes, 8)))
    } else if metric_from_id(bytes[10]) is None {
        Some(Error::InvalidSnapshot("invalid metric id"))
    } else if bytes[11] != 0 {
        Some(Error::InvalidSnapshot("reserved header byte must be zero"))
    } else if dims > usize::MAX {
        Some(Error::CorruptedFile("dimensions do not fit usize"))
    } else if dims == 0 {
        Some(Error::ZeroDimensions)
    } else if count > usize::MAX {
        Some(Error::CorruptedFile("vector count does not fit usize"))
    } else if row_stride(dims as nat) > usize::MAX {
        Some(Error::CorruptedFile("snapshot dimensions overflow"))
    } else if snapshot_len(dims as nat, count as nat) > usize::MAX {
        Some(Error::CorruptedFile("snapshot length overflow"))
    } else if bytes.len() != snapshot_len(dims as nat, count as nat) {
        Some(Error::CorruptedFile("file length does not match snapshot header"))
    } else {
        None
    }
}

/// The error of the first row, from row `i` on, whose vector is invalid under
/// `metric`, if any.
pub open spec fn rows_error(bytes: Seq<u8>, metric: Metric, dims: nat, count: nat, i: nat) -> Option<
    Error,
>
    decreases count - i,
{
    if i >= count {
        None
    } else if !valid_vector(metric, snapshot_row(bytes, dims, i as int)) {
        Some(vector_error(metric, snapshot_row(bytes, dims, i as int)))
    } else {
        rows_error(bytes, metric, dims, count, i + 1)
    }
}

/// Why `bytes` is not a valid snapshot, or `None` when it is one: the header
/// checks in order, then the rows in order, then distinct ids.
pub open spec fn snapshot_error(bytes: Seq<u8>) -> Option<Error> {
    match header_error(bytes) {
        Some(e) => Some(e),
        None => {
            let metric = header_metric(bytes);
            let dims = header_dims(bytes) as nat;
            let count = header_count(bytes) as nat;
            match rows_error(bytes, metric, dims, count, 0) {
                Some(e) => Some(e),
                None => if snapshot_ids(bytes, dims, count).no_duplicates() {
                    None
                } else {
                    Some(Error::CorruptedFile("duplicate vector id"))
                },
            }
        },
    }
}

/// `view` is what the snapshot `bytes` holds: its metric, dimension, ids and
/// rows.
pub open spec fn decodes_to(bytes: Seq<u8>, view: StoreView) -> bool {
    &&& view.metric == header_metric(bytes)
    &&& view.dims == header_dims(bytes)
    &&& view.ids == snapshot_ids(bytes, view.dims, header_count(bytes) as nat)
    &&& view.flat.len() == view.ids.len() * view.dims
    &&& forall|i: int|
        0 <= i < view.ids.len() ==> #[trigger] view.row(i) == snapshot_row(bytes, view.dims, i)
}


/// Encoded values take four bytes each, in order.
pub proof fn lemma_encode_values(values: Seq<u32>)
    ensures
        encode_values(values).len() == 4 * values.len(),
        forall|j: int|
            0 <= j < values.len() ==> #[trigger] encode_values(values).subrange(4 * j, 4 * j + 4)
                == spec_u32_to_le_bytes(values[j]),
    decreases values.len(),
{
    lemma_auto_spec_u32_to_from_le_bytes();
    if values.len() > 0 {
        let init = values.drop_last();
        lemma_encode_values(init);
        let e = encode_values(values);
        let last = spec_u32_to_le_bytes(values.last());
        assert(e == encode_values(init) + last);
        assert forall|j: int| 0 <= j < values.len() implies #[trigger] e.subrange(4 * j, 4 * j + 4)
            == spec_u32_to_le_bytes(values[j]) by {
            if j < values.len() - 1 {
                assert(e.subrange(4 * j, 4 * j + 4) =~= encode_values(init).subrange(4 * j, 4 * j + 4));
                assert(init[j] == values[j]);
            } else {
                assert(e.subrange(4 * j, 4 * j + 4) =~= last);
            }
        }
    }
}

/// Encoded rows take `row_stride(dims)` bytes each: the id, then the values.
pub proof fn lemma_encode_rows(ids: Seq<u64>, flat: Seq<u32>, dims: nat)
    requires
        flat.len() >= ids.len() * dims,
    ensures
        encode_rows(ids, flat, dims).len() == ids.len() * row_stride(dims),
        forall|i: int|
            0 <= i < ids.len() ==> #[trigger] encode_rows(ids, flat, dims).subrange(
                i * row_stride(dims),
                i * row_stride(dims) + 8,
            ) == spec_u64_to_le_bytes(ids[i]),
        forall|i: int, j: int|
            0 <= i < ids.len() && 0 <= j < dims ==> #[trigger] encode_rows(ids, flat, dims).subrange(
                i * row_stride(dims) + 8 + 4 * j,
                i * row_stride(dims) + 8 + 4 * j + 4,
            ) == spec_u32_to_le_bytes(#[trigger] row_of(flat, dims, i)[j]),
    decreases ids.len(),
{
    lemma_auto_spec_u64_to_from_le_bytes();
    let n = ids.len() as int;
    let s = row_stride(dims) as int;
    if n > 0 {
        let init = ids.drop_last();
        assert(flat.len() >= (n - 1) * dims) by (nonlinear_arith)
            requires
                flat.len() >= n * dims,
                n >= 1,
        ;
        lemma_encode_rows(init, flat, dims);
        let prefix = encode_rows(init, flat, dims);
        let row = row_of(flat, dims, n - 1);
        if dims > 0 {
            lemma_row_in_bounds(n - 1, n, dims as int);
        }
        assert(row.len() == dims) by {
            assert(0 <= (n - 1) * dims);
            assert((n - 1) * dims + dims <= flat.len()) by (nonlinear_arith)
                requires
                    flat.len() >= n * dims,
                    n >= 1,
            ;
        }
        lemma_encode_values(row);
        let idb = spec_u64_to_le_bytes(ids.last());
        let e = encode_rows(ids, flat, dims);
        assert(e == prefix + idb + encode_values(row));
        assert(n * s == (n - 1) * s + s) by (nonlinear_arith);
        assert(e.len() == n * s);
        assert forall|i: int| 0 <= i < n implies #[trigger] e.subrange(i * s, i * s + 8)
            == spec_u64_to_le_bytes(ids[i]) by {
            if i < n - 1 {
                lemma_row_in_bounds(i, n - 1, s);
                assert(e.subrange(i * s, i * s + 8) =~= prefix.subrange(i * s, i * s + 8));
                assert(init[i] == ids[i]);
            } else {
                assert(e.subrange(i * s, i * s + 8) =~= idb);
            }
        }
        assert forall|i: int, j: int| 0 <= i < n && 0 <= j < dims implies #[trigger] e.subrange(
            i * s + 8 + 4 * j,
            i * s + 8 + 4 * j + 4,
        ) == spec_u32_to_le_bytes(#[trigger] row_of(flat, dims, i)[j]) by {
            if i < n - 1 {
                lemma_row_in_bounds(i, n - 1, s);
                assert(e.subrange(i * s + 8 + 4 * j, i * s + 8 + 4 * j + 4) =~= prefix.subrange(
                    i * s + 8 + 4 * j,
                    i * s + 8 + 4 * j + 4,
                ));
                assert(init[i] == ids[i]);
            } else {
                assert(e.subrange(i * s + 8 + 4 * j, i * s + 8 + 4 * j + 4) =~= encode_values(
                    row,
                ).subrange(4 * j, 4 * j + 4));
            }
        }
    }
}


/// When every row from `i` on is valid, no row error is reported from `i` on.
pub proof fn lemma_rows_error_none(bytes: Seq<u8>, metric: Metric, dims: nat, count: nat, i: nat)
    requires
        forall|t: int| i <= t < count ==> valid_vector(metric, #[trigger] snapshot_row(bytes, dims, t)),
    ensures
        rows_error(bytes, metric, dims, count, i) is None,
    decreases count - i,
{
    if i < count {
        assert(valid_vector(metric, snapshot_row(bytes, dims, i as int)));
        lemma_rows_error_none(bytes, metric, dims, count, i + 1);
    }
}

/// The header a snapshot starts with, byte by byte as the format documents it:
/// `WEGDORT\0`, version 1 (little-endian), the metric id (1 cosine, 2 dot
/// product, 3 squared L2), a zero reserved byte, then the dimension and the row
/// count as little-endian `u64`; each row then takes `8 + 4 * dims` bytes.
pub proof fn law_snapshot_layout(view: StoreView)
    ensures
        view.flat.len() >= view.len() * view.dims ==> snapshot_bytes(view).len() == 28 + view.len()
            * (8 + 4 * view.dims),
        snapshot_bytes(view).len() >= 28,
        snapshot_bytes(view)[0] == 87 && snapshot_bytes(view)[1] == 69 && snapshot_bytes(view)[2]
            == 71 && snapshot_bytes(view)[3] == 68 && snapshot_bytes(view)[4] == 79
            && snapshot_bytes(view)[5] == 82 && snapshot_bytes(view)[6] == 84
            && snapshot_bytes(view)[7] == 0,
        u16_at(snapshot_bytes(view), 8) == 1,
        snapshot_bytes(view)[10] == match view.metric {
            Metric::Cosine => 1u8,
            Metric::Dot => 2u8,
            Metric::SquaredL2 => 3u8,
        },
        snapshot_bytes(view)[11] == 0,
        u64_at(snapshot_bytes(view), 12) == view.dims as u64,
        u64_at(snapshot_bytes(view), 20) == view.len() as u64,
{
    lemma_auto_spec_u16_to_from_le_bytes();
    lemma_auto_spec_u64_to_from_le_bytes();
    let header = encode_header(view.metric, view.dims, view.len());
    let b = snapshot_bytes(view);
    assert(header.len() == 28);
    assert(b.subrange(0, 28) =~= header);
    assert(b.subrange(8, 10) =~= spec_u16_to_le_bytes(VERSION));
    assert(b.subrange(12, 20) =~= spec_u64_to_le_bytes(view.dims as u64));
    assert(b.subrange(20, 28) =~= spec_u64_to_le_bytes(view.len() as u64));
    if view.flat.len() >= view.len() * view.dims {
        lemma_encode_rows(view.ids, view.flat, view.dims);
    }
}

/// Where the rows sit in a snapshot of a well-formed store: row `i` starts at
/// byte `28 + i * (8 + 4 * dims)` with its id, followed by its values, value `j`
/// at four bytes each, all little-endian.
pub proof fn law_snapshot_rows(view: StoreView, i: int, j: int)
    requires
        view.well_formed(),
        0 <= i < view.len(),
        0 <= j < view.dims,
    ensures
        u64_at(snapshot_bytes(view), 28 + i * (8 + 4 * view.dims)) == view.ids[i],
        u32_at(snapshot_bytes(view), 28 + i * (8 + 4 * view.dims) + 8 + 4 * j) == view.flat[i
            * view.dims + j],
{
    lemma_auto_spec_u16_to_from_le_bytes();
    lemma_auto_spec_u32_to_from_le_bytes();
    lemma_auto_spec_u64_to_from_le_bytes();
    let d = view.dims;
    let st = row_stride(d) as int;
    let rows = encode_rows(view.ids, view.flat, d);
    let b = snapshot_bytes(view);
    lemma_encode_rows(view.ids, view.flat, d);
    lemma_row_in_bounds(i, view.len() as int, st);
    lemma_row_in_bounds(i, view.len() as int, d as int);
    assert(encode_header(view.metric, d, view.len()).len() == 28);
    assert(b.subrange(28 + i * st, 28 + i * st + 8) =~= rows.subrange(i * st, i * st + 8));
    assert(b.subrange(28 + i * st + 8 + 4 * j, 28 + i * st + 8 + 4 * j + 4) =~= rows.subrange(
        i * st + 8 + 4 * j,
        i * st + 8 + 4 * j + 4,
    ));
    assert(row_of(view.flat, d, i)[j] == view.flat[i * d + j]);
}

/// What every accepted snapshot satisfies: at least the 28 header bytes, the
/// magic `WEGDORT\0`, version 1, a metric byte of 1, 2 or 3, a zero reserved
/// byte, a positive dimension, exactly `28 + count * (8 + 4 * dims)` bytes,
/// valid vectors under its metric, and distinct ids.
pub proof fn law_accepted_snapshot(bytes: Seq<u8>)
    requires
        snapshot_error(bytes) is None,
    ensures
        bytes.len() >= 28,
        bytes[0] == 87 && bytes[1] == 69 && bytes[2] == 71 && bytes[3] == 68 && bytes[4] == 79
            && bytes[5] == 82 && bytes[6] == 84 && bytes[7] == 0,
        u16_at(bytes, 8) == 1,
        bytes[10] == 1 || bytes[10] == 2 || bytes[10] == 3,
        bytes[11] == 0,
        u64_at(bytes, 12) > 0,
        bytes.len() == 28 + u64_at(bytes, 20) * (8 + 4 * u64_at(bytes, 12)),
        forall|i: int|
            0 <= i < u64_at(bytes, 20) ==> valid_vector(
                header_metric(bytes),
                #[trigger] snapshot_row(bytes, u64_at(bytes, 12) as nat, i),
            ),
        forall|i: int|
            0 <= i < u64_at(bytes, 20) ==> #[trigger] snapshot_row(bytes, u64_at(bytes, 12) as nat, i)
                == Seq::new(
                u64_at(bytes, 12) as nat,
                |j: int| u32_at(bytes, 28 + i * (8 + 4 * u64_at(bytes, 12)) + 8 + 4 * j),
            ),
        Seq::new(
            u64_at(bytes, 20) as nat,
            |i: int| u64_at(bytes, 28 + i * (8 + 4 * u64_at(bytes, 12))),
        ).no_duplicates(),
{
    let d = u64_at(bytes, 12) as nat;
    let n = u64_at(bytes, 20) as nat;
    let m = header_metric(bytes);
    assert(bytes.subrange(0, 8)[0] == bytes[0]);
    assert(bytes.subrange(0, 8)[1] == bytes[1]);
    assert(bytes.subrange(0, 8)[2] == bytes[2]);
    assert(bytes.subrange(0, 8)[3] == bytes[3]);
    assert(bytes.subrange(0, 8)[4] == bytes[4]);
    assert(bytes.subrange(0, 8)[5] == bytes[5]);
    assert(bytes.subrange(0, 8)[6] == bytes[6]);
    assert(bytes.subrange(0, 8)[7] == bytes[7]);
    assert forall|i: int| 0 <= i < n implies valid_vector(m, #[trigger] snapshot_row(bytes, d, i)) by {
        if !valid_vector(m, snapshot_row(bytes, d, i)) {
            lemma_rows_error_valid_from(bytes, m, d, n, 0, i);
        }
    }
    assert(snapshot_ids(bytes, d, n) =~= Seq::new(n, |i: int| u64_at(bytes, 28 + i * (8 + 4 * d))));
}

/// If some row from `i` on is invalid, a row error is reported from `i` on.
proof fn lemma_rows_error_valid_from(
    bytes: Seq<u8>,
    metric: Metric,
    dims: nat,
    count: nat,
    i: nat,
    r: int,
)
    requires
        i <= r < count,
        !valid_vector(metric, snapshot_row(bytes, dims, r)),
    ensures
        rows_error(bytes, metric, dims, count, i) is Some,
    decreases r - i,
{
    if i < r && valid_vector(metric, snapshot_row(bytes, dims, i as int)) {
        lemma_rows_error_valid_from(bytes, metric, dims, count, i + 1, r);
    }
}

/// Reading the metric byte: 1, 2 and 3 name cosine, dot product and squared L2;
/// once the length, magic and version checks pass, any other byte is rejected
/// as an invalid metric id.
pub proof fn law_metric_byte(bytes: Seq<u8>)
    requires
        bytes.len() >= HEADER_LEN,
        bytes.subrange(0, 8) == magic_bytes(),
        u16_at(bytes, 8) == VERSION,
    ensures
        bytes[10] == 1 ==> header_metric(bytes) == Metric::Cosine,
        bytes[10] == 2 ==> header_metric(bytes) == Metric::Dot,
        bytes[10] == 3 ==> header_metric(bytes) == Metric::SquaredL2,
        !(bytes[10] == 1 || bytes[10] == 2 || bytes[10] == 3) ==> snapshot_error(bytes) == Some(
            Error::InvalidSnapshot("invalid metric id"),
        ),
{
}

/// Reading back what was written: the snapshot of a well-formed store is a valid
/// snapshot, and it holds exactly that store's metric, dimension, ids and rows.
///
/// The snapshot must fit in memory; its header checks also need the byte
/// length of one row to fit in `usize`, which a store without vectors but with
/// a very large dimension does not meet.
pub proof fn lemma_snapshot_round_trip(view: StoreView)
    requires
        view.well_formed(),
        row_stride(view.dims) <= usize::MAX,
        snapshot_len(view.dims, view.len()) <= usize::MAX,
    ensures
        snapshot_error(snapshot_bytes(view)) is None,
        decodes_to(snapshot_bytes(view), view),
{
    lemma_auto_spec_u16_to_from_le_bytes();
    lemma_auto_spec_u32_to_from_le_bytes();
    lemma_auto_spec_u64_to_from_le_bytes();
    lemma_metric_id_round_trip(view.metric);
    let d = view.dims;
    let n = view.len();
    let st = row_stride(d) as int;
    let header = encode_header(view.metric, d, n);
    let rows = encode_rows(view.ids, view.flat, d);
    let b = snapshot_bytes(view);
    lemma_encode_rows(view.ids, view.flat, d);
    assert(n * st >= 0) by (nonlinear_arith)
        requires
            st > 0,
    ;
    assert(n <= n * st) by (nonlinear_arith)
        requires
            st >= 1,
    ;
    assert(header.len() == 28);
    assert(b == header + rows);
    assert(b.len() == snapshot_len(d, n));
    assert(b.subrange(0, 8) =~= magic_bytes());
    assert(b.subrange(8, 10) =~= spec_u16_to_le_bytes(VERSION));
    assert(b[10] == metric_id(view.metric));
    assert(b[11] == 0);
    assert(b.subrange(12, 20) =~= spec_u64_to_le_bytes(d as u64));
    assert(b.subrange(20, 28) =~= spec_u64_to_le_bytes(n as u64));
    assert(header_dims(b) == d);
    assert(header_count(b) == n);
    assert(header_error(b) is None);
    assert forall|i: int| 0 <= i < n implies #[trigger] snapshot_ids(b, d, n)[i] == view.ids[i] by {
        lemma_row_in_bounds(i, n as int, st);
        assert(b.subrange(row_offset(d, i), row_offset(d, i) + 8) =~= rows.subrange(
            i * st,
            i * st + 8,
        ));
    }
    assert(snapshot_ids(b, d, n) =~= view.ids);
    assert forall|i: int| 0 <= i < n implies #[trigger] view.row(i) == snapshot_row(b, d, i) by {
        lemma_row_in_bounds(i, n as int, d as int);
        lemma_row_in_bounds(i, n as int, st);
        assert forall|j: int| 0 <= j < d implies #[trigger] snapshot_row(b, d, i)[j] == view.row(
            i,
        )[j] by {
            assert(i * st + 8 + 4 * j + 4 <= i * st + st);
            assert(b.subrange(row_offset(d, i) + 8 + 4 * j, row_offset(d, i) + 8 + 4 * j + 4)
                =~= rows.subrange(i * st + 8 + 4 * j, i * st + 8 + 4 * j + 4));
            assert(rows.subrange(i * st + 8 + 4 * j, i * st + 8 + 4 * j + 4)
                == spec_u32_to_le_bytes(row_of(view.flat, d, i)[j]));
        }
        assert(view.row(i) =~= snapshot_row(b, d, i));
    }
    assert forall|t: int| 0 <= t < n implies valid_vector(
        view.metric,
        #[trigger] snapshot_row(b, d, t),
    ) by {
        assert(view.row(t) == snapshot_row(b, d, t));
        assert(valid_vector(view.metric, view.row(t)));
    }
    lemma_rows_error_none(b, view.metric, d, n, 0);
}


/// A snapshot holds one store at most: two well-formed views that both decode
/// from the same bytes are equal.
pub proof fn lemma_decodes_to_unique(bytes: Seq<u8>, a: StoreView, b: StoreView)
    requires
        a.well_formed(),
        b.well_formed(),
        decodes_to(bytes, a),
        decodes_to(bytes, b),
    ensures
        a == b,
{
    assert forall|i: int| 0 <= i < a.ids.len() implies #[trigger] row_of(a.flat, a.dims, i)
        == row_of(b.flat, b.dims, i) by {
        assert(a.row(i) == snapshot_row(bytes, a.dims, i));
        assert(b.row(i) == snapshot_row(bytes, b.dims, i));
    }
    lemma_flat_from_rows(a.flat, b.flat, a.dims, a.ids.len() as int);
}

/// Loading what was saved gives back the same store: a well-formed store whose
/// snapshot fits in memory (and whose row length fits in `usize`) is the only
/// store its snapshot decodes to.
pub proof fn lemma_load_after_save(view: StoreView, loaded: StoreView)
    requires
        view.well_formed(),
        row_stride(view.dims) <= usize::MAX,
        snapshot_len(view.dims, view.len()) <= usize::MAX,
        loaded.well_formed(),
        decodes_to(snapshot_bytes(view), loaded),
    ensures
        loaded == view,
{
    lemma_snapshot_round_trip(view);
    lemma_decodes_to_unique(snapshot_bytes(view), loaded, view);
}

/// The extension of the temporary file that a snapshot is first written to:
/// the file's own extension followed by `.tmp`, or `tmp` when it has none.
pub fn temp_extension(extension: Option<&str>) -> (temp: String)
    ensures
        temp@ == match extension {
            Some(e) => e@ + ".tmp"@,
            None => "tmp"@,
        },
{
    match extension {
        Some(e) => String::from_str(e).concat(".tmp"),
        None => String::from_str("tmp"),
    }
}

/// Encodes a store as a snapshot: the header, then every row in row order.
pub fn snapshot_to_bytes(store: &Store) -> (bytes: Vec<u8>)
    requires
        store.wf(),
        snapshot_len(store@.dims, store@.len()) <= usize::MAX,
    ensures
        bytes@ == snapshot_bytes(store@),
{
    let ghost view = store@;
    let dims = store.dimensions();
    let count = store.len();
    let ids = store.ids();
    let values = store.vectors();
    let mut out: Vec<u8> = Vec::new();
    out.push(87u8);
    out.push(69u8);
    out.push(71u8);
    out.push(68u8);
    out.push(79u8);
    out.push(82u8);
    out.push(84u8);
    out.push(0u8);
    let mut version_bytes = u16_to_le_bytes(VERSION);
    out.append(&mut version_bytes);
    out.push(store.metric().to_u8());
    out.push(0u8);
    let mut dims_bytes = u64_to_le_bytes(dims as u64);
    out.append(&mut dims_bytes);
    let mut count_bytes = u64_to_le_bytes(count as u64);
    out.append(&mut count_bytes);
    let ghost header = encode_header(view.metric, view.dims, view.len());
    assert(out@ =~= header);
    let ghost raw = view.ids;
    let mut row: usize = 0;
    while row < count
        invariant
            view == store@,
            store.wf(),
            raw == view.ids,
            raw_ids(ids@) == raw,
            values@ == view.flat,
            dims == view.dims,
            count == view.len(),
            0 <= row <= count,
            out@ == header + encode_rows(raw.take(row as int), view.flat, view.dims),
        decreases count - row,
    {
        let ghost before = out@;
        let id = ids[row].get();
        let mut id_bytes = u64_to_le_bytes(id);
        out.append(&mut id_bytes);
        proof {
            lemma_row_in_bounds(row as int, count as int, dims as int);
        }
        let total = values.len();
        let start = row * dims;
        let ghost row_values = row_of(view.flat, view.dims, row as int);
        let mut j: usize = 0;
        while j < dims
            invariant
                values@ == view.flat,
                dims == view.dims,
                total == values@.len(),
                start == row * dims,
                start + dims <= total,
                row_values == row_of(view.flat, view.dims, row as int),
                0 <= j <= dims,
                out@ == before + spec_u64_to_le_bytes(id) + encode_values(row_values.take(j as int)),
            decreases dims - j,
        {
            let mut value_bytes = u32_to_le_bytes(values[start + j]);
            out.append(&mut value_bytes);
            proof {
                let t = row_values.take(j + 1);
                assert(t.drop_last() =~= row_values.take(j as int));
                assert(t.last() == values@[start + j]);
            }
            j = j + 1;
        }
        proof {
            assert(row_values.take(dims as int) =~= row_values);
            let next = raw.take(row + 1);
            assert(next.drop_last() =~= raw.take(row as int));
            assert(next.last() == id);
        }
        row = row + 1;
    }
    proof {
        assert(raw.take(count as int) =~= raw);
    }
    out
}


/// When the rows before `r` are valid and row `r` is not, the row error is that
/// of row `r`.
pub proof fn lemma_rows_error_first(
    bytes: Seq<u8>,
    metric: Metric,
    dims: nat,
    count: nat,
    i: nat,
    r: nat,
)
    requires
        i <= r < count,
        forall|t: int| i <= t < r ==> valid_vector(metric, #[trigger] snapshot_row(bytes, dims, t)),
        !valid_vector(metric, snapshot_row(bytes, dims, r as int)),
    ensures
        rows_error(bytes, metric, dims, count, i) == Some(
            vector_error(metric, snapshot_row(bytes, dims, r as int)),
        ),
    decreases r - i,
{
    if i < r {
        assert(valid_vector(metric, snapshot_row(bytes, dims, i as int)));
        lemma_rows_error_first(bytes, metric, dims, count, i + 1, r);
    }
}

/// Returns true when the snapshot opens with the magic bytes.
fn has_magic(bytes: &[u8]) -> (found: bool)
    requires
        bytes@.len() >= 8,
    ensures
        found == (bytes@.subrange(0, 8) == magic_bytes()),
{
    let found = bytes[0] == 87u8 && bytes[1] == 69u8 && bytes[2] == 71u8 && bytes[3] == 68u8
        && bytes[4] == 79u8 && bytes[5] == 82u8 && bytes[6] == 84u8 && bytes[7] == 0u8;
    proof {
        if found {
            assert(bytes@.subrange(0, 8) =~= magic_bytes());
        } else {
            if bytes@.subrange(0, 8) == magic_bytes() {
                assert(bytes@.subrange(0, 8)[0] == 87u8);
                assert(bytes@.subrange(0, 8)[1] == 69u8);
                assert(bytes@.subrange(0, 8)[2] == 71u8);
                assert(bytes@.subrange(0, 8)[3] == 68u8);
                assert(bytes@.subrange(0, 8)[4] == 79u8);
                assert(bytes@.subrange(0, 8)[5] == 82u8);
                assert(bytes@.subrange(0, 8)[6] == 84u8);
                assert(bytes@.subrange(0, 8)[7] == 0u8);
            }
        }
    }
    found
}

/// Reads the little-endian `u16` at `offset`.
pub fn read_u16(bytes: &[u8], offset: usize) -> (result: Result<u16, Error>)
    requires
        offset + 2 <= usize::MAX,
    ensures
        match result {
            Ok(value) => offset + 2 <= bytes@.len() && value == u16_at(bytes@, offset as int),
            Err(e) => offset + 2 > bytes@.len() && e == Error::CorruptedFile("truncated u16"),
        },
{
    if offset + 2 > bytes.len() {
        return Err(Error::CorruptedFile("truncated u16"));
    }
    Ok(u16_from_le_bytes(vstd::slice::slice_subrange(bytes, offset, offset + 2)))
}

/// Reads the little-endian `u64` at `offset`.
pub fn read_u64(bytes: &[u8], offset: usize) -> (result: Result<u64, Error>)
    requires
        offset + 8 <= usize::MAX,
    ensures
        match result {
            Ok(value) => offset + 8 <= bytes@.len() && value == u64_at(bytes@, offset as int),
            Err(e) => offset + 8 > bytes@.len() && e == Error::CorruptedFile("truncated u64"),
        },
{
    if offset + 8 > bytes.len() {
        return Err(Error::CorruptedFile("truncated u64"));
    }
    Ok(u64_from_le_bytes(vstd::slice::slice_subrange(bytes, offset, offset + 8)))
}

/// Reads the single-precision pattern stored little-endian at `offset`.
pub fn read_f32_bits(bytes: &[u8], offset: usize) -> (result: Result<u32, Error>)
    requires
        offset + 4 <= usize::MAX,
    ensures
        match result {
            Ok(value) => offset + 4 <= bytes@.len() && value == u32_at(bytes@, offset as int),
            Err(e) => offset + 4 > bytes@.len() && e == Error::CorruptedFile("truncated f32"),
        },
{
    if offset + 4 > bytes.len() {
        return Err(Error::CorruptedFile("truncated f32"));
    }
    Ok(u32_from_le_bytes(vstd::slice::slice_subrange(bytes, offset, offset + 4)))
}

/// Converts a header value to `usize`, failing with `reason` when it does not fit.
pub fn usize_from_u64(value: u64, reason: &'static str) -> (result: Result<usize, Error>)
    ensures
        match result {
            Ok(v) => value <= usize::MAX && v == value,
            Err(e) => value > usize::MAX && e == Error::CorruptedFile(reason),
        },
{
    if value <= usize::MAX as u64 {
        Ok(value as usize)
    } else {
        Err(Error::CorruptedFile(reason))
    }
}

/// Decodes a snapshot into a store.
///
/// The header is checked field by field (length, magic, version, metric,
/// reserved byte, dimension, count, total length), then every row in order
/// (finite values; no zero vector under cosine similarity), then the ids
/// (no id twice). The first failing check decides the error.
pub fn read_snapshot(bytes: &[u8]) -> (result: Result<Store, Error>)
    ensures
        match result {
            Ok(store) => {
                &&& snapshot_error(bytes@) is None
                &&& store.wf()
                &&& decodes_to(bytes@, store@)
            },
            Err(e) => snapshot_error(bytes@) == Some(e),
        },
{
    let len = bytes.len();
    if len < HEADER_LEN {
        return Err(Error::CorruptedFile("file is shorter than snapshot header"));
    }
    if !has_magic(bytes) {
        return Err(Error::InvalidSnapshot("missing wegdort magic bytes"));
    }
    let version = match read_u16(bytes, 8) {
        Ok(v) => v,
        Err(e) => {
            return Err(e);
        },
    };
    if version != VERSION {
        return Err(Error::UnsupportedSnapshotVersion(version));
    }
    let metric = match Metric::from_u8(bytes[10]) {
        Some(m) => m,
        None => {
            return Err(Error::InvalidSnapshot("invalid metric id"));
        },
    };
    if bytes[11] != 0 {
        return Err(Error::InvalidSnapshot("reserved header byte must be zero"));
    }
    let raw_dims = match read_u64(bytes, 12) {
        Ok(v) => v,
        Err(e) => {
            return Err(e);
        },
    };
    let dims = match usize_from_u64(raw_dims, "dimensions do not fit usize") {
        Ok(v) => v,
        Err(e) => {
            return Err(e);
        },
    };
    if dims == 0 {
        return Err(Error::ZeroDimensions);
    }
    let raw_count = match read_u64(bytes, 20) {
        Ok(v) => v,
        Err(e) => {
            return Err(e);
        },
    };
    let count = match usize_from_u64(raw_count, "vector count does not fit usize") {
        Ok(v) => v,
        Err(e) => {
            return Err(e);
        },
    };
    let bytes_per_vector = match dims.checked_mul(4) {
        Some(v) => match v.checked_add(8) {
            Some(w) => w,
            None => {
                return Err(Error::CorruptedFile("snapshot dimensions overflow"));
            },
        },
        None => {
            return Err(Error::CorruptedFile("snapshot dimensions overflow"));
        },
    };
    let payload = match count.checked_mul(bytes_per_vector) {
        Some(v) => v,
        None => {
            return Err(Error::CorruptedFile("snapshot length overflow"));
        },
    };
    let expected_len = match HEADER_LEN.checked_add(payload) {
        Some(v) => v,
        None => {
            return Err(Error::CorruptedFile("snapshot length overflow"));
        },
    };
    if len != expected_len {
        return Err(Error::CorruptedFile("file length does not match snapshot header"));
    }
    let ghost b = bytes@;
    let ghost d = dims as nat;
    let ghost n = count as nat;
    let ghost st = row_stride(d) as int;
    assert(header_error(b) is None);
    proof {
        assert(count * dims <= count * bytes_per_vector) by (nonlinear_arith)
            requires
                bytes_per_vector == 8 + 4 * dims,
        ;
        assert(count * dims >= 0) by (nonlinear_arith);
    }
    let mut offset: usize = HEADER_LEN;
    let mut ids: Vec<VectorId> = Vec::with_capacity(count);
    let mut vectors: Vec<u32> = Vec::with_capacity(count * dims);
    let mut row: usize = 0;
    while row < count
        invariant
            b == bytes@,
            len == b.len(),
            header_error(b) is None,
            metric == header_metric(b),
            dims == header_dims(b),
            count == header_count(b),
            d == dims,
            n == count,
            dims > 0,
            st == bytes_per_vector,
            bytes_per_vector == 8 + 4 * dims,
            len == HEADER_LEN + count * bytes_per_vector,
            0 <= row <= count,
            offset == row_offset(d, row as int),
            raw_ids(ids@) == snapshot_ids(b, d, n).take(row as int),
            vectors@.len() == row * dims,
            forall|t: int| 0 <= t < row ==> #[trigger] row_of(vectors@, d, t) == snapshot_row(b, d, t),
            forall|t: int| 0 <= t < row ==> valid_vector(metric, #[trigger] snapshot_row(b, d, t)),
        decreases count - row,
    {
        proof {
            lemma_row_in_bounds(row as int, count as int, st);
            lemma_row_in_bounds(row as int, count as int, dims as int);
        }
        let id = match read_u64(bytes, offset) {
            Ok(v) => v,
            Err(e) => {
                return Err(e);
            },
        };
        let ghost old_ids = ids@;
        let vid = VectorId::new(id);
        ids.push(vid);
        proof {
            assert(ids@ == old_ids.push(vid));
            assert(raw_ids(ids@) =~= raw_ids(old_ids).push(id));
            assert(snapshot_ids(b, d, n)[row as int] == id);
            assert(raw_ids(ids@) =~= snapshot_ids(b, d, n).take(row + 1));
        }
        offset = offset + 8;
        let row_start = vectors.len();
        let ghost prefix = vectors@;
        let ghost wanted = snapshot_row(b, d, row as int);
        let mut j: usize = 0;
        while j < dims
            invariant
                b == bytes@,
                len == b.len(),
                dims == d,
                st == bytes_per_vector,
                bytes_per_vector == 8 + 4 * dims,
                row_offset(d, row as int) + st <= len,
                0 <= j <= dims,
                offset == row_offset(d, row as int) + 8 + 4 * j,
                wanted == snapshot_row(b, d, row as int),
                row_start == prefix.len(),
                vectors@ == prefix + wanted.take(j as int),
            decreases dims - j,
        {
            let value = match read_f32_bits(bytes, offset) {
                Ok(v) => v,
                Err(e) => {
                    return Err(e);
                },
            };
            vectors.push(value);
            proof {
                assert(prefix + wanted.take(j + 1) =~= (prefix + wanted.take(j as int)).push(value));
            }
            offset = offset + 4;
            j = j + 1;
        }
        proof {
            assert(wanted.take(dims as int) =~= wanted);
            assert((row + 1) * dims == row * dims + dims) by (nonlinear_arith);
            assert(row_of(vectors@, d, row as int) =~= wanted);
            assert forall|t: int| 0 <= t < row implies #[trigger] row_of(vectors@, d, t)
                == snapshot_row(b, d, t) by {
                lemma_row_in_bounds(t, row as int, dims as int);
                assert(row_of(vectors@, d, t) =~= row_of(prefix, d, t));
            }
            assert(offset == row_offset(d, row + 1)) by (nonlinear_arith)
                requires
                    offset == row_offset(d, row as int) + 8 + 4 * dims,
                    d == dims,
            ;
        }
        let row_end = vectors.len();
        let row_values = vstd::slice::slice_subrange(vectors.as_slice(), row_start, row_end);
        match validate_vector(metric, row_values) {
            Ok(()) => {},
            Err(e) => {
                proof {
                    lemma_rows_error_first(b, metric, d, n, 0, row as nat);
                }
                return Err(e);
            },
        }
        row = row + 1;
    }
    proof {
        lemma_rows_error_none(b, metric, d, n, 0);
        assert(snapshot_ids(b, d, n).take(count as int) =~= snapshot_ids(b, d, n));
    }
    Store::from_parts(dims, metric, ids, vectors)
}

} // verus!
