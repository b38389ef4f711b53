use wegdort::persistence::{
    read_f32_bits, read_snapshot, read_u16, read_u64, snapshot_to_bytes, temp_extension,
    usize_from_u64, HEADER_LEN, VERSION,
};
use wegdort::{Error, Metric, Store, VectorId};

const MAGIC: &[u8; 8] = b"WEGDORT\0";

fn bits(values: &[f32]) -> Vec<u32> {
    values.iter().map(|value| value.to_bits()).collect()
}

fn dot(a: &[f32], b: &[f32]) -> f32 {
    a.iter().zip(b).map(|(x, y)| x * y).sum()
}

fn score(metric: Metric, query: &[f32], vector: &[f32]) -> f32 {
    match metric {
        Metric::Cosine => dot(query, vector) / (dot(query, query).sqrt() * dot(vector, vector).sqrt()),
        Metric::Dot => dot(query, vector),
        Metric::SquaredL2 => query.iter().zip(vector).map(|(x, y)| (x - y) * (x - y)).sum(),
    }
}

fn search_store(store: &Store, query: &[f32], k: usize) -> Vec<wegdort::SearchHit> {
    let scores: Vec<u32> = store
        .vectors()
        .chunks(store.dimensions())
        .map(|row| {
            let vector: Vec<f32> = row.iter().map(|value| f32::from_bits(*value)).collect();
            score(store.metric(), query, &vector).to_bits()
        })
        .collect();
    store.search(&bits(query), &scores, k).unwrap()
}

fn valid_bytes() -> Vec<u8> {
    valid_bytes_with_count(1)
}

fn valid_bytes_with_count(count: usize) -> Vec<u8> {
    let mut bytes = Vec::new();
    bytes.extend_from_slice(MAGIC);
    bytes.extend_from_slice(&VERSION.to_le_bytes());
    bytes.push(Metric::Dot.to_u8());
    bytes.push(0);
    bytes.extend_from_slice(&2_u64.to_le_bytes());
    bytes.extend_from_slice(&(count as u64).to_le_bytes());
    for index in 0..count {
        bytes.extend_from_slice(&((index + 1) as u64).to_le_bytes());
        bytes.extend_from_slice(&1.0_f32.to_le_bytes());
        bytes.extend_from_slice(&0.0_f32.to_le_bytes());
    }
    bytes
}

#[test]
fn round_trips_each_metric() {
    for metric in [Metric::Cosine, Metric::Dot, Metric::SquaredL2] {
        let mut store = Store::new(2, metric).unwrap();
        store.insert(VectorId::new(1), &bits(&[1.0, 0.0])).unwrap();
        store.insert(VectorId::new(2), &bits(&[0.0, 1.0])).unwrap();

        let bytes = snapshot_to_bytes(&store);
        let loaded = read_snapshot(&bytes).unwrap();

        assert_eq!(loaded.dimensions(), 2);
        assert_eq!(loaded.metric(), metric);
        assert_eq!(loaded.len(), 2);
        assert_eq!(search_store(&loaded, &[1.0, 0.0], 1)[0].id, VectorId::new(1));
    }
}

#[test]
fn rejects_bad_magic() {
    let mut bytes = valid_bytes();
    bytes[0] = b'X';
    assert!(matches!(
        read_snapshot(&bytes),
        Err(Error::InvalidSnapshot("missing wegdort magic bytes"))
    ));
}

#[test]
fn rejects_unsupported_version() {
    let mut bytes = valid_bytes();
    bytes[8..10].copy_from_slice(&2_u16.to_le_bytes());
    assert!(matches!(
        read_snapshot(&bytes),
        Err(Error::UnsupportedSnapshotVersion(2))
    ));
}

#[test]
fn rejects_invalid_metric() {
    let mut bytes = valid_bytes();
    bytes[10] = 99;
    assert!(matches!(
        read_snapshot(&bytes),
        Err(Error::InvalidSnapshot("invalid metric id"))
    ));
}

#[test]
fn rejects_truncated_file() {
    let bytes = valid_bytes();
    assert!(matches!(
        read_snapshot(&bytes[..bytes.len() - 1]),
        Err(Error::CorruptedFile(
            "file length does not match snapshot header"
        ))
    ));
}

#[test]
fn rejects_duplicate_ids() {
    let mut bytes = valid_bytes_with_count(2);
    let first_id = HEADER_LEN;
    let second_id = HEADER_LEN + 8 + 8;
    let id = bytes[first_id..first_id + 8].to_vec();
    bytes[second_id..second_id + 8].copy_from_slice(&id);
    assert!(matches!(
        read_snapshot(&bytes),
        Err(Error::CorruptedFile("duplicate vector id"))
    ));
}

#[test]
fn persistence_rejects_non_finite_values() {
    let mut bytes = valid_bytes();
    let first_value = HEADER_LEN + 8;
    bytes[first_value..first_value + 4].copy_from_slice(&f32::NAN.to_le_bytes());
    assert!(matches!(read_snapshot(&bytes), Err(Error::NonFiniteValue)));
}

#[test]
fn rejects_cosine_zero_vector() {
    let mut bytes = valid_bytes();
    bytes[10] = Metric::Cosine.to_u8();
    let first_value = HEADER_LEN + 8;
    bytes[first_value..first_value + 4].copy_from_slice(&0.0_f32.to_le_bytes());
    bytes[first_value + 4..first_value + 8].copy_from_slice(&0.0_f32.to_le_bytes());
    assert!(matches!(
        read_snapshot(&bytes),
        Err(Error::ZeroVectorForCosine)
    ));
}

#[test]
fn encodes_the_documented_layout() {
    let mut store = Store::new(2, Metric::SquaredL2).unwrap();
    store.insert(VectorId::new(7), &bits(&[1.0, -2.5])).unwrap();
    let bytes = snapshot_to_bytes(&store);
    let mut expected = Vec::new();
    expected.extend_from_slice(MAGIC);
    expected.extend_from_slice(&1_u16.to_le_bytes());
    expected.push(3);
    expected.push(0);
    expected.extend_from_slice(&2_u64.to_le_bytes());
    expected.extend_from_slice(&1_u64.to_le_bytes());
    expected.extend_from_slice(&7_u64.to_le_bytes());
    expected.extend_from_slice(&1.0_f32.to_le_bytes());
    expected.extend_from_slice(&(-2.5_f32).to_le_bytes());
    assert_eq!(bytes, expected);
    assert_eq!(bytes.len(), HEADER_LEN + 8 + 2 * 4);
}

#[test]
fn round_trip_keeps_rows_and_order() {
    let mut store = Store::new(3, Metric::Dot).unwrap();
    for id in [5u64, 1, 9] {
        let value = id as f32;
        store.insert(VectorId::new(id), &bits(&[value, -value, 0.5])).unwrap();
    }
    store.remove(VectorId::new(5)).unwrap();
    let loaded = read_snapshot(&snapshot_to_bytes(&store)).unwrap();
    assert_eq!(loaded.ids(), store.ids());
    assert_eq!(loaded.vectors(), store.vectors());
    assert_eq!(loaded.metric(), Metric::Dot);

    let empty = Store::new(4, Metric::Cosine).unwrap();
    let loaded = read_snapshot(&snapshot_to_bytes(&empty)).unwrap();
    assert!(loaded.is_empty());
    assert_eq!(loaded.dimensions(), 4);
}

#[test]
fn rejects_each_header_field() {
    assert!(matches!(
        read_snapshot(&valid_bytes()[..HEADER_LEN - 1]),
        Err(Error::CorruptedFile("file is shorter than snapshot header"))
    ));

    let mut bytes = valid_bytes();
    bytes[11] = 1;
    assert!(matches!(
        read_snapshot(&bytes),
        Err(Error::InvalidSnapshot("reserved header byte must be zero"))
    ));

    let mut bytes = valid_bytes();
    bytes[12..20].copy_from_slice(&0_u64.to_le_bytes());
    assert!(matches!(read_snapshot(&bytes), Err(Error::ZeroDimensions)));

    let mut bytes = valid_bytes();
    bytes[12..20].copy_from_slice(&u64::MAX.to_le_bytes());
    assert!(matches!(
        read_snapshot(&bytes),
        Err(Error::CorruptedFile("snapshot dimensions overflow"))
            | Err(Error::CorruptedFile("dimensions do not fit usize"))
    ));

    let mut bytes = valid_bytes();
    bytes[20..28].copy_from_slice(&(u64::MAX / 16).to_le_bytes());
    assert!(matches!(
        read_snapshot(&bytes),
        Err(Error::CorruptedFile("snapshot length overflow"))
            | Err(Error::CorruptedFile("vector count does not fit usize"))
    ));

    let mut bytes = valid_bytes();
    bytes.push(0);
    assert!(matches!(
        read_snapshot(&bytes),
        Err(Error::CorruptedFile("file length does not match snapshot header"))
    ));
}

#[test]
fn reads_little_endian_fields() {
    let bytes = [0x34u8, 0x12, 0, 0, 0x80, 0x3f, 1, 2, 3, 4, 5, 6, 7, 8];
    assert_eq!(read_u16(&bytes, 0).unwrap(), 0x1234);
    assert_eq!(f32::from_bits(read_f32_bits(&bytes, 2).unwrap()), 1.0);
    assert_eq!(read_u64(&bytes, 6).unwrap(), 0x0807060504030201);
    assert!(matches!(read_u16(&bytes, 13), Err(Error::CorruptedFile("truncated u16"))));
    assert!(matches!(read_f32_bits(&bytes, 11), Err(Error::CorruptedFile("truncated f32"))));
    assert!(matches!(read_u64(&bytes, 7), Err(Error::CorruptedFile("truncated u64"))));
    assert_eq!(usize_from_u64(17, "too big").unwrap(), 17);
}

#[test]
fn temporary_extension_appends_tmp() {
    assert_eq!(temp_extension(Some("wgd")), "wgd.tmp");
    assert_eq!(temp_extension(None), "tmp");
}
