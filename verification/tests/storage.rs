use wegdort::storage::VectorStorage;
use wegdort::{Error, VectorId};

fn bits(values: &[f32]) -> Vec<u32> {
    values.iter().map(|value| value.to_bits()).collect()
}

#[test]
fn rejects_zero_dimensions() {
    assert!(matches!(VectorStorage::new(0), Err(Error::ZeroDimensions)));
}

#[test]
fn insert_rejects_duplicates() {
    let mut storage = VectorStorage::new(2).unwrap();
    storage.insert(VectorId::new(7), &bits(&[1.0, 2.0])).unwrap();
    assert!(matches!(
        storage.insert(VectorId::new(7), &bits(&[3.0, 4.0])),
        Err(Error::DuplicateId(id)) if id == VectorId::new(7)
    ));
}

#[test]
fn upsert_reports_replacement() {
    let mut storage = VectorStorage::new(2).unwrap();
    assert!(!storage.upsert(VectorId::new(7), &bits(&[1.0, 2.0])));
    assert!(storage.upsert(VectorId::new(7), &bits(&[3.0, 4.0])));
    assert_eq!(
        storage.get(VectorId::new(7)),
        Some(bits(&[3.0, 4.0]).as_slice())
    );
}

#[test]
fn remove_updates_swapped_row_index() {
    let mut storage = VectorStorage::new(2).unwrap();
    storage.insert(VectorId::new(1), &bits(&[1.0, 1.0])).unwrap();
    storage.insert(VectorId::new(2), &bits(&[2.0, 2.0])).unwrap();
    storage.insert(VectorId::new(3), &bits(&[3.0, 3.0])).unwrap();

    assert_eq!(storage.remove(VectorId::new(1)), Some(bits(&[1.0, 1.0])));
    assert_eq!(
        storage.get(VectorId::new(3)),
        Some(bits(&[3.0, 3.0]).as_slice())
    );
    assert_eq!(storage.len(), 2);
    assert!(!storage.contains(VectorId::new(1)));
}

#[test]
fn remove_moves_the_last_row_into_the_gap() {
    let mut storage = VectorStorage::new(1).unwrap();
    for id in 1..=4u64 {
        storage.insert(VectorId::new(id), &[id as u32]).unwrap();
    }
    storage.remove(VectorId::new(2)).unwrap();
    assert_eq!(
        storage.ids(),
        &[VectorId::new(1), VectorId::new(4), VectorId::new(3)]
    );
    assert_eq!(storage.vectors(), &[1, 4, 3]);
    assert_eq!(storage.vector(1), &[4]);
    assert_eq!(storage.get(VectorId::new(4)), Some([4u32].as_slice()));
    assert_eq!(storage.remove(VectorId::new(2)), None);
    assert_eq!(storage.remove(VectorId::new(3)), Some(vec![3]));
    assert_eq!(storage.ids(), &[VectorId::new(1), VectorId::new(4)]);
}

#[test]
fn from_parts_checks_length_and_duplicates() {
    assert!(matches!(
        VectorStorage::from_parts(0, vec![], vec![]),
        Err(Error::ZeroDimensions)
    ));
    assert!(matches!(
        VectorStorage::from_parts(2, vec![VectorId::new(1)], vec![1, 2, 3]),
        Err(Error::CorruptedFile("vector payload length does not match header"))
    ));
    assert!(matches!(
        VectorStorage::from_parts(1, vec![VectorId::new(1), VectorId::new(1)], vec![1, 2]),
        Err(Error::CorruptedFile("duplicate vector id"))
    ));
    let storage =
        VectorStorage::from_parts(1, vec![VectorId::new(5), VectorId::new(6)], vec![10, 20])
            .unwrap();
    assert_eq!(storage.get(VectorId::new(6)), Some([20u32].as_slice()));
    assert_eq!(storage.dimensions(), 1);
    assert!(!storage.is_empty());
}

#[test]
fn vector_ids_convert() {
    assert_eq!(VectorId::from(9u64), VectorId::new(9));
    assert_eq!(VectorId::new(42).get(), 42);
}

#[test]
fn io_errors_convert() {
    let error: Error = std::io::Error::new(std::io::ErrorKind::NotFound, "missing").into();
    assert!(matches!(error, Error::Io(inner) if inner.kind() == std::io::ErrorKind::NotFound));
}

#[test]
fn ids_and_errors_have_messages() {
    assert_eq!(VectorId::new(0).to_string(), "0");
    assert_eq!(VectorId::new(1234567890).to_string(), "1234567890");
    assert_eq!(VectorId::new(u64::MAX).to_string(), "18446744073709551615");
    assert_eq!(Error::ZeroDimensions.to_string(), "dimensions must be greater than zero");
    assert_eq!(
        Error::DimensionMismatch { expected: 3, actual: 10 }.to_string(),
        "dimension mismatch: expected 3, got 10"
    );
    assert_eq!(
        Error::DuplicateId(VectorId::new(7)).to_string(),
        "vector id 7 already exists"
    );
    assert_eq!(
        Error::NonFiniteValue.to_string(),
        "vectors must contain only finite f32 values"
    );
    assert_eq!(
        Error::ZeroVectorForCosine.to_string(),
        "cosine similarity is undefined for zero vectors"
    );
    assert_eq!(
        Error::InvalidSnapshot("invalid metric id").to_string(),
        "invalid snapshot: invalid metric id"
    );
    assert_eq!(
        Error::UnsupportedSnapshotVersion(2).to_string(),
        "unsupported snapshot version 2"
    );
    assert_eq!(
        Error::CorruptedFile("duplicate vector id").to_string(),
        "corrupted snapshot: duplicate vector id"
    );
    assert_eq!(
        Error::Io(std::io::Error::new(std::io::ErrorKind::Other, "disk full")).to_string(),
        "disk full"
    );
}
