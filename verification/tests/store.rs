use wegdort::{Error, Metric, SearchHit, SearchSnapshot, Store, UpsertResult, VectorId};

fn bits(values: &[f32]) -> Vec<u32> {
    values.iter().map(|value| value.to_bits()).collect()
}

fn dot(a: &[f32], b: &[f32]) -> f32 {
    a.iter().zip(b).map(|(x, y)| x * y).sum()
}

fn score(metric: Metric, query: &[f32], vector: &[f32]) -> f32 {
    match metric {
        Metric::Cosine => dot(query, vector) / (dot(query, query).sqrt() * dot(vector, vector).sqrt()),
        Metric::Dot => dot(query, vector),
        Metric::SquaredL2 => query.iter().zip(vector).map(|(x, y)| (x - y) * (x - y)).sum(),
    }
}

/// The score of `query` against each row of a flat row-major buffer.
fn scores(metric: Metric, dims: usize, vectors: &[u32], query: &[f32]) -> Vec<u32> {
    vectors
        .chunks(dims)
        .map(|row| {
            let vector: Vec<f32> = row.iter().map(|value| f32::from_bits(*value)).collect();
            score(metric, query, &vector).to_bits()
        })
        .collect()
}

fn search_store(store: &Store, query: &[f32], k: usize) -> Result<Vec<SearchHit>, Error> {
    store.validate_input(&bits(query))?;
    let query_scores = scores(store.metric(), store.dimensions(), store.vectors(), query);
    store.search(&bits(query), &query_scores, k)
}

fn search_snapshot(snapshot: &SearchSnapshot, query: &[f32], k: usize) -> Result<Vec<SearchHit>, Error> {
    let query_scores = scores(snapshot.metric(), snapshot.dimensions(), snapshot.vectors(), query);
    snapshot.search(&bits(query), &query_scores, k)
}

#[test]
fn insert_get_contains_and_len_work() {
    let mut store = Store::new(2, Metric::Dot).unwrap();
    store.insert(VectorId::new(1), &bits(&[1.0, 2.0])).unwrap();

    assert_eq!(store.get(VectorId::new(1)), Some(bits(&[1.0, 2.0]).as_slice()));
    assert!(store.contains(VectorId::new(1)));
    assert_eq!(store.len(), 1);
    assert!(!store.is_empty());
}

#[test]
fn insert_rejects_duplicate_id() {
    let mut store = Store::new(2, Metric::Dot).unwrap();
    store.insert(VectorId::new(1), &bits(&[1.0, 2.0])).unwrap();
    assert!(matches!(
        store.insert(VectorId::new(1), &bits(&[2.0, 3.0])),
        Err(Error::DuplicateId(id)) if id == VectorId::new(1)
    ));
}

#[test]
fn upsert_inserts_and_replaces() {
    let mut store = Store::new(2, Metric::Dot).unwrap();
    assert_eq!(
        store.upsert(VectorId::new(1), &bits(&[1.0, 2.0])).unwrap(),
        UpsertResult::Inserted
    );
    assert_eq!(
        store.upsert(VectorId::new(1), &bits(&[3.0, 4.0])).unwrap(),
        UpsertResult::Replaced
    );
    assert_eq!(store.get(VectorId::new(1)), Some(bits(&[3.0, 4.0]).as_slice()));
}

#[test]
fn rejects_dimension_mismatch() {
    let mut store = Store::new(2, Metric::Dot).unwrap();
    assert!(matches!(
        store.insert(VectorId::new(1), &bits(&[1.0])),
        Err(Error::DimensionMismatch {
            expected: 2,
            actual: 1
        })
    ));
}

#[test]
fn searches_top_k() {
    let mut store = Store::new(2, Metric::SquaredL2).unwrap();
    store.insert(VectorId::new(1), &bits(&[5.0, 5.0])).unwrap();
    store.insert(VectorId::new(2), &bits(&[1.0, 1.0])).unwrap();

    let hits = search_store(&store, &[0.0, 0.0], 1).unwrap();
    assert_eq!(hits.len(), 1);
    assert_eq!(hits[0].id, VectorId::new(2));
}

#[test]
fn snapshot_is_not_changed_by_store_mutation() {
    let mut store = Store::new(2, Metric::Dot).unwrap();
    store.insert(VectorId::new(1), &bits(&[1.0, 0.0])).unwrap();
    let snapshot = store.snapshot();

    store.upsert(VectorId::new(1), &bits(&[0.0, 1.0])).unwrap();

    let snapshot_hits = search_snapshot(&snapshot, &[1.0, 0.0], 1).unwrap();
    let store_hits = search_store(&store, &[1.0, 0.0], 1).unwrap();
    assert_eq!(f32::from_bits(snapshot_hits[0].score_bits), 1.0);
    assert_eq!(f32::from_bits(store_hits[0].score_bits), 0.0);
}

#[test]
fn rejects_zero_dimension_store() {
    assert!(matches!(Store::new(0, Metric::Dot), Err(Error::ZeroDimensions)));
}

#[test]
fn rejects_invalid_vectors_and_keeps_store_unchanged() {
    let mut store = Store::new(2, Metric::Cosine).unwrap();
    assert!(matches!(
        store.insert(VectorId::new(1), &bits(&[0.0, 0.0])),
        Err(Error::ZeroVectorForCosine)
    ));
    assert!(matches!(
        store.upsert(VectorId::new(1), &bits(&[f32::NAN, 1.0])),
        Err(Error::NonFiniteValue)
    ));
    assert!(matches!(
        store.upsert(VectorId::new(1), &bits(&[1.0, 1.0, 1.0])),
        Err(Error::DimensionMismatch { expected: 2, actual: 3 })
    ));
    assert!(store.is_empty());
}

#[test]
fn remove_returns_the_vector_once() {
    let mut store = Store::new(2, Metric::Dot).unwrap();
    store.insert(VectorId::new(1), &bits(&[1.0, 2.0])).unwrap();
    store.insert(VectorId::new(2), &bits(&[3.0, 4.0])).unwrap();
    assert_eq!(store.remove(VectorId::new(1)), Some(bits(&[1.0, 2.0])));
    assert_eq!(store.remove(VectorId::new(1)), None);
    assert_eq!(store.get(VectorId::new(1)), None);
    assert_eq!(store.get(VectorId::new(2)), Some(bits(&[3.0, 4.0]).as_slice()));
    assert_eq!(store.len(), 1);
    assert_eq!(store.ids(), &[VectorId::new(2)]);
}

#[test]
fn snapshot_copies_the_store() {
    let mut store = Store::new(3, Metric::Cosine).unwrap();
    store.insert(VectorId::new(1), &bits(&[1.0, 0.0, 0.0])).unwrap();
    store.insert(VectorId::new(2), &bits(&[0.0, 1.0, 0.0])).unwrap();
    store.insert(VectorId::new(3), &bits(&[0.0, 0.2, 0.8])).unwrap();
    let snapshot = store.snapshot();
    assert_eq!(snapshot.len(), 3);
    assert_eq!(snapshot.dimensions(), 3);
    assert_eq!(snapshot.metric(), Metric::Cosine);
    assert!(!snapshot.is_empty());
    assert_eq!(snapshot.ids(), store.ids());
    assert_eq!(snapshot.vectors(), store.vectors());

    let hits = search_snapshot(&snapshot, &[0.0, 0.0, 1.0], 2).unwrap();
    assert_eq!(hits[0].id, VectorId::new(3));
    assert_eq!(hits.len(), 2);
}

#[test]
fn clone_is_independent() {
    let mut store = Store::new(2, Metric::Dot).unwrap();
    store.insert(VectorId::new(1), &bits(&[1.0, 2.0])).unwrap();
    let copy = store.clone();
    store.remove(VectorId::new(1)).unwrap();
    assert_eq!(copy.get(VectorId::new(1)), Some(bits(&[1.0, 2.0]).as_slice()));
    assert_eq!(copy.len(), 1);
    assert!(store.is_empty());
    let snapshot = copy.snapshot().clone();
    assert_eq!(snapshot.ids(), &[VectorId::new(1)]);
}

#[test]
fn removing_a_fresh_insert_restores_the_store() {
    let mut store = Store::new(2, Metric::SquaredL2).unwrap();
    store.insert(VectorId::new(3), &bits(&[3.0, 3.0])).unwrap();
    store.insert(VectorId::new(1), &bits(&[1.0, 1.0])).unwrap();
    let ids_before = store.ids().to_vec();
    let vectors_before = store.vectors().to_vec();

    store.insert(VectorId::new(2), &bits(&[2.0, 2.0])).unwrap();
    assert_eq!(store.remove(VectorId::new(2)), Some(bits(&[2.0, 2.0])));

    assert_eq!(store.ids(), ids_before.as_slice());
    assert_eq!(store.vectors(), vectors_before.as_slice());
}

#[test]
fn repeated_searches_agree() {
    let mut store = Store::new(2, Metric::Cosine).unwrap();
    for (id, values) in [(4u64, [1.0f32, 1.0]), (2, [1.0, 1.0]), (9, [-1.0, 0.5])] {
        store.insert(VectorId::new(id), &bits(&values)).unwrap();
    }
    let first = search_store(&store, &[1.0, 0.9], 3).unwrap();
    let second = search_store(&store, &[1.0, 0.9], 3).unwrap();
    assert_eq!(first, second);
    assert_eq!(
        first.iter().map(|hit| hit.id.get()).collect::<Vec<_>>(),
        vec![2, 4, 9]
    );
}
