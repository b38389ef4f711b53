use wegdort::search::{rank_hits, search_storage};
use wegdort::storage::VectorStorage;
use wegdort::{Error, Metric, VectorId};

fn bits(values: &[f32]) -> Vec<u32> {
    values.iter().map(|value| value.to_bits()).collect()
}

fn dot(a: &[f32], b: &[f32]) -> f32 {
    a.iter().zip(b).map(|(x, y)| x * y).sum()
}

fn score(metric: Metric, query: &[f32], vector: &[f32]) -> f32 {
    match metric {
        Metric::Cosine => dot(query, vector) / (dot(query, query).sqrt() * dot(vector, vector).sqrt()),
        Metric::Dot => dot(query, vector),
        Metric::SquaredL2 => query.iter().zip(vector).map(|(x, y)| (x - y) * (x - y)).sum(),
    }
}

/// The score of `query` against every row of `storage`, as bit patterns.
fn scores(storage: &VectorStorage, metric: Metric, query: &[f32]) -> Vec<u32> {
    let dims = storage.dimensions();
    (0..storage.len())
        .map(|row| {
            let vector: Vec<f32> = storage.vectors()[row * dims..(row + 1) * dims]
                .iter()
                .map(|value| f32::from_bits(*value))
                .collect();
            score(metric, query, &vector).to_bits()
        })
        .collect()
}

fn search(
    storage: &VectorStorage,
    metric: Metric,
    query: &[f32],
    k: usize,
) -> Result<Vec<wegdort::SearchHit>, Error> {
    let query_scores = if query.len() == storage.dimensions() {
        scores(storage, metric, query)
    } else {
        vec![0; storage.len()]
    };
    search_storage(storage, metric, &bits(query), &query_scores, k)
}

#[test]
fn returns_empty_for_zero_k() {
    let mut storage = VectorStorage::new(2).unwrap();
    storage.insert(VectorId::new(1), &bits(&[1.0, 0.0])).unwrap();
    let hits = search(&storage, Metric::Dot, &[1.0, 0.0], 0).unwrap();
    assert!(hits.is_empty());
}

#[test]
fn orders_similarity_highest_first_with_id_tie_break() {
    let mut storage = VectorStorage::new(2).unwrap();
    storage.insert(VectorId::new(2), &bits(&[1.0, 0.0])).unwrap();
    storage.insert(VectorId::new(1), &bits(&[1.0, 0.0])).unwrap();
    storage.insert(VectorId::new(3), &bits(&[0.0, 1.0])).unwrap();

    let hits = search(&storage, Metric::Dot, &[1.0, 0.0], 3).unwrap();
    assert_eq!(
        hits.iter().map(|hit| hit.id).collect::<Vec<_>>(),
        vec![VectorId::new(1), VectorId::new(2), VectorId::new(3),]
    );
}

#[test]
fn orders_distance_lowest_first() {
    let mut storage = VectorStorage::new(2).unwrap();
    storage.insert(VectorId::new(1), &bits(&[5.0, 5.0])).unwrap();
    storage.insert(VectorId::new(2), &bits(&[1.0, 1.0])).unwrap();

    let hits = search(&storage, Metric::SquaredL2, &[0.0, 0.0], 2).unwrap();
    assert_eq!(hits[0].id, VectorId::new(2));
}

#[test]
fn rejects_wrong_query_dimensions() {
    let storage = VectorStorage::new(2).unwrap();
    assert!(matches!(
        search(&storage, Metric::Dot, &[1.0], 1),
        Err(Error::DimensionMismatch {
            expected: 2,
            actual: 1
        })
    ));
}

#[test]
fn rejects_invalid_queries() {
    let mut storage = VectorStorage::new(2).unwrap();
    storage.insert(VectorId::new(1), &bits(&[1.0, 0.0])).unwrap();
    assert!(matches!(
        search(&storage, Metric::Dot, &[f32::NAN, 0.0], 1),
        Err(Error::NonFiniteValue)
    ));
    assert!(matches!(
        search(&storage, Metric::Cosine, &[0.0, 0.0], 1),
        Err(Error::ZeroVectorForCosine)
    ));
}

#[test]
fn keeps_only_the_k_best() {
    let ids: Vec<VectorId> = (1..=6).map(VectorId::new).collect();
    let values = [3.0f32, 9.0, 1.0, 9.0, 7.0, -2.0];
    let scores: Vec<u32> = values.iter().map(|v| v.to_bits()).collect();

    let best = rank_hits(Metric::Dot, &ids, &scores, 3);
    assert_eq!(
        best.iter().map(|hit| hit.id.get()).collect::<Vec<_>>(),
        vec![2, 4, 5]
    );
    assert_eq!(f32::from_bits(best[0].score_bits), 9.0);

    let nearest = rank_hits(Metric::SquaredL2, &ids, &scores, 2);
    assert_eq!(
        nearest.iter().map(|hit| hit.id.get()).collect::<Vec<_>>(),
        vec![6, 3]
    );

    let all = rank_hits(Metric::Dot, &ids, &scores, 100);
    assert_eq!(
        all.iter().map(|hit| hit.id.get()).collect::<Vec<_>>(),
        vec![2, 4, 5, 1, 3, 6]
    );
}

#[test]
fn ranks_by_total_order() {
    let ids: Vec<VectorId> = (1..=4).map(VectorId::new).collect();
    let scores: Vec<u32> = [f32::NAN, 1.0, -0.0, 0.0].iter().map(|v| v.to_bits()).collect();
    let hits = rank_hits(Metric::Dot, &ids, &scores, 4);
    assert_eq!(
        hits.iter().map(|hit| hit.id.get()).collect::<Vec<_>>(),
        vec![1, 2, 4, 3]
    );
}
