use wegdort::file_persistence::FilePersistence;
use wegdort::index::{best_first, RankOrder, SearchResult};
use wegdort::memory::{InMemoryStorage, Storage};
use wegdort::vector::Vector;

fn vector(values: &[f32]) -> Vector {
    Vector::new(values.iter().map(|value| value.to_bits()).collect())
}

#[test]
fn in_memory_storage_inserts_gets_and_removes() {
    let mut storage = InMemoryStorage::new();
    storage.insert(1, vector(&[1.0, 0.0]));
    storage.insert(2, vector(&[0.0, 1.0]));
    storage.insert(1, vector(&[0.5, 0.5]));

    assert_eq!(storage.get(1), Some(&vector(&[0.5, 0.5])));
    assert_eq!(storage.get(3), None);

    let mut ids = storage.list_ids();
    ids.sort();
    assert_eq!(ids, vec![1, 2]);

    assert_eq!(storage.remove(2), Some(vector(&[0.0, 1.0])));
    assert_eq!(storage.remove(2), None);
    assert_eq!(storage.list_ids(), vec![1]);
}

#[test]
fn vector_reports_its_dimension() {
    let v = vector(&[1.0, 2.0, 3.0]);
    assert_eq!(v.dims(), 3);
    assert_eq!(v.values()[1], 2.0f32.to_bits());
}

#[test]
fn file_persistence_keeps_its_path() {
    let persistence = FilePersistence::new("wegdort.db");
    assert_eq!(persistence.path(), "wegdort.db");
}

fn l2(a: &Vector, b: &Vector) -> f32 {
    a.values()
        .iter()
        .zip(b.values())
        .map(|(x, y)| (f32::from_bits(*x) - f32::from_bits(*y)).powi(2))
        .sum::<f32>()
        .sqrt()
}

fn cosine(a: &Vector, b: &Vector) -> f32 {
    let a: Vec<f32> = a.values().iter().map(|x| f32::from_bits(*x)).collect();
    let b: Vec<f32> = b.values().iter().map(|x| f32::from_bits(*x)).collect();
    let dot: f32 = a.iter().zip(&b).map(|(x, y)| x * y).sum();
    let norm_a: f32 = a.iter().map(|x| x * x).sum::<f32>().sqrt();
    let norm_b: f32 = b.iter().map(|x| x * x).sum::<f32>().sqrt();
    dot / (norm_a * norm_b)
}

fn flat_search(
    storage: &InMemoryStorage,
    query: &Vector,
    k: usize,
    measure: fn(&Vector, &Vector) -> f32,
    order: RankOrder,
) -> Vec<SearchResult> {
    let results = storage
        .list_ids()
        .into_iter()
        .filter_map(|id| {
            storage.get(id).map(|v| SearchResult {
                id,
                distance_bits: measure(query, v).to_bits(),
            })
        })
        .collect();
    best_first(results, order, k)
}

#[test]
fn test_basic_search() {
    let mut storage = InMemoryStorage::new();
    storage.insert(1, vector(&[1.0, 0.0]));
    storage.insert(2, vector(&[0.0, 1.0]));

    let query = vector(&[1.0, 0.1]);
    let results = flat_search(&storage, &query, 1, l2, RankOrder::SmallerFirst);

    assert_eq!(results.len(), 1);
    assert_eq!(results[0].id, 1);
}

fn result(id: u64, distance: f32) -> SearchResult {
    SearchResult {
        id,
        distance_bits: distance.to_bits(),
    }
}

#[test]
fn cosine_search_puts_the_most_similar_first() {
    let mut storage = InMemoryStorage::new();
    storage.insert(1, vector(&[1.0, 0.0]));
    storage.insert(2, vector(&[0.0, 1.0]));

    let query = vector(&[1.0, 0.1]);
    let results = flat_search(&storage, &query, 1, cosine, RankOrder::LargerFirst);

    assert_eq!(results.len(), 1);
    assert_eq!(results[0].id, 1);
}

#[test]
fn best_first_is_a_stable_sort() {
    let results = vec![
        result(1, 2.0),
        result(2, 0.5),
        result(3, 2.0),
        result(4, -0.0),
        result(5, 0.0),
        result(6, f32::INFINITY),
    ];
    let smaller: Vec<u64> = best_first(results.clone(), RankOrder::SmallerFirst, 10)
        .iter()
        .map(|r| r.id)
        .collect();
    assert_eq!(smaller, vec![4, 5, 2, 1, 3, 6]);
    let smaller: Vec<u64> = best_first(results.clone(), RankOrder::SmallerFirst, 3)
        .iter()
        .map(|r| r.id)
        .collect();
    assert_eq!(smaller, vec![4, 5, 2]);
    let larger: Vec<u64> = best_first(results, RankOrder::LargerFirst, 10)
        .iter()
        .map(|r| r.id)
        .collect();
    assert_eq!(larger, vec![6, 1, 3, 2, 4, 5]);
    assert!(best_first(vec![result(9, 1.0)], RankOrder::LargerFirst, 0).is_empty());
    let single = best_first(vec![result(9, f32::NAN)], RankOrder::SmallerFirst, 1);
    assert_eq!(single[0].id, 9);
}
