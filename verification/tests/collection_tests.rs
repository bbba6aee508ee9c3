use vector_search::collection::{Collection, CollectionConfig};
use vector_search::errors::VectorDbError;
use vector_search::metric::Metric;

fn config(max_elements: usize) -> CollectionConfig {
    CollectionConfig {
        distance: Metric::L2,
        max_neighbors_per_node: 8,
        search_breadth: 32,
        max_elements,
    }
}

fn docs_collection() -> Collection {
    let mut c = Collection::new(config(100), 3).unwrap();
    let ids: Vec<u64> = vec![1, 2, 3];
    let vectors: Vec<Vec<i32>> = vec![vec![0, 0, 0], vec![1, 0, 0], vec![0, 5, 0]];
    let payloads: Vec<String> = vec![String::new(), String::new(), String::new()];
    c.upsert(ids, vectors, payloads).unwrap();
    c
}

#[test]
fn docs_scenario_l2_top2() {
    // create "docs" with dim 3 and L2; search [0,0,0] with top_k = 2:
    // nearest is id 1 at distance 0, then id 2 at raw squared distance 1
    let c = docs_collection();
    let hits = c.search(&vec![0, 0, 0], 2).unwrap();
    assert_eq!(hits.len(), 2);
    assert_eq!(hits[0].id, 1);
    assert_eq!(hits[0].distance, 0);
    assert_eq!(hits[1].id, 2);
    assert_eq!(hits[1].distance, 1);
}

#[test]
fn upsert_then_self_search_returns_inserted() {
    let mut c = Collection::new(config(100), 2).unwrap();
    let ids: Vec<u64> = vec![10, 20, 30, 40];
    let vectors: Vec<Vec<i32>> = vec![vec![0, 0], vec![7, 1], vec![-3, 9], vec![100, 100]];
    let payloads: Vec<String> = vec![
        String::from("a"),
        String::from("b"),
        String::from("c"),
        String::from("d"),
    ];
    c.upsert(ids, vectors, payloads).unwrap();
    let hits = c.search(&vec![-3, 9], 1).unwrap();
    assert_eq!(hits.len(), 1);
    assert_eq!(hits[0].id, 30);
    assert_eq!(hits[0].distance, 0);
}

#[test]
fn round_trip_all_records() {
    let mut c = Collection::new(config(100), 2).unwrap();
    let n: usize = 20;
    let mut ids: Vec<u64> = Vec::new();
    let mut vectors: Vec<Vec<i32>> = Vec::new();
    let mut payloads: Vec<String> = Vec::new();
    for i in 0..n {
        ids.push(1000 + i as u64);
        vectors.push(vec![i as i32 * 3, 50 - i as i32]);
        payloads.push(String::new());
    }
    c.upsert(ids, vectors, payloads).unwrap();
    let hits = c.search(&vec![0, 0], n).unwrap();
    assert_eq!(hits.len(), n);
    // every id exactly once
    let mut seen: Vec<u64> = hits.iter().map(|h| h.id).collect();
    seen.sort();
    for i in 0..n {
        assert_eq!(seen[i], 1000 + i as u64);
    }
    // distances never decrease
    for i in 1..n {
        assert!(hits[i - 1].distance <= hits[i].distance);
    }
}

#[test]
fn search_is_idempotent() {
    let c = docs_collection();
    let q: Vec<i32> = vec![1, 2, 3];
    let first = c.search(&q, 3).unwrap();
    let second = c.search(&q, 3).unwrap();
    assert_eq!(first, second);
}

#[test]
fn top_k_larger_than_breadth_still_fills() {
    // the effective beam width is raised to top_k internally
    let mut c = Collection::new(
        CollectionConfig {
            distance: Metric::L2,
            max_neighbors_per_node: 2,
            search_breadth: 1,
            max_elements: 50,
        },
        1,
    )
    .unwrap();
    let ids: Vec<u64> = (0..10).collect();
    let vectors: Vec<Vec<i32>> = (0..10).map(|i| vec![i as i32]).collect();
    let payloads: Vec<String> = (0..10).map(|_| String::new()).collect();
    c.upsert(ids, vectors, payloads).unwrap();
    let hits = c.search(&vec![0], 10).unwrap();
    assert_eq!(hits.len(), 10);
}

#[test]
fn capacity_boundary() {
    let mut c = Collection::new(config(5), 1).unwrap();
    for i in 0..5u64 {
        c.upsert(vec![i], vec![vec![i as i32]], vec![String::new()]).unwrap();
    }
    // the sixth insertion fails and the collection keeps its 5 records
    let r = c.upsert(vec![5], vec![vec![5]], vec![String::new()]);
    assert_eq!(r, Err(VectorDbError::CapacityExceeded));
    assert_eq!(c.records.len(), 5);
    let hits = c.search(&vec![0], 10).unwrap();
    assert_eq!(hits.len(), 5);
}

#[test]
fn dimension_mismatch_leaves_count_unchanged() {
    let mut c = docs_collection();
    let before = c.records.len();
    let r = c.upsert(
        vec![7, 8],
        vec![vec![1, 2, 3], vec![1, 2]],
        vec![String::new(), String::new()],
    );
    assert_eq!(r, Err(VectorDbError::DimensionMismatch));
    assert_eq!(c.records.len(), before);
}

#[test]
fn arity_mismatch_rejected() {
    let mut c = docs_collection();
    let r = c.upsert(vec![7], vec![], vec![String::new()]);
    assert_eq!(r, Err(VectorDbError::ArityMismatch));
    assert_eq!(c.records.len(), 3);
}

#[test]
fn query_dimension_checked() {
    let c = docs_collection();
    let r = c.search(&vec![0, 0], 1);
    assert_eq!(r, Err(VectorDbError::DimensionMismatch));
}

#[test]
fn invalid_config_rejected() {
    let bad = CollectionConfig {
        distance: Metric::L2,
        max_neighbors_per_node: 0,
        search_breadth: 16,
        max_elements: 10,
    };
    assert_eq!(Collection::new(bad, 3).err(), Some(VectorDbError::InvalidConfig));
    assert_eq!(Collection::new(config(10), 0).err(), Some(VectorDbError::InvalidConfig));
}

#[test]
fn empty_collection_search_is_empty() {
    let c = Collection::new(config(10), 2).unwrap();
    let hits = c.search(&vec![1, 1], 5).unwrap();
    assert_eq!(hits.len(), 0);
}

#[test]
fn payload_stored_verbatim() {
    let mut c = Collection::new(config(10), 1).unwrap();
    let blob = String::from("{\"tag\":\"kept as is\"}");
    c.upsert(vec![1], vec![vec![4]], vec![blob.clone()]).unwrap();
    assert_eq!(c.records[0].payload, blob);
}

#[test]
fn duplicate_id_appends_second_record() {
    // append-duplicate policy: re-upserting an id adds a second record
    let mut c = Collection::new(config(10), 1).unwrap();
    c.upsert(vec![1], vec![vec![0]], vec![String::new()]).unwrap();
    c.upsert(vec![1], vec![vec![9]], vec![String::new()]).unwrap();
    assert_eq!(c.records.len(), 2);
    let hits = c.search(&vec![0], 2).unwrap();
    assert_eq!(hits.len(), 2);
    assert_eq!(hits[0].id, 1);
    assert_eq!(hits[1].id, 1);
}

#[test]
fn cosine_collection_scenario() {
    let mut c = Collection::new(
        CollectionConfig {
            distance: Metric::Cosine,
            max_neighbors_per_node: 4,
            search_breadth: 16,
            max_elements: 10,
        },
        2,
    )
    .unwrap();
    let ids: Vec<u64> = vec![1, 2, 3];
    // same direction as the query, orthogonal, opposite
    let vectors: Vec<Vec<i32>> = vec![vec![2, 0], vec![0, 3], vec![-5, 0]];
    let payloads: Vec<String> = vec![String::new(), String::new(), String::new()];
    c.upsert(ids, vectors, payloads).unwrap();
    let hits = c.search(&vec![1, 0], 3).unwrap();
    assert_eq!(hits.len(), 3);
    assert_eq!(hits[0].id, 1);
    assert_eq!(hits[0].distance, 0);
    assert_eq!(hits[1].id, 2);
    assert_eq!(hits[2].id, 3);
}
