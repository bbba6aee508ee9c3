use vector_search::collection::CollectionConfig;
use vector_search::errors::VectorDbError;
use vector_search::metric::Metric;
use vector_search::registry::Registry;

fn config() -> CollectionConfig {
    CollectionConfig {
        distance: Metric::L2,
        max_neighbors_per_node: 8,
        search_breadth: 32,
        max_elements: 100,
    }
}

#[test]
fn create_list_and_search() {
    let mut reg = Registry::new();
    reg.create(String::from("docs"), config(), 3).unwrap();
    reg.create(String::from("images"), config(), 2).unwrap();
    let names = reg.list();
    assert_eq!(names.len(), 2);
    assert_eq!(names[0], "docs");
    assert_eq!(names[1], "images");
    let name = String::from("docs");
    reg.upsert(
        &name,
        vec![1, 2, 3],
        vec![vec![0, 0, 0], vec![1, 0, 0], vec![0, 5, 0]],
        vec![String::new(), String::new(), String::new()],
    )
    .unwrap();
    let hits = reg.search(&name, &vec![0, 0, 0], 2).unwrap();
    assert_eq!(hits.len(), 2);
    assert_eq!((hits[0].id, hits[0].distance), (1, 0));
    assert_eq!((hits[1].id, hits[1].distance), (2, 1));
}

#[test]
fn create_is_strict() {
    let mut reg = Registry::new();
    reg.create(String::from("docs"), config(), 3).unwrap();
    let r = reg.create(String::from("docs"), config(), 3);
    assert_eq!(r, Err(VectorDbError::AlreadyExists));
    assert_eq!(reg.list().len(), 1);
}

#[test]
fn unknown_collection_not_found() {
    let mut reg = Registry::new();
    let name = String::from("missing");
    assert_eq!(
        reg.search(&name, &vec![0, 0], 1),
        Err(VectorDbError::NotFound)
    );
    assert_eq!(
        reg.upsert(&name, vec![1], vec![vec![0, 0]], vec![String::new()]),
        Err(VectorDbError::NotFound)
    );
}

#[test]
fn invalid_config_through_registry() {
    let mut reg = Registry::new();
    let bad = CollectionConfig {
        distance: Metric::L2,
        max_neighbors_per_node: 8,
        search_breadth: 0,
        max_elements: 100,
    };
    let r = reg.create(String::from("docs"), bad, 3);
    assert_eq!(r, Err(VectorDbError::InvalidConfig));
    assert_eq!(reg.list().len(), 0);
}

#[test]
fn disjoint_upserts_keep_both_ranges() {
    // two batches of disjoint id ranges into one collection: whichever
    // order they apply in, nothing is lost
    let mut reg = Registry::new();
    reg.create(String::from("docs"), config(), 1).unwrap();
    let name = String::from("docs");
    let low_ids: Vec<u64> = (0..10).collect();
    let low_vecs: Vec<Vec<i32>> = (0..10).map(|i| vec![i as i32]).collect();
    let high_ids: Vec<u64> = (100..110).collect();
    let high_vecs: Vec<Vec<i32>> = (100..110).map(|i| vec![i as i32]).collect();
    let pays: Vec<String> = (0..10).map(|_| String::new()).collect();
    reg.upsert(&name, low_ids.clone(), low_vecs.clone(), pays.clone()).unwrap();
    reg.upsert(&name, high_ids.clone(), high_vecs.clone(), pays.clone()).unwrap();
    let hits = reg.search(&name, &vec![0], 20).unwrap();
    assert_eq!(hits.len(), 20);
    let mut ids: Vec<u64> = hits.iter().map(|h| h.id).collect();
    ids.sort();
    for i in 0..10 {
        assert_eq!(ids[i], i as u64);
        assert_eq!(ids[10 + i], 100 + i as u64);
    }

    // and in the opposite order
    let mut reg2 = Registry::new();
    reg2.create(String::from("docs"), config(), 1).unwrap();
    reg2.upsert(&name, high_ids, high_vecs, pays.clone()).unwrap();
    reg2.upsert(&name, low_ids, low_vecs, pays).unwrap();
    let hits2 = reg2.search(&name, &vec![0], 20).unwrap();
    assert_eq!(hits2.len(), 20);
    let mut ids2: Vec<u64> = hits2.iter().map(|h| h.id).collect();
    ids2.sort();
    assert_eq!(ids, ids2);
}

#[test]
fn error_messages_are_stable() {
    assert_eq!(VectorDbError::NotFound.message(), "collection not found");
    assert_eq!(VectorDbError::CapacityExceeded.message(), "index capacity exceeded");
}
