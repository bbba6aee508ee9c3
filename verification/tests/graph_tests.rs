use vector_search::graph::effective_breadth;

#[test]
fn breadth_clamped_to_top_k() {
    // a beam width below top_k is raised to top_k; a larger one is kept
    assert_eq!(effective_breadth(4, 10), 10);
    assert_eq!(effective_breadth(16, 10), 16);
    assert_eq!(effective_breadth(0, 1), 1);
    assert_eq!(effective_breadth(7, 7), 7);
}
