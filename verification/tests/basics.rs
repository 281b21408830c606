use gcm_trace::cluster::{reorder, ClusteringResult};

#[test]
fn reorder_puts_smaller_first() {
    assert_eq!(reorder(5, 2), (2, 5));
    assert_eq!(reorder(2, 5), (2, 5));
    assert_eq!(reorder(3, 3), (3, 3));
}

#[test]
fn new_result_has_no_score() {
    let r = ClusteringResult::new(vec![vec![(0, 0), (1, 0)]]);
    assert_eq!(r.mwt_am, 0);
    assert_eq!(r.clusters, vec![vec![(0, 0), (1, 0)]]);
}
