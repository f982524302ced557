use ligra::node_set::NodeSubset;

#[test]
fn node_subset_empty() {
    let node_count = 42;
    let node_subset = NodeSubset::empty(node_count);
    assert_eq!(node_subset.node_count(), node_count);
    assert_eq!(node_subset.subset_count(), 0);
}

#[test]
fn node_subset_single() {
    let node_count = 42;
    let element = 1337;
    let node_subset = NodeSubset::single(node_count, element);
    assert_eq!(node_subset.node_count(), node_count);
    assert_eq!(node_subset.subset_count(), 1);
    assert_eq!(node_subset.nodes().as_slice(), &[element])
}

#[test]
fn node_subset_full() {
    let node_count = 42;
    let node_subset = NodeSubset::full(node_count);
    assert_eq!(node_subset.node_count(), node_count);
    assert_eq!(node_subset.subset_count(), node_count);
    assert!(node_subset.is_dense());
    for node_id in 0..node_count {
        assert!(node_subset.contains(node_id));
    }
}

#[test]
fn node_subset_sparse() {
    let node_count = 42;
    let subset_count = 23;
    let sparse = (0..subset_count).collect::<Vec<_>>();
    let node_subset = NodeSubset::sparse(node_count, sparse);
    assert!(!node_subset.is_dense());
    assert_eq!(node_subset.node_count(), node_count);
    assert_eq!(node_subset.subset_count(), subset_count);
}

#[test]
fn node_subset_sparse_counted() {
    let node_count = 42;
    let subset_count = 23;
    let sparse = (0..subset_count).collect::<Vec<_>>();
    let node_subset = NodeSubset::sparse_counted(node_count, subset_count, sparse);
    assert!(!node_subset.is_dense());
    assert_eq!(node_subset.node_count(), node_count);
    assert_eq!(node_subset.subset_count(), subset_count);
}

#[test]
fn node_subset_dense() {
    let node_count = 42;
    let subset_count = 23;
    let dense = (0..subset_count).map(|_| true).collect::<Vec<_>>();
    let node_subset = NodeSubset::dense(node_count, dense);
    assert!(node_subset.is_dense());
    assert_eq!(node_subset.node_count(), node_count);
    assert_eq!(node_subset.subset_count(), subset_count);
}

#[test]
fn node_subset_dense_counted() {
    let node_count = 42;
    let subset_count = 23;
    let dense = (0..subset_count).map(|_| true).collect::<Vec<_>>();
    let node_subset = NodeSubset::dense_counted(node_count, subset_count, dense);
    assert!(node_subset.is_dense());
    assert_eq!(node_subset.node_count(), node_count);
    assert_eq!(node_subset.subset_count(), subset_count);
}

#[test]
fn node_subset_is_empty() {
    let node_subset = NodeSubset::empty(42);
    assert!(node_subset.is_empty());
    let node_subset = NodeSubset::single(42, 1337);
    assert!(node_subset.is_empty() == false)
}

#[test]
fn node_subset_is_dense() {
    let mut node_subset = NodeSubset::full(42);
    assert!(node_subset.is_dense());
    node_subset.to_sparse();
    assert!(node_subset.is_dense() == false);
}

#[test]
fn node_subset_node() {
    let node_subset = NodeSubset::single(42, 1337);
    assert_eq!(node_subset.node(0), 1337);

    let node_subset = NodeSubset::sparse(42, vec![1, 9, 8, 4]);
    assert_eq!(node_subset.node(0), 1);
    assert_eq!(node_subset.node(1), 9);
    assert_eq!(node_subset.node(2), 8);
    assert_eq!(node_subset.node(3), 4);
}

#[test]
fn node_subset_nodes() {
    let nodes = (0..42).collect::<Vec<_>>();
    let node_subset = NodeSubset::sparse(42, nodes.clone());
    assert_eq!(node_subset.nodes().as_slice(), nodes.as_slice())
}

#[test]
fn node_subset_to_dense() {
    let nodes = (0..42).collect::<Vec<_>>();
    let mut node_subset = NodeSubset::sparse(42, nodes.clone());
    node_subset.to_dense();
    for node_id in nodes.iter() {
        assert!(node_subset.contains(*node_id))
    }
    node_subset.to_sparse();
    assert_eq!(node_subset.nodes().as_slice(), nodes.as_slice())
}

#[test]
fn node_subset_contains() {
    let mut node_subset = NodeSubset::sparse(42, vec![1, 3, 4, 7]);
    node_subset.to_dense();

    assert!(node_subset.contains(1));
    assert!(node_subset.contains(3));
    assert!(node_subset.contains(4));
    assert!(node_subset.contains(7));
    assert!(node_subset.contains(0) == false);
    assert!(node_subset.contains(2) == false);
    assert!(node_subset.contains(5) == false);
    assert!(node_subset.contains(6) == false);
}

#[test]
fn node_subset_to_sparse() {
    let nodes = (0..23).map(|_| true).collect::<Vec<_>>();
    let mut node_subset = NodeSubset::dense(42, nodes);
    node_subset.to_sparse();
    assert_eq!(
        node_subset.nodes().as_slice(),
        (0..23).collect::<Vec<_>>().as_slice()
    );
    node_subset.to_dense();
    for node_id in 0..23 {
        assert!(node_subset.contains(node_id));
    }
}

#[test]
fn node_subset_into_iter() {
    let nodes = vec![1, 9, 8, 4];
    let node_subset = NodeSubset::sparse(42, nodes.clone());
    assert!(nodes.into_iter().eq(node_subset.into_iter().into_iter()));
}

#[test]
fn node_subset_iter() {
    let nodes = vec![1, 9, 8, 4];
    let node_subset = NodeSubset::sparse(42, nodes.clone());
    assert!(nodes.iter().eq(node_subset.iter().iter()));
}

#[test]
fn node_subset_conversion_round_trip() {
    let mut set = NodeSubset::sparse(42, vec![1, 9, 8, 4]);
    set.to_dense();
    assert!(set.contains(1));
    assert!(set.contains(9));
    assert!(set.contains(8));
    assert!(set.contains(4));
    set.to_sparse();
    assert_eq!(set.subset_count(), 4);
    let mut members = set.iter();
    members.sort();
    assert_eq!(members, vec![1, 4, 8, 9]);
}

#[test]
fn node_subset_default() {
    let node_subset = NodeSubset::default();
    assert_eq!(node_subset.node_count(), 0);
    assert_eq!(node_subset.subset_count(), 0);
    assert!(!node_subset.is_dense());
}
