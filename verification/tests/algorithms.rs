use ligra::algos::bfs;
use ligra::algos::cc;
use ligra::graph::AdjacencyGraph;
use ligra::graph::AdjacencyList;

fn graph_from(offsets: Vec<usize>, targets: Vec<usize>) -> AdjacencyGraph {
    AdjacencyGraph::from_out_list(AdjacencyList::from_parts(&offsets, targets))
}

#[test]
fn graph_degrees_match_rows() {
    let g = graph_from(vec![0, 2, 3], vec![1, 2, 0]);
    assert_eq!(g.node_count(), 3);
    assert_eq!(g.rel_count(), 3);
    for v in 0..g.node_count() {
        assert_eq!(g.out_degree(v), g.out(v).len());
        assert_eq!(g.inc_degree(v), g.inc(v).len());
    }
    assert_eq!(g.out(0), &[1, 2]);
    assert_eq!(g.out(1), &[0]);
    assert_eq!(g.out(2), &[] as &[usize]);
}

#[test]
fn graph_adjacency_is_inverse_consistent() {
    let g = graph_from(vec![0, 2, 3], vec![1, 2, 0]);
    for u in 0..g.node_count() {
        for v in 0..g.node_count() {
            let forward = g.out(u).contains(&v);
            let backward = g.inc(v).contains(&u);
            assert_eq!(forward, backward);
        }
    }
    // sources within each in-neighbor slice come out ascending
    for v in 0..g.node_count() {
        let inc = g.inc(v);
        for w in inc.windows(2) {
            assert!(w[0] <= w[1]);
        }
    }
}

#[test]
fn bfs_path_graph() {
    let g = graph_from(vec![0, 1, 2, 3, 4], vec![1, 2, 3, 4]);
    let parents = bfs(&g, 0);
    assert_eq!(parents, vec![0, 0, 1, 2, 3]);
}

#[test]
fn bfs_disconnected_graph() {
    let g = graph_from(vec![0, 1, 1, 2], vec![1, 3]);
    let parents = bfs(&g, 0);
    assert_eq!(parents, vec![0, 0, usize::MAX, usize::MAX]);
}

#[test]
fn bfs_push_pull_equivalence() {
    let offsets = vec![0, 2, 4, 5, 6, 6, 7];
    let targets = vec![1, 2, 3, 4, 5, 0, 2];
    let mut sparse_graph = graph_from(offsets.clone(), targets.clone());
    sparse_graph.set_threshold(usize::MAX);
    let mut dense_graph = graph_from(offsets, targets);
    dense_graph.set_threshold(0);
    for root in 0..sparse_graph.node_count() {
        assert_eq!(bfs(&sparse_graph, root), bfs(&dense_graph, root));
    }
}

#[test]
fn cc_two_triangles() {
    let g = graph_from(vec![0, 1, 2, 3, 4, 5], vec![1, 2, 0, 4, 5, 3]);
    let ids = cc(&g);
    assert_eq!(ids, vec![0, 0, 0, 3, 3, 3]);
}

#[test]
fn cc_single_chain() {
    let g = graph_from(vec![0, 1, 2, 3], vec![1, 2, 3]);
    let ids = cc(&g);
    assert_eq!(ids, vec![0, 0, 0, 0]);
}

#[test]
fn cc_push_pull_equivalence() {
    let offsets = vec![0, 1, 2, 3, 3, 4, 5];
    let targets = vec![1, 2, 0, 5, 4];
    let mut sparse_graph = graph_from(offsets.clone(), targets.clone());
    sparse_graph.set_threshold(usize::MAX);
    let mut dense_graph = graph_from(offsets, targets);
    dense_graph.set_threshold(0);
    assert_eq!(cc(&sparse_graph), cc(&dense_graph));
}

#[test]
fn invert_counts_parallel_edges() {
    // two parallel edges 0 -> 1 plus 1 -> 0
    let list = AdjacencyList::from_parts(&vec![0, 2], vec![1, 1, 0]);
    let inverted = list.invert();
    assert_eq!(inverted.node_count(), 2);
    assert_eq!(inverted.rel_count(), 3);
    assert_eq!(inverted.rels(0), &[1]);
    assert_eq!(inverted.rels(1), &[0, 0]);
}
