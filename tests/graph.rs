use cut_search::config::TopologyConfig;
use cut_search::geometry::{canonical_edge, duality_map, edge_index_of, in_primal};
use cut_search::graph::{SearchError, SearchGraph};

fn default_with_unused(unused: &[u32]) -> TopologyConfig {
    let mut config = TopologyConfig::default();
    config.unused_qubits.extend_from_slice(unused);
    config
}

#[test]
fn graph_test_search_graph_basic() {
    let graph = SearchGraph::from_config(default_with_unused(&[1])).unwrap();
    assert_eq!(graph.primal_node_count(), 66);
    assert_eq!(graph.primal_edge_count(), 110);
    assert_eq!(graph.dual_node_count(), 66);
    assert_eq!(graph.dual_edge_count(), 110);
}

#[test]
fn graphmap_test_search_graph_basic() {
    let graph = SearchGraph::from_config(default_with_unused(&[1])).unwrap();
    assert_eq!(graph.primal_node_count(), 66);
    assert_eq!(graph.primal_edge_count(), 110);
    assert_eq!(graph.dual_node_count(), 66);
    assert_eq!(graph.dual_edge_count(), 110);
}

#[test]
fn graph_test_more_than_one_cc() {
    let graph = SearchGraph::from_config(default_with_unused(&[11]));
    assert!(graph.is_err());

    let mut config = TopologyConfig::default();
    config.unused_couplers.extend([(11, 17), (23, 17)]);
    let graph = SearchGraph::from_config(config);
    assert!(graph.is_err());
}

#[test]
fn graphmap_test_more_than_one_cc() {
    let graph = SearchGraph::from_config(default_with_unused(&[11]));
    assert!(graph.is_err());

    let mut config = TopologyConfig::default();
    config.unused_couplers.extend([(11, 17), (23, 17)]);
    let graph = SearchGraph::from_config(config);
    assert!(graph.is_err());
}

#[test]
fn graph_test_dual_boundary() {
    let graph = SearchGraph::from_config(default_with_unused(&[5, 11])).unwrap();
    let boundaries = &graph.dual_boundaries;
    assert_eq!(graph.dual_node_count(), 66 - 2);
    assert_eq!(graph.dual_edge_count(), 110 - 3);
    assert_eq!(boundaries.len(), 21);
    assert!(boundaries.contains(&(9, 1)));
    assert!(boundaries.contains(&(10, 2)));
}

#[test]
fn graphmap_test_dual_boundary() {
    let graph = SearchGraph::from_config(default_with_unused(&[5, 11])).unwrap();
    let boundaries = &graph.dual_boundaries;
    assert_eq!(graph.dual_node_count(), 66 - 2);
    assert_eq!(graph.dual_edge_count(), 110 - 3);
    assert_eq!(boundaries.len(), 21);
    assert!(boundaries.contains(&(9, 1)));
    assert!(boundaries.contains(&(10, 2)));
}

#[test]
fn graph_test_middle_dangling() {
    let graph = SearchGraph::from_config(default_with_unused(&[33, 34])).unwrap();
    assert_eq!(graph.dual_node_count(), 66);
    assert_eq!(graph.dual_real_edge_count(), 110 - 8);
}

#[test]
fn test_num_slash() {
    let graph = SearchGraph::from_config(TopologyConfig::default()).unwrap();
    assert_eq!(graph.num_slash(), 10);
    assert_eq!(graph.num_back_slash(), 10);
}

#[test]
fn test_edge_index() {
    let graph = SearchGraph::from_config(TopologyConfig::default()).unwrap();
    assert_eq!(graph.edge_index((0, 1), (1, 0)), 0);
    assert_eq!(graph.edge_index((3, 2), (2, 1)), 13);
    assert_eq!(graph.edge_index((10, 9), (11, 10)), 109);
    assert_eq!(graph.get_edge(0), ((0, 1), (1, 0)));
    assert_eq!(graph.get_edge(13), ((2, 1), (3, 2)));
    assert_eq!(graph.get_edge(109), ((10, 9), (11, 10)));
}

#[test]
fn used_counts_with_one_unused_qubit() {
    let graph = SearchGraph::from_config(default_with_unused(&[1])).unwrap();
    assert_eq!(graph.unused_qubits, vec![(3, 0)]);
    let used_couplers = graph.real_edges.iter().filter(|&&r| r).count();
    assert_eq!(graph.primal_node_count() - graph.unused_qubits.len(), 65);
    assert_eq!(used_couplers, 108);
    // qubit 1 sits at (3, 0) and is unused; qubit 55 is used
    let q55 = (0..11 * 12)
        .map(|k| ((k % 12) as i32, (k / 12) as i32))
        .filter(|&(x, y)| in_primal(x, y, false))
        .nth(55)
        .unwrap();
    assert!(!graph.unused_qubits.contains(&q55));
}

#[test]
fn unused_coupler_pair_disconnects() {
    let mut config = TopologyConfig::default();
    config.unused_couplers.extend([(11, 17), (23, 17)]);
    assert_eq!(SearchGraph::from_config(config).unwrap_err(), SearchError::TopologyDisconnected);
}

#[test]
fn out_of_range_ids_are_invalid() {
    let config = default_with_unused(&[66]);
    assert_eq!(SearchGraph::from_config(config).unwrap_err(), SearchError::InvalidCoordinates);
    let mut config = TopologyConfig::default();
    config.unused_couplers.push((0, 70));
    assert_eq!(SearchGraph::from_config(config).unwrap_err(), SearchError::InvalidCoordinates);
    let mut config = TopologyConfig::default();
    config.width = 0;
    assert_eq!(SearchGraph::from_config(config).unwrap_err(), SearchError::InvalidCoordinates);
}

#[test]
fn single_cell_lattice_is_one_qubit() {
    let mut config = TopologyConfig::default();
    config.width = 1;
    config.height = 1;
    config.qubit_at_origin = true;
    let graph = SearchGraph::from_config(config).unwrap();
    assert_eq!(graph.primal_node_count(), 1);
    assert_eq!(graph.primal_edge_count(), 0);
    assert_eq!(graph.dual_node_count(), 0);
    assert!(graph.dual_boundaries.is_empty());
}

#[test]
fn thin_lattices() {
    // one column: the qubits are not joined by any coupler
    let mut config = TopologyConfig::default();
    config.width = 1;
    config.height = 3;
    config.qubit_at_origin = true;
    assert_eq!(SearchGraph::from_config(config).unwrap_err(), SearchError::TopologyDisconnected);
    // one cell without a qubit: no used qubit at all
    let mut config = TopologyConfig::default();
    config.width = 1;
    config.height = 1;
    assert_eq!(SearchGraph::from_config(config).unwrap_err(), SearchError::TopologyDisconnected);
    // one row of two cells holds one qubit
    let mut config = TopologyConfig::default();
    config.width = 2;
    config.height = 1;
    let graph = SearchGraph::from_config(config).unwrap();
    assert_eq!(graph.primal_node_count(), 1);
    assert_eq!(graph.num_slash(), 0);
}

#[test]
fn all_qubits_unused_is_disconnected() {
    let all: Vec<u32> = (0..66).collect();
    assert_eq!(
        SearchGraph::from_config(default_with_unused(&all)).unwrap_err(),
        SearchError::TopologyDisconnected
    );
}

#[test]
fn duality_map_is_involutive() {
    let e = ((3, 2), (2, 1));
    let d = duality_map(e.0, e.1);
    assert_eq!(d, ((3, 1), (2, 2)));
    assert_eq!(duality_map(d.0, d.1), e);
    assert_eq!(edge_index_of(12, d.0, d.1), edge_index_of(12, e.0, e.1));
}

#[test]
fn edge_index_is_symmetric_and_inverted() {
    let graph = SearchGraph::from_config(TopologyConfig::default()).unwrap();
    for i in 0..graph.primal_edge_count() {
        let (a, b) = graph.get_edge(i);
        assert_eq!(graph.edge_index(a, b), i);
        assert_eq!(graph.edge_index(b, a), i);
        assert_eq!(canonical_edge(b, a), (a, b));
    }
}

#[test]
fn dual_edges_match_primal_without_pruning() {
    let graph = SearchGraph::from_config(TopologyConfig::default()).unwrap();
    assert_eq!(graph.dual_edge_count(), graph.primal_edge_count());
    let graph = SearchGraph::from_config(default_with_unused(&[33, 34])).unwrap();
    assert_eq!(graph.dual_edge_count(), graph.primal_edge_count());
}

#[test]
fn boundaries_are_sorted_and_on_rim_by_default() {
    let graph = SearchGraph::from_config(TopologyConfig::default()).unwrap();
    let b = &graph.dual_boundaries;
    assert!(b.windows(2).all(|w| w[0] < w[1]));
    assert!(b.iter().all(|&(x, y)| x == 0 || y == 0 || x == 11 || y == 10));
    assert_eq!(b.len(), 21);
}
