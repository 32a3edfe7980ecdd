use cut_search::config::{AlgorithmConfig, TopologyConfig};
use cut_search::cost::{calculate_costs, OrderInfo};
use cut_search::cutline::{
    compute_unbalance, dedup_virtual_dispatch, path_to_split, search_cutlines, Cutline,
};
use cut_search::geometry::Edge;
use cut_search::graph::{SearchError, SearchGraph};

fn graph_with_unused(unused: &[u32]) -> SearchGraph {
    let mut config = TopologyConfig::default();
    config.unused_qubits.extend_from_slice(unused);
    SearchGraph::from_config(config).unwrap()
}

#[test]
fn dedup_keeps_one_split_per_real_edge_set() {
    let graph = graph_with_unused(&[33, 34]);
    let n = graph.primal_edge_count();
    let real: Vec<Edge> = (0..n).filter(|&i| graph.real_edges[i]).map(|i| graph.get_edge(i)).collect();
    let virt: Vec<Edge> = (0..n).filter(|&i| !graph.real_edges[i]).map(|i| graph.get_edge(i)).collect();
    assert!(!virt.is_empty());
    let s1 = vec![real[0], real[1]];
    let s2 = vec![real[0], virt[0], real[1]];
    let s3 = vec![real[2]];
    let s4 = vec![virt[1], real[2]];
    let out = dedup_virtual_dispatch(&graph, vec![s1.clone(), s2, s3.clone(), s4]);
    assert_eq!(out, vec![s1, s3]);
}

#[test]
fn path_to_split_crosses_the_dual_steps() {
    let split = path_to_split(&vec![(3, 11), (4, 10), (3, 9)]);
    assert_eq!(split, vec![((3, 10), (4, 11)), ((3, 10), (4, 9))]);
    assert!(path_to_split(&vec![(0, 0)]).is_empty());
}

fn side(graph: &SearchGraph, split: &[Edge], start: (i32, i32)) -> Vec<(i32, i32)> {
    let mut seen = vec![start];
    let mut stack = vec![start];
    while let Some(p) = stack.pop() {
        for i in 0..graph.primal_edge_count() {
            let (a, b) = graph.get_edge(i);
            if !graph.real_edges[i] || split.contains(&(a, b)) {
                continue;
            }
            let other = if a == p { b } else if b == p { a } else { continue };
            if !seen.contains(&other) {
                seen.push(other);
                stack.push(other);
            }
        }
    }
    seen
}

#[test]
fn unbalance_is_the_same_from_either_side() {
    let mut topo = TopologyConfig::default();
    topo.width = 6;
    topo.height = 5;
    let graph = SearchGraph::from_config(topo).unwrap();
    let mut algo = AlgorithmConfig::default();
    algo.max_depth = 6;
    algo.max_unbalance = 30;
    let cuts = search_cutlines(&graph, &algo).unwrap();
    let mut checked = 0;
    for c in &cuts {
        let first = graph.get_edge(0).0;
        let a = side(&graph, &c.split, first);
        let outside = (0..graph.primal_edge_count())
            .flat_map(|i| {
                let (p, q) = graph.get_edge(i);
                [p, q]
            })
            .find(|p| !a.contains(p));
        if let Some(o) = outside {
            let b = side(&graph, &c.split, o);
            if a.len() + b.len() == graph.primal_node_count() {
                let (x, y) = (a.len() as i64, b.len() as i64);
                assert_eq!((x - y).abs(), (y - x).abs());
                assert_eq!(compute_unbalance(&graph, &c.split) as i64, (x - y).abs());
                checked += 1;
            }
        }
    }
    assert!(checked > 0);
}

#[test]
fn empty_cut_set_is_empty_input() {
    let graph = SearchGraph::from_config(TopologyConfig::default()).unwrap();
    let pattern = fixedbitset::FixedBitSet::with_capacity(21);
    let info = OrderInfo::new(&AlgorithmConfig::default().ordering);
    assert_eq!(calculate_costs(&graph, &pattern, &vec![], &info).unwrap_err(), SearchError::EmptyInput);
}

#[test]
fn wrapped_cut_round_trips_its_real_edges() {
    let graph = graph_with_unused(&[5, 11]);
    let cut = Cutline {
        split: vec![((8, 1), (9, 2)), ((7, 2), (8, 3)), ((6, 3), (7, 4))],
        unbalance: 4,
    };
    let wrapped = cut.clone().into_wrapped(&graph);
    assert_eq!(wrapped.split, vec![19, 29, 39]);
    assert_eq!(wrapped.unbalance, 4);
    assert_eq!(wrapped.wedge_candidates, vec![]);
    let back = Cutline::from_wrapper(wrapped, &graph);
    assert_eq!(back, cut);
}
