use cut_search::config::TopologyConfig;
use cut_search::geometry::in_primal;
use cut_search::graph::{SearchError, SearchGraph};
use cut_search::order::Order;
use cut_search::pattern::{
    bit_look_up, bit_order_vec, get_edge_index, pattern_from_repr, pattern_repr, Context,
};
use cut_search::search_pattern::search_bit_patterns;
use fixedbitset::FixedBitSet;

fn check_tiling(graph: &SearchGraph, pattern: &FixedBitSet, orders: &str) {
    let context = Context {
        qubit_at_origin: false,
        width: graph.config.width,
        height: graph.config.height,
        n_slash: graph.num_slash(),
    };
    let w = graph.config.width as i32;
    let h = graph.config.height as i32;
    for y in 0..h {
        for x in 0..w {
            if !in_primal(x, y, false) || y % 2 != 1 {
                continue;
            }
            let n = (x, y);
            let neighbors = [(x + 1, y - 1), (x - 1, y + 1), (x + 1, y + 1), (x - 1, y - 1)];
            for (n2, c) in neighbors.into_iter().zip(orders.chars()) {
                if graph.edge_weight(n, n2).is_none() {
                    continue;
                }
                let order = Order::from_char(c).unwrap();
                assert_eq!(bit_look_up(pattern, n, n2, &context), Some(order));
            }
        }
    }
}

#[test]
fn test_bit_pattern_look_up() {
    let graph = SearchGraph::from_config(TopologyConfig::default()).unwrap();
    let pattern = FixedBitSet::with_capacity_and_blocks(21, vec![0]);
    check_tiling(&graph, &pattern, "ABCD");

    let mut pattern = FixedBitSet::with_capacity_and_blocks(21, vec![0]);
    pattern.put(0);
    check_tiling(&graph, &pattern, "CDAB");

    let mut pattern = FixedBitSet::with_capacity_and_blocks(21, vec![0]);
    pattern.insert_range(..);
    check_tiling(&graph, &pattern, "DCBA");

    let context = Context {
        qubit_at_origin: false,
        width: graph.config.width,
        height: graph.config.height,
        n_slash: graph.num_slash(),
    };
    let mut pattern = FixedBitSet::with_capacity_and_blocks(21, vec![0]);
    pattern.put(20);
    assert_eq!(bit_look_up(&pattern, (10, 1), (11, 2), &context), Some(Order::D));
    pattern.put(0);
    assert_eq!(bit_look_up(&pattern, (10, 1), (11, 2), &context), Some(Order::B));
}

#[test]
fn test_get_edge_index() {
    let graph = SearchGraph::from_config(TopologyConfig::default()).unwrap();
    let edges_per_line = (graph.config.width - 1) as usize;
    assert_eq!(get_edge_index((1, 0), (0, 1), edges_per_line), 0);
    assert_eq!(get_edge_index((10, 9), (11, 10), edges_per_line), 109);
}

#[test]
fn test_str_repr_of_bit_pattern() {
    let n_slash = 10;
    let mut pattern = FixedBitSet::with_capacity_and_blocks(21, vec![0]);
    assert_eq!(pattern.to_string(), "000000000000000000000");
    assert_eq!(pattern_repr(&pattern, n_slash), "0_0000000000_1_0000000000");
    assert_eq!(pattern_from_repr("0_0000000000_1_0000000000").unwrap(), pattern);

    pattern.put(0);
    assert_eq!(pattern.to_string(), "100000000000000000000");
    assert_eq!(pattern_repr(&pattern, n_slash), "1_0000000000_0_0000000000");
    assert_eq!(pattern_from_repr("1_0000000000_0_0000000000").unwrap(), pattern);
}

#[test]
fn repr_round_trip_of_mixed_bits() {
    let mut pattern = FixedBitSet::with_capacity(22);
    for i in [0, 3, 4, 5, 17, 18] {
        pattern.put(i);
    }
    let repr = pattern_repr(&pattern, 10);
    assert_eq!(repr, "1_0011100000_0_00000011000");
    assert_eq!(pattern_from_repr(&repr).unwrap(), pattern);
    let empty_tail = FixedBitSet::with_capacity(1);
    assert_eq!(pattern_repr(&empty_tail, 0), "0__1_");
    assert_eq!(pattern_from_repr("0__1_").unwrap(), empty_tail);
}

#[test]
fn malformed_reprs_are_rejected() {
    for bad in [
        "",
        "0_0000",
        "0_0000000000_0_0000000000",
        "2_0000000000_1_0000000000",
        "0_00000x0000_1_0000000000",
        "0_0000000000_1_00000000a0",
        "0-0000000000_1_0000000000",
        "0_0000000000_1-0000000000",
    ] {
        assert_eq!(pattern_from_repr(bad).unwrap_err(), SearchError::ParseError, "{}", bad);
    }
}

#[test]
fn order_vec_is_none_exactly_on_non_real_edges() {
    let mut config = TopologyConfig::default();
    config.unused_qubits.extend([33, 34]);
    let graph = SearchGraph::from_config(config).unwrap();
    let n_bits = 1 + graph.num_slash() + graph.num_back_slash();
    let pattern = FixedBitSet::with_capacity_and_blocks(n_bits, vec![0x5a5a5]);
    let order_vec = bit_order_vec(&pattern, &graph);
    assert_eq!(order_vec.len(), 110);
    for (i, o) in order_vec.iter().enumerate() {
        assert_eq!(o.is_none(), !graph.real_edges[i]);
    }
}

#[test]
fn test_bit_pattern_number() {
    for (unused, n_bits) in [
        (vec![], 21),
        (vec![6], 20),
        (vec![54, 60, 4, 5, 11, 17], 19),
        (vec![21], 21),
    ] {
        let mut config = TopologyConfig::default();
        config.unused_qubits.extend(unused);
        let graph = SearchGraph::from_config(config).unwrap();
        assert_eq!(search_bit_patterns(&graph).len(), 1 << n_bits);
    }
}

#[test]
fn dead_lines_leave_their_bits_clear() {
    let mut config = TopologyConfig::default();
    config.unused_qubits.push(6);
    let graph = SearchGraph::from_config(config).unwrap();
    let patterns = search_bit_patterns(&graph);
    assert_eq!(patterns.len(), 1 << 20);
    let dead = cut_search::search_pattern::dead_slash_indices(&graph);
    assert_eq!(dead.len(), 1);
    assert!(patterns.iter().all(|p| !p.contains(dead[0])));
}

fn small_grid() -> SearchGraph {
    let mut config = TopologyConfig::default();
    config.width = 4;
    config.height = 3;
    SearchGraph::from_config(config).unwrap()
}

#[test]
fn test_vec_pattern() {
    let graph = small_grid();
    let patterns = cut_search::search_pattern::search_vec_patterns(&graph);
    println!("Found {} patterns", patterns.len());
    assert_eq!(patterns.len(), 168)
}

#[test]
fn test_exhuastive_pattern_small_grid() {
    let graph = small_grid();
    let patterns = cut_search::search_pattern::search_vec_patterns(&graph);
    assert_eq!(patterns.len(), 168)
}

#[test]
fn vec_patterns_are_proper_and_distinct() {
    let graph = small_grid();
    let patterns = cut_search::search_pattern::search_vec_patterns(&graph);
    let n = graph.primal_edge_count();
    for p in &patterns {
        assert_eq!(p.len(), n);
        for i in 0..n {
            assert_eq!(p[i].is_some(), graph.real_edges[i]);
        }
        for i in 0..n {
            for j in (i + 1)..n {
                let (a, b) = graph.get_edge(i);
                let (c, d) = graph.get_edge(j);
                if a == c || a == d || b == c || b == d {
                    assert_ne!(p[i], p[j]);
                }
            }
        }
    }
    for i in 0..patterns.len() {
        for j in (i + 1)..patterns.len() {
            assert_ne!(patterns[i], patterns[j]);
        }
    }
}
