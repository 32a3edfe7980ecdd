use cut_search::config::{AlgorithmConfig, TopologyConfig};
use cut_search::cost::{
    arg_min, calculate_costs, cost_for_cutline, max_set, Cost, CutlineWrapped, OrderInfo,
    UsedBoard,
};
use cut_search::cutline::{compute_unbalance, search_cutlines, Cutline};
use cut_search::graph::{SearchError, SearchGraph};
use cut_search::order::Order;
use cut_search::pattern::{bit_order_vec, pattern_from_repr};

fn ordering_of(s: &str) -> Vec<Order> {
    s.chars().map(|c| Order::from_char(c).unwrap()).collect()
}

#[test]
fn test_cost_for_cutline() {
    let mut topo = TopologyConfig::default();
    topo.height = 12;
    topo.unused_qubits = vec![11, 5];
    let graph = SearchGraph::from_config(topo).unwrap();
    let ordering = ordering_of("ABCDCDABABCDCDABABCDCDAB");
    let mut algo = AlgorithmConfig::default();
    algo.ordering = ordering;
    algo.max_unbalance = 20;
    algo.max_depth = 12;
    algo.min_depth = 2;
    let pattern = pattern_from_repr("1_0011100000_0_00000011000").unwrap();
    let order_vec = bit_order_vec(&pattern, &graph);
    let order_info = OrderInfo::new(&algo.ordering);
    let mut use_flags = UsedBoard::new(graph.primal_edge_count(), order_info.ordering.len());
    let cutline = Cutline {
        split: vec![
            ((8, 1), (9, 2)),
            ((7, 2), (8, 3)),
            ((6, 3), (7, 4)),
            ((5, 4), (6, 5)),
            ((4, 5), (5, 6)),
            ((3, 6), (4, 7)),
            ((2, 7), (3, 8)),
            ((2, 9), (3, 8)),
            ((3, 10), (4, 9)),
            ((3, 10), (4, 11)),
        ],
        unbalance: 0,
    };
    let cutline_wrapped = cutline.clone().into_wrapped(&graph);
    let cost = cost_for_cutline(&order_vec, &cutline_wrapped, &order_info, &mut use_flags);
    println!("{:?}", cost);
    let cutlines = search_cutlines(&graph, &algo).unwrap();
    let mut reverse_split = cutline.split.clone();
    reverse_split.reverse();
    let reverse_cutline = Cutline { split: reverse_split, unbalance: 0 };
    assert!(cutlines.contains(&cutline) || cutlines.contains(&reverse_cutline));
}

fn small_cut() -> CutlineWrapped {
    CutlineWrapped {
        split: vec![0, 1],
        unbalance: 2,
        wedge_candidates: vec![(0, 1)],
        dcd_candidates: vec![(0, 2)],
    }
}

#[test]
fn start_end_elision_counts_first_and_last_beat() {
    // edge 0 carries A, edge 1 carries B, edge 2 carries C
    let order_vec = vec![Some(Order::A), Some(Order::B), Some(Order::C)];
    let info = OrderInfo::new(&ordering_of("AB"));
    let mut board = UsedBoard::new(3, 2);
    let cut = CutlineWrapped {
        split: vec![0, 1],
        unbalance: 0,
        wedge_candidates: vec![],
        dcd_candidates: vec![],
    };
    let cost = cost_for_cutline(&order_vec, &cut, &info, &mut board);
    assert_eq!(cost, Cost { gates: 2, start_end: 2, wedge: 0, dcd: 0, unbalance: 0 });
}

#[test]
fn wedge_and_dcd_fusions() {
    // ordering A C A: (A, C) is a wedge pair, (C, A) too; no elementary pair, so no DCD
    let order_vec = vec![Some(Order::A), Some(Order::C), Some(Order::B)];
    let info = OrderInfo::new(&ordering_of("ACA"));
    assert_eq!(info.order_counts, vec![2, 0, 1, 0]);
    assert_eq!(info.potential_wedges, vec![(0, Order::A, Order::C), (1, Order::C, Order::A)]);
    assert!(info.potential_dcds.is_empty());
    let mut board = UsedBoard::new(3, 3);
    let cost = cost_for_cutline(&order_vec, &small_cut(), &info, &mut board);
    // gates: A twice + C once; start/end claims edge 0 at beats 0 and 2;
    // wedge (A at 0, C at 1) is blocked at beat 0, (C at 1, A at 2) is blocked at beat 2
    assert_eq!(cost, Cost { gates: 3, start_end: 2, wedge: 0, dcd: 0, unbalance: 2 });

    // ordering C A B A C: DCD window (A, B, A) at beat 1
    let info = OrderInfo::new(&ordering_of("CABAC"));
    assert_eq!(info.potential_dcds, vec![(1, Order::A, Order::B)]);
    let mut board = UsedBoard::new(3, 5);
    let cost = cost_for_cutline(&order_vec, &small_cut(), &info, &mut board);
    // start/end claims edge 1 (C) at beats 0 and 4, which blocks both wedges (C, A) at
    // beat 0 and (A, C) at beat 3; the DCD of edge 0 with edge 2 (B) fuses at beats 1..3
    assert_eq!(cost, Cost { gates: 4, start_end: 2, wedge: 0, dcd: 1, unbalance: 2 });

    // without the end beats in the way, a wedge goes through
    let info = OrderInfo::new(&ordering_of("BCAB"));
    let mut board = UsedBoard::new(3, 4);
    let cost = cost_for_cutline(&order_vec, &small_cut(), &info, &mut board);
    assert_eq!(cost, Cost { gates: 2, start_end: 0, wedge: 1, dcd: 0, unbalance: 2 });
}

#[test]
fn dcd_counts_twice_when_the_extension_is_cut() {
    let order_vec = vec![Some(Order::A), Some(Order::B), Some(Order::C)];
    let info = OrderInfo::new(&ordering_of("CABAC"));
    let mut board = UsedBoard::new(3, 5);
    let cut = CutlineWrapped {
        split: vec![0, 1],
        unbalance: 0,
        wedge_candidates: vec![],
        dcd_candidates: vec![(0, 1)],
    };
    let cost = cost_for_cutline(&order_vec, &cut, &info, &mut board);
    assert_eq!(cost.dcd, 2);
    assert_eq!(cost.start_end, 0);
}

#[test]
fn arg_min_and_max_set() {
    assert_eq!(arg_min(&vec![5, 3, 7, 3]), 1);
    assert_eq!(arg_min(&vec![9]), 0);
    assert_eq!(max_set(&vec![1, 4, 2, 4]), vec![1, 3]);
    assert_eq!(max_set(&vec![]), Vec::<usize>::new());
}

#[test]
fn infeasible_bounds_are_an_error() {
    let graph = SearchGraph::from_config(TopologyConfig::default()).unwrap();
    let mut algo = AlgorithmConfig::default();
    algo.min_depth = 5;
    algo.max_depth = 4;
    assert_eq!(search_cutlines(&graph, &algo).unwrap_err(), SearchError::InfeasibleBounds);
}

#[test]
fn cuts_respect_unbalance_and_costs_cover_every_cut() {
    let mut topo = TopologyConfig::default();
    topo.width = 6;
    topo.height = 5;
    let graph = SearchGraph::from_config(topo).unwrap();
    let mut algo = AlgorithmConfig::default();
    algo.max_depth = 6;
    algo.max_unbalance = 2;
    let cuts = search_cutlines(&graph, &algo).unwrap();
    assert!(!cuts.is_empty());
    for c in &cuts {
        assert!(c.unbalance <= 2);
        assert_eq!(compute_unbalance(&graph, &c.split), c.unbalance);
    }
    let wrapped: Vec<CutlineWrapped> = cuts.iter().map(|c| c.clone().into_wrapped(&graph)).collect();
    let n_bits = 1 + graph.num_slash() + graph.num_back_slash();
    let pattern = fixedbitset::FixedBitSet::with_capacity(n_bits);
    let info = OrderInfo::new(&algo.ordering);
    let costs = calculate_costs(&graph, &pattern, &wrapped, &info).unwrap();
    assert_eq!(costs.len(), cuts.len());
    // lines past the end of a short pattern read as clear
    let short = fixedbitset::FixedBitSet::with_capacity(1);
    assert_eq!(calculate_costs(&graph, &short, &wrapped, &info).unwrap(), costs);
    let empty = fixedbitset::FixedBitSet::with_capacity(0);
    assert_eq!(calculate_costs(&graph, &empty, &wrapped, &info).unwrap_err(), SearchError::ParseError);
}
