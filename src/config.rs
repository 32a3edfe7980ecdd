use crate::order::Order;
use vstd::prelude::*;

verus! {

/// The processor grid and its broken parts.
#[derive(Debug, PartialEq, Eq, Clone)]
pub struct TopologyConfig {
    pub width: u32,
    pub height: u32,
    pub unused_qubits: Vec<u32>,
    pub unused_couplers: Vec<(u32, u32)>,
    pub qubit_at_origin: bool,
}

impl Default for TopologyConfig {
    fn default() -> (r: Self)
        ensures
            r.width == 12 && r.height == 11,
            r.unused_qubits@.len() == 0 && r.unused_couplers@.len() == 0,
            !r.qubit_at_origin,
    {
        TopologyConfig {
            width: 12,
            height: 11,
            unused_qubits: Vec::new(),
            unused_couplers: Vec::new(),
            qubit_at_origin: false,
        }
    }
}

/// Search bounds, the beat schedule and the pattern limits.
#[derive(Debug, PartialEq, Eq, Clone)]
pub struct AlgorithmConfig {
    pub min_depth: usize,
    pub max_depth: usize,
    pub max_unbalance: usize,
    pub ordering: Vec<Order>,
    pub patterns: Option<Vec<String>>,
    pub max_patterns: usize,
}

/// The schedule used when none is given: `ABCDCDAB` repeated, cut to twenty beats.
pub open spec fn default_ordering() -> Seq<Order> {
    Seq::new(20, |i: int| default_beat(i % 8))
}

pub open spec fn default_beat(k: int) -> Order {
    if k == 0 || k == 6 {
        Order::A
    } else if k == 1 || k == 7 {
        Order::B
    } else if k == 2 || k == 4 {
        Order::C
    } else {
        Order::D
    }
}

impl Default for AlgorithmConfig {
    fn default() -> (r: Self)
        ensures
            r.min_depth == 0 && r.max_depth == 12 && r.max_unbalance == 6,
            r.ordering@ == default_ordering(),
            r.patterns is None,
            r.max_patterns == usize::MAX,
    {
        let ordering = vec![
            Order::A, Order::B, Order::C, Order::D, Order::C, Order::D, Order::A, Order::B,
            Order::A, Order::B, Order::C, Order::D, Order::C, Order::D, Order::A, Order::B,
            Order::A, Order::B, Order::C, Order::D,
        ];
        assert(ordering@ =~= default_ordering());
        AlgorithmConfig {
            min_depth: 0,
            max_depth: 12,
            max_unbalance: 6,
            ordering,
            patterns: None,
            max_patterns: usize::MAX,
        }
    }
}

/// A topology together with the search parameters.
#[derive(Debug, PartialEq, Eq, Clone)]
pub struct Config {
    pub topology: TopologyConfig,
    pub algorithm: AlgorithmConfig,
}

impl Config {
    pub fn new(topology: TopologyConfig, algorithm: AlgorithmConfig) -> (r: Self)
        ensures
            r.topology == topology,
            r.algorithm == algorithm,
    {
        Config { topology, algorithm }
    }
}

impl Default for Config {
    fn default() -> (r: Self)
        ensures
            r.topology.width == 12 && r.topology.height == 11,
            r.topology.unused_qubits@.len() == 0 && r.topology.unused_couplers@.len() == 0,
            !r.topology.qubit_at_origin,
            r.algorithm.min_depth == 0 && r.algorithm.max_depth == 12 && r.algorithm.max_unbalance == 6,
            r.algorithm.ordering@ == default_ordering(),
            r.algorithm.patterns is None,
            r.algorithm.max_patterns == usize::MAX,
    {
        Config { topology: TopologyConfig::default(), algorithm: AlgorithmConfig::default() }
    }
}

} // verus!
