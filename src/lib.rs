pub mod bits;
pub mod config;
pub mod cost;
pub mod cutline;
pub mod dual;
pub mod geometry;
pub mod graph;
pub mod order;
pub mod pattern;
pub mod search_pattern;

pub use bits::BitPattern;
pub use config::{AlgorithmConfig, Config, TopologyConfig};
pub use order::Order;
