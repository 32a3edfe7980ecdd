use cut_search::config::{AlgorithmConfig, Config, TopologyConfig};
use cut_search::order::Order;

#[test]
fn order_letters() {
    assert_eq!(Order::all_possibles(), vec![Order::A, Order::B, Order::C, Order::D]);
    let s: String = Order::all_possibles().iter().map(|o| o.as_str()).collect();
    assert_eq!(s, "ABCD");
    assert_eq!(Order::from_char('C'), Some(Order::C));
    assert_eq!(Order::from_char('E'), None);
    assert_eq!(Order::D.rank(), 3);
}

#[test]
fn config_defaults() {
    let config = Config::default();
    assert_eq!(config.topology.width, 12);
    assert_eq!(config.topology.height, 11);
    assert_eq!(config.algorithm.max_unbalance, 6);
    assert_eq!(config.algorithm.max_depth, 12);
    assert_eq!(config.algorithm.min_depth, 0);
    let s: String = config.algorithm.ordering.iter().map(|o| o.as_str()).collect();
    assert_eq!(s, "ABCDCDABABCDCDABABCD");
    let again = Config::new(TopologyConfig::default(), AlgorithmConfig::default());
    assert_eq!(again, config);
}
