use pi_world::ngraph::NGraph;

#[test]
fn build_orders_an_acyclic_graph() {
    let mut g = NGraph::new();
    for k in [0usize, 1, 2, 3] {
        g.add_node(k);
    }
    g.add_edge(3, 1);
    g.add_edge(1, 0);
    g.add_edge(2, 0);
    let order = g.build().unwrap();
    assert_eq!(order.len(), 4);
    let pos = |k: usize| order.iter().position(|x| *x == k).unwrap();
    assert!(pos(3) < pos(1));
    assert!(pos(1) < pos(0));
    assert!(pos(2) < pos(0));
}

#[test]
fn build_reports_a_cycle() {
    let mut g = NGraph::new();
    for k in [0usize, 1, 2, 4] {
        g.add_node(k);
    }
    g.add_edge(0, 1);
    g.add_edge(1, 2);
    g.add_edge(2, 1);
    g.add_edge(2, 4);
    let cycle = g.build().unwrap_err();
    assert_eq!(cycle.len(), 2);
    assert!(cycle.contains(&1));
    assert!(cycle.contains(&2));
}

#[test]
fn build_reports_a_self_loop() {
    let mut g = NGraph::new();
    g.add_node(0);
    g.add_edge(0, 0);
    assert_eq!(g.build().unwrap_err(), vec![0]);
}

#[test]
fn build_of_empty_graph_is_empty_order() {
    let mut g = NGraph::new();
    assert_eq!(g.build().unwrap(), Vec::<usize>::new());
}

#[test]
fn build_searches_past_nodes_that_start_no_cycle() {
    // node 0 waits on the cycle but leads nowhere: the search from it finds
    // nothing, the one from node 1 finds the cycle
    let mut g = NGraph::new();
    for k in [0usize, 1, 2] {
        g.add_node(k);
    }
    g.add_edge(1, 0);
    g.add_edge(1, 2);
    g.add_edge(2, 1);
    assert_eq!(g.build().unwrap_err(), vec![1, 2]);
}

#[test]
fn build_reports_a_cycle_of_distinct_keys() {
    let mut g = NGraph::new();
    for k in [0usize, 1, 2, 3] {
        g.add_node(k);
    }
    g.add_edge(0, 1);
    g.add_edge(1, 2);
    g.add_edge(2, 1);
    g.add_edge(2, 3);
    let cycle = g.build().unwrap_err();
    assert_eq!(cycle, vec![1, 2]);
}
