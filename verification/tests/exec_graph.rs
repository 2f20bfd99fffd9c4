use pi_world::archetype::{Archetype, ArchetypeInfo, ComponentInfo};
use pi_world::world::ComponentIndex;
use pi_world::exec_graph::{decode, encode, Direction, EdgeIndex, ExecGraph, GraphInner, NodeIndex, NodeType};

#[test]
fn encode_packs_low_and_high_words() {
    assert_eq!(encode(1, 2), 0x0000_0002_0000_0001);
    assert_eq!(encode(0, u32::MAX), 0xffff_ffff_0000_0000);
    assert_eq!(decode(0x0000_0002_0000_0001), (1, 2));
    assert_eq!(decode(encode(123, 456)), (123, 456));
}

#[test]
fn node_and_edge_indices() {
    assert_eq!(NodeIndex::new(7).index(), 7);
    assert!(NodeIndex::null().is_null());
    assert!(!NodeIndex::new(0).is_null());
    assert_eq!(EdgeIndex::new(3).index(), 3);
    assert!(EdgeIndex::null().is_null());
}

#[test]
fn direction_index_and_opposite() {
    assert_eq!(Direction::To.index(), 0);
    assert_eq!(Direction::From.index(), 1);
    assert_eq!(Direction::From.opposite(), Direction::To);
    assert_eq!(Direction::To.opposite(), Direction::From);
}

#[test]
fn node_type_names() {
    assert_eq!(NodeType::Empty.name(), "None");
    assert_eq!(NodeType::System(3, "sys".to_string()).name(), "sys");
    assert_eq!(NodeType::SystemSet("set".to_string()).name(), "set");
    assert_eq!(NodeType::Res("res".to_string()).name(), "res");
}

fn collect(g: &GraphInner, n: NodeIndex, d: Direction) -> Vec<u32> {
    let mut it = g.neighbors(n, d);
    let mut v = Vec::new();
    while let Some(x) = it.next() {
        v.push(x.0);
    }
    v
}

#[test]
fn edges_link_both_lists_newest_first() {
    let mut g = GraphInner::new();
    let a = g.add_system(0, "a".to_string());
    let b = g.add_system(1, "b".to_string());
    let c = g.add_system(2, "c".to_string());
    g.add_edge(a, b);
    g.add_edge(a, c);
    g.add_edge(b, c);
    assert_eq!(g.node_len(), 3);
    assert_eq!(g.edge_len(), 3);
    assert_eq!(collect(&g, a, Direction::To), vec![2, 1]);
    assert_eq!(collect(&g, c, Direction::From), vec![1, 0]);
    assert_eq!(collect(&g, a, Direction::From), Vec::<u32>::new());
    assert!(g.has_edge(a, b).is_some());
    assert!(g.has_edge(b, a).is_none());
    // a repeated edge is not added again
    g.add_edge(a, b);
    assert_eq!(g.edge_len(), 3);
    // a node that does not exist has no neighbours
    assert_eq!(collect(&g, NodeIndex(99), Direction::To), Vec::<u32>::new());
}

#[test]
fn find_node_records_each_key_once() {
    let mut g = GraphInner::new();
    let (n1, new1) = g.find_node((5, 1), NodeType::Res("r".to_string()));
    let (n2, new2) = g.find_node((5, 1), NodeType::Res("r".to_string()));
    let (n3, new3) = g.find_node((5, 2), NodeType::Res("s".to_string()));
    assert!(new1);
    assert!(!new2);
    assert!(new3);
    assert_eq!(n1, n2);
    assert_ne!(n1, n3);
    assert_eq!(g.node_len(), 2);
}

#[test]
fn adjust_edges_fans_in_and_out() {
    let mut g = GraphInner::new();
    let a = g.add_system(0, "a".to_string());
    let b = g.add_system(1, "b".to_string());
    let c = g.add_set("c".to_string());
    g.adjust_edges(&vec![a, b], NodeIndex::null(), c);
    assert!(g.has_edge(a, c).is_some());
    assert!(g.has_edge(b, c).is_some());
    g.adjust_edges(&vec![b, c], a, NodeIndex::null());
    assert!(g.has_edge(a, b).is_some());
    assert_eq!(g.edge_len(), 3);
}

#[test]
fn exec_graph_orders_systems_and_finds_entries() {
    let mut g = ExecGraph::new("main".to_string());
    let a = g.add_system(0, "a".to_string());
    let b = g.add_system(1, "b".to_string());
    let s = g.add_set("set".to_string());
    let c = g.add_system(2, "c".to_string());
    g.add_edge(c, b);
    g.add_edge(b, s);
    g.add_edge(a, s);
    assert_eq!(g.to_len(), 1);
    let order = g.check();
    let pos = |k: u32| order.iter().position(|x| *x == k as usize).unwrap();
    assert_eq!(order.len(), 4);
    assert!(pos(c.0) < pos(b.0));
    assert!(pos(b.0) < pos(s.0));
    assert!(pos(a.0) < pos(s.0));
    assert_eq!(g.initialize(3), 0..3);
    assert_eq!(g.sys_len(), 3);
    assert_eq!(g.2.len(), 3);
    assert!(!g.2.contains(&(s.0 as usize)));
    let p2 = |k: u32| g.2.iter().position(|x| *x == k as usize).unwrap();
    assert!(p2(c.0) < p2(b.0));
    let froms: Vec<u32> = g.froms().iter().map(|n| n.0).collect();
    assert_eq!(froms, vec![a.0, c.0]);
    assert_eq!(g.to_len(), 1);
    assert_eq!(g.1, "main");
}

#[test]
fn exec_end_releases_successors_once_all_inputs_are_done() {
    let mut g = GraphInner::new();
    let a = g.add_system(0, "a".to_string());
    let b = g.add_system(1, "b".to_string());
    let c = g.add_system(2, "c".to_string());
    let d = g.add_system(3, "d".to_string());
    g.add_edge(a, c);
    g.add_edge(b, c);
    g.add_edge(a, d);
    let succ: Vec<u32> = g.successors(a).iter().map(|n| n.0).collect();
    assert_eq!(succ, vec![d.0, c.0]);
    // d waits on a alone, c on a and b
    let (ready, done) = g.exec_end(a);
    assert_eq!(ready.iter().map(|n| n.0).collect::<Vec<u32>>(), vec![d.0]);
    assert!(!done);
    let (ready, done) = g.exec_end(b);
    assert_eq!(ready.iter().map(|n| n.0).collect::<Vec<u32>>(), vec![c.0]);
    assert!(!done);
    // sinks release nothing; the run is not over while sinks are pending
    let (ready, done) = g.exec_end(c);
    assert!(ready.is_empty());
    assert!(!done);
}

#[test]
fn run_over_counts_down_pending_sinks() {
    let mut g = GraphInner::new();
    let a = g.add_system(0, "a".to_string());
    let b = g.add_system(1, "b".to_string());
    g.add_edge(a, b);
    // nothing set the pending count to one, so no call ends the run
    assert!(!g.run_over());
    assert!(!g.run_over());
}

fn component_infos() -> Vec<ComponentInfo> {
    (0..4u32)
        .map(|i| {
            let mut c = ComponentInfo::create(200 + i as u128, format!("K{}", i), 4, 0);
            c.index = ComponentIndex(i);
            c
        })
        .collect()
}

#[test]
fn archetype_nodes_are_added_once_and_released() {
    let infos = component_infos();
    let ar = Archetype::new(ArchetypeInfo::new(vec![ComponentIndex(1), ComponentIndex(3)]), &infos);
    let mut g = ExecGraph::new("g".to_string());
    let s = g.add_system(0, "s".to_string());
    g.add_archetype_node(&ar, &infos);
    // two new column nodes, each released at once: nothing else created them
    assert_eq!(g.to_len(), 3);
    let froms: Vec<u32> = g.froms().iter().map(|n| n.0).collect();
    assert_eq!(froms, vec![s.0 + 1, s.0 + 2]);
    // the same archetype again adds nothing and releases nobody
    g.add_archetype_node(&ar, &infos);
    assert_eq!(g.to_len(), 3);
    assert_eq!(g.froms().len(), 2);
}

#[test]
fn resource_nodes_are_found_by_type_id() {
    let mut g = ExecGraph::new("r".to_string());
    let (n, is_new) = g.add_res_node(5, "R".to_string());
    assert_eq!((n.0, is_new), (0, true));
    let (m, again) = g.add_res_node(5, "R".to_string());
    assert_eq!((m.0, again), (0, false));
    let (o, other) = g.add_res_node(6, "S".to_string());
    assert_eq!((o.0, other), (1, true));
    assert_eq!(g.to_len(), 2);
}

#[test]
fn run_order_lists_systems_in_execution_order() {
    let mut g = ExecGraph::new("main".to_string());
    let a = g.add_system(0, "a".to_string());
    let b = g.add_system(1, "b".to_string());
    let s = g.add_set("set".to_string());
    let c = g.add_system(2, "c".to_string());
    g.add_edge(c, b);
    g.add_edge(b, s);
    g.add_edge(a, s);
    g.initialize(3);
    let sys_of = |n: usize| if n == a.0 as usize { 0 } else if n == b.0 as usize { 1 } else { 2 };
    let expected: Vec<usize> = g.2.iter().map(|n| sys_of(*n)).collect();
    assert_eq!(g.run_order(), expected);
    let order = g.run_order();
    let pos = |k: usize| order.iter().position(|x| *x == k).unwrap();
    assert!(pos(2) < pos(1));
    assert_eq!(order.len(), 3);
}

#[test]
fn exec_begin_starts_systems_and_passes_other_nodes() {
    let mut g = GraphInner::new();
    let x = g.add_system(7, "x".to_string());
    let s = g.add_set("s".to_string());
    assert_eq!(g.exec_begin(x), Some((7, true)));
    assert_eq!(g.exec_begin(s), None);
    // once started, the status carries bits that mark the archetypes aligned
    assert_eq!(g.exec_begin(x), Some((7, false)));
}

#[test]
fn try_check_reports_cycles() {
    let mut g = ExecGraph::new("c".to_string());
    let a = g.add_system(0, "a".to_string());
    let b = g.add_system(1, "b".to_string());
    g.add_edge(a, b);
    assert_eq!(g.try_check(), Ok(vec![a.0 as usize, b.0 as usize]));
    g.add_edge(b, a);
    match g.try_check() {
        Ok(_) => panic!("a cycle has no order"),
        Err(c) => {
            for k in c.iter() {
                assert!(*k == a.0 as usize || *k == b.0 as usize);
            }
        }
    }
}

#[test]
fn exec_graph_runs_released_nodes() {
    let mut g = ExecGraph::new("run".to_string());
    let a = g.add_system(0, "a".to_string());
    let s = g.add_set("s".to_string());
    let b = g.add_system(1, "b".to_string());
    g.add_edge(a, s);
    g.add_edge(s, b);
    assert_eq!(g.exec_begin(a), Some((0, true)));
    let (ready, _) = g.exec_end(a);
    assert_eq!(ready.iter().map(|n| n.0).collect::<Vec<u32>>(), vec![s.0]);
    assert_eq!(g.exec_begin(s), None);
    let (ready, _) = g.exec_end(s);
    assert_eq!(ready.iter().map(|n| n.0).collect::<Vec<u32>>(), vec![b.0]);
    // linking into b, whose count of pending inputs was zero, set the bit
    // that keeps it from aligning its archetypes
    assert_eq!(g.exec_begin(b), Some((1, false)));
    let (ready, _) = g.exec_end(b);
    assert!(ready.is_empty());
}

#[test]
fn node_and_edge_indices_order_by_number() {
    assert!(NodeIndex::new(1) < NodeIndex::new(2));
    assert!(NodeIndex::new(3) > NodeIndex::new(2));
    assert!(NodeIndex::new(2) <= NodeIndex::new(2));
    assert!(EdgeIndex::new(0) < EdgeIndex::new(7));
    assert_eq!(NodeIndex::new(5).partial_cmp(&NodeIndex::new(5)), Some(std::cmp::Ordering::Equal));
}
