use qdb::error::KernelError;
use qdb::network::kahn_order;
use qdb::schedule::{build_network, order_activities, DependencyLink};

fn ids(v: &[&str]) -> Vec<String> {
    v.iter().map(|s| s.to_string()).collect()
}

fn dep(p: &str, s: &str) -> DependencyLink {
    DependencyLink { predecessor_id: p.to_string(), successor_id: s.to_string(), dep_type: "FS".to_string() }
}

fn position(order: &[usize], v: usize) -> usize {
    order.iter().position(|&x| x == v).unwrap()
}

#[test]
fn chain_is_ordered_predecessor_first() {
    let acts = ids(&["C", "B", "A"]);
    let deps = vec![dep("A", "B"), dep("B", "C")];
    let o = order_activities(&acts, &deps).unwrap();
    assert_eq!(o.network.nodes, acts);
    assert_eq!(o.order.len(), 3);
    let a = position(&o.order, 2);
    let b = position(&o.order, 1);
    let c = position(&o.order, 0);
    assert!(a < b && b < c);
    assert!(o.network.warnings.is_empty());
}

#[test]
fn kahn_takes_sources_in_node_order_then_released_nodes() {
    // 0 -> 2, 1 -> 2, 2 -> 3
    let order = kahn_order(4, &vec![(0, 2), (1, 2), (2, 3)]).unwrap();
    assert_eq!(order, vec![0, 1, 2, 3]);
}

#[test]
fn cycle_is_reported_with_an_unordered_activity() {
    let acts = ids(&["A", "B", "C", "D"]);
    let deps = vec![dep("A", "B"), dep("B", "C"), dep("C", "B"), dep("C", "D")];
    match order_activities(&acts, &deps) {
        Err(KernelError::CircularDependency(id)) => assert_eq!(id, "B"),
        other => panic!("unexpected {:?}", other.map(|o| o.order)),
    }
}

#[test]
fn cycle_is_reported_with_an_activity_on_it_not_after_it() {
    // C comes first but lies only after the cycle A <-> B.
    let acts = ids(&["C", "A", "B"]);
    let deps = vec![dep("A", "B"), dep("B", "A"), dep("B", "C")];
    match order_activities(&acts, &deps) {
        Err(KernelError::CircularDependency(id)) => assert!(id == "A" || id == "B", "named {}", id),
        other => panic!("unexpected {:?}", other.map(|o| o.order)),
    }
    // 0 -> 1 -> 2 -> 1, 2 -> 3: the cycle is 1 <-> 2.
    let c = kahn_order(4, &vec![(0, 1), (1, 2), (2, 1), (2, 3)]).unwrap_err();
    assert!(c == 1 || c == 2);
}

#[test]
fn self_dependency_is_a_cycle() {
    let acts = ids(&["A"]);
    let deps = vec![dep("A", "A")];
    assert_eq!(kahn_order(1, &vec![(0, 0)]), Err(0));
    assert!(matches!(order_activities(&acts, &deps), Err(KernelError::CircularDependency(ref id)) if id == "A"));
}

#[test]
fn unknown_ends_become_warnings_in_request_order() {
    let acts = ids(&["A", "B"]);
    let deps = vec![dep("X", "B"), dep("A", "Y"), dep("A", "B"), dep("Q", "R")];
    let net = build_network(&acts, &deps);
    assert_eq!(net.edges, vec![(0, 1)]);
    assert_eq!(net.edge_deps, vec![2]);
    assert_eq!(net.warnings.len(), 3);
    assert_eq!(net.warnings[0].code, "MISSING_PREDECESSOR");
    assert_eq!(net.warnings[0].message, "predecessor 'X' not found");
    assert_eq!(net.warnings[0].activity_id.as_deref(), Some("B"));
    assert_eq!(net.warnings[1].code, "MISSING_SUCCESSOR");
    assert_eq!(net.warnings[1].message, "successor 'Y' not found");
    assert_eq!(net.warnings[1].activity_id.as_deref(), Some("A"));
    assert_eq!(net.warnings[2].code, "MISSING_PREDECESSOR");
    assert_eq!(net.warnings[2].activity_id.as_deref(), Some("R"));
}

#[test]
fn duplicate_ids_become_one_node() {
    let acts = ids(&["A", "B", "A"]);
    let net = build_network(&acts, &vec![dep("B", "A")]);
    assert_eq!(net.nodes, ids(&["A", "B"]));
    assert_eq!(net.edges, vec![(1, 0)]);
}

#[test]
fn empty_network_orders_to_nothing() {
    let o = order_activities(&Vec::new(), &Vec::new()).unwrap();
    assert!(o.order.is_empty());
    assert!(o.network.nodes.is_empty());
}

#[test]
fn parallel_dependencies_are_all_released() {
    // two edges A->B; B must wait for both
    assert_eq!(kahn_order(2, &vec![(0, 1), (0, 1)]), Ok(vec![0, 1]));
}
