use neweden::{
    find_path, nodes_within_distance, nodes_within_hops, stargate_type, Combinator, ConstructionError,
    Coordinate, DatabaseBuilder, Edge, EdgeKind, GraphOverlay, GraphView, Node, OverlayError, PenaltyTable,
    Rule, RouteError, SecurityClass, SpaceGraph, StargateType,
};

#[test]
fn it_works() {
    assert_eq!(2 + 2, 4);
}

fn node(id: u32, name: &str, security: i32, x: i32) -> Node {
    Node {
        id,
        name: name.to_string(),
        coordinate: Coordinate { x, y: 0, z: 0 },
        security,
    }
}

fn gate(from: u32, to: u32) -> Edge {
    Edge { from, to, kind: EdgeKind::Stargate(StargateType::Local) }
}

fn wormhole(from: u32, to: u32) -> Edge {
    Edge { from, to, kind: EdgeKind::Wormhole }
}

/// A(1, 0.9) - B(2, 0.3) - C(3, -0.5), stargates given one way only.
fn abc() -> SpaceGraph {
    SpaceGraph::new(
        vec![node(1, "A", 900, 0), node(2, "B", 300, 10), node(3, "C", -500, 20)],
        vec![gate(1, 2), gate(2, 3)],
    )
    .unwrap()
}

#[test]
fn path_through_middle_node() {
    let g = abc();
    assert_eq!(find_path(&g, 1, 3, &Rule::UnitCost), Ok(vec![1, 2, 3]));
}

#[test]
fn avoiding_middle_node_finds_nothing() {
    let g = abc();
    let rule = Rule::AvoidSet(vec![2], Box::new(Rule::UnitCost));
    assert_eq!(find_path(&g, 1, 3, &rule), Err(RouteError::NotFound));
}

#[test]
fn avoiding_a_node_takes_the_detour() {
    // 1-2-5 is shortest; 1-3-4-5 avoids 2.
    let nodes = (1..=5).map(|i| node(i, "n", 500, 0)).collect();
    let g = SpaceGraph::new(nodes, vec![gate(1, 2), gate(2, 5), gate(1, 3), gate(3, 4), gate(4, 5)]).unwrap();
    assert_eq!(find_path(&g, 1, 5, &Rule::UnitCost), Ok(vec![1, 2, 5]));
    let rule = Rule::AvoidSet(vec![2], Box::new(Rule::UnitCost));
    let p = find_path(&g, 1, 5, &rule).unwrap();
    assert_eq!(p, vec![1, 3, 4, 5]);
    assert!(!p.contains(&2));
}

#[test]
fn stargates_are_made_reciprocal() {
    let g = abc();
    assert_eq!(find_path(&g, 3, 1, &Rule::UnitCost), Ok(vec![3, 2, 1]));
    assert_eq!(g.get_edges(2).len(), 2);
}

#[test]
fn wormholes_stay_one_way() {
    let g = SpaceGraph::new(vec![node(1, "A", 900, 0), node(2, "B", 300, 10)], vec![wormhole(1, 2)]).unwrap();
    assert_eq!(find_path(&g, 1, 2, &Rule::UnitCost), Ok(vec![1, 2]));
    assert_eq!(find_path(&g, 2, 1, &Rule::UnitCost), Err(RouteError::NotFound));
}

#[test]
fn overlay_adds_wormhole_without_touching_base() {
    let g = abc();
    let overlay = GraphOverlay::with_added(&g, vec![wormhole(1, 3), wormhole(3, 1)]).unwrap();
    assert_eq!(find_path(&overlay, 1, 3, &Rule::UnitCost), Ok(vec![1, 3]));
    assert_eq!(find_path(&g, 1, 3, &Rule::UnitCost), Ok(vec![1, 2, 3]));
}

#[test]
fn overlay_rejects_unknown_node() {
    let g = abc();
    let mut overlay = GraphOverlay::new(&g);
    assert_eq!(overlay.add_edge(wormhole(1, 42)), Err(OverlayError::UnknownNode(42)));
    assert_eq!(overlay.add_edge(wormhole(42, 1)), Err(OverlayError::UnknownNode(42)));
    assert!(GraphOverlay::with_added(&g, vec![wormhole(7, 1)]).is_err());
    assert_eq!(overlay.get_edges(1).len(), 1);
}

#[test]
fn overlay_removal_hides_edges() {
    let g = abc();
    let mut overlay = GraphOverlay::new(&g);
    overlay.remove_edge(1, 2);
    assert_eq!(find_path(&overlay, 1, 3, &Rule::UnitCost), Err(RouteError::NotFound));
    assert_eq!(find_path(&overlay, 3, 1, &Rule::UnitCost), Ok(vec![3, 2, 1]));
    assert_eq!(find_path(overlay.base(), 1, 3, &Rule::UnitCost), Ok(vec![1, 2, 3]));
}

#[test]
fn dangling_edge_is_a_construction_error() {
    let r = SpaceGraph::new(vec![node(1, "A", 900, 0), node(2, "B", 300, 10)], vec![gate(1, 99)]);
    assert_eq!(r.err(), Some(ConstructionError::DanglingEdge(gate(1, 99))));
}

#[test]
fn duplicate_id_is_a_construction_error() {
    let r = SpaceGraph::new(vec![node(1, "A", 900, 0), node(1, "B", 300, 10)], vec![]);
    assert_eq!(r.err(), Some(ConstructionError::DuplicateNode(1)));
}

#[test]
fn path_to_self_has_no_hops() {
    let g = abc();
    let rule = Rule::AvoidSet(vec![1], Box::new(Rule::UnitCost));
    assert_eq!(find_path(&g, 1, 1, &rule), Ok(vec![1]));
}

#[test]
fn unknown_nodes_are_reported() {
    let g = abc();
    assert_eq!(find_path(&g, 9, 1, &Rule::UnitCost), Err(RouteError::UnknownNode(9)));
    assert_eq!(find_path(&g, 1, 9, &Rule::UnitCost), Err(RouteError::UnknownNode(9)));
    assert_eq!(nodes_within_hops(&g, 9, 1, &Rule::UnitCost), Err(RouteError::UnknownNode(9)));
}

#[test]
fn fewest_hops_on_a_square_with_a_tail() {
    // 1-2-3-4 and 1-5-4, 4-6
    let nodes = (1..=6).map(|i| node(i, "n", 500, i as i32)).collect();
    let g = SpaceGraph::new(nodes, vec![gate(1, 2), gate(2, 3), gate(3, 4), gate(1, 5), gate(5, 4), gate(4, 6)]).unwrap();
    let p = find_path(&g, 1, 6, &Rule::UnitCost).unwrap();
    assert_eq!(p, vec![1, 5, 4, 6]);
    assert_eq!(p.len() - 1, 3);
}

#[test]
fn equal_costs_prefer_smaller_id() {
    // 1 reaches 4 through 2 or 3 at equal cost.
    let nodes = (1..=4).map(|i| node(i, "n", 500, 0)).collect();
    let g = SpaceGraph::new(nodes, vec![gate(1, 3), gate(1, 2), gate(3, 4), gate(2, 4)]).unwrap();
    let first = find_path(&g, 1, 4, &Rule::UnitCost);
    assert_eq!(first, Ok(vec![1, 2, 4]));
    for _ in 0..5 {
        assert_eq!(find_path(&g, 1, 4, &Rule::UnitCost), first);
    }
}

#[test]
fn security_weighting_prefers_high_security() {
    // 1 -> 4 via 2 (null sec) or via 3 and 5 (high sec).
    let g = SpaceGraph::new(
        vec![node(1, "a", 1000, 0), node(2, "b", -100, 0), node(3, "c", 800, 0), node(4, "d", 700, 0), node(5, "e", 600, 0)],
        vec![gate(1, 2), gate(2, 4), gate(1, 3), gate(3, 5), gate(5, 4)],
    )
    .unwrap();
    let table = PenaltyTable { high: 0, low: 5, null: 10 };
    assert_eq!(find_path(&g, 1, 4, &Rule::UnitCost), Ok(vec![1, 2, 4]));
    assert_eq!(find_path(&g, 1, 4, &Rule::SecurityWeighted(table)), Ok(vec![1, 3, 5, 4]));
}

#[test]
fn rule_costs() {
    let a = node(1, "a", 900, 0);
    let b = node(2, "b", 300, 0);
    let c = node(3, "c", -500, 0);
    let e = gate(1, 2);
    let table = PenaltyTable { high: 1, low: 4, null: 9 };
    assert_eq!(Rule::UnitCost.cost(&a, &b, &e), Some(1));
    assert_eq!(Rule::SecurityWeighted(table).cost(&a, &b, &e), Some(5));
    assert_eq!(Rule::SecurityWeighted(table).cost(&b, &c, &e), Some(10));
    assert_eq!(Rule::SecurityWeighted(table).cost(&b, &a, &e), Some(2));
    let sum = Rule::All(Box::new(Rule::UnitCost), Box::new(Rule::SecurityWeighted(table)), Combinator::Sum);
    let max = Rule::All(Box::new(Rule::UnitCost), Box::new(Rule::SecurityWeighted(table)), Combinator::Max);
    assert_eq!(sum.cost(&a, &c, &e), Some(11));
    assert_eq!(max.cost(&a, &c, &e), Some(10));
    let avoid = Rule::AvoidSet(vec![1], Box::new(Rule::UnitCost));
    assert_eq!(avoid.cost(&a, &b, &e), None);
    assert_eq!(avoid.cost(&b, &a, &e), None);
    assert_eq!(avoid.cost(&b, &c, &e), Some(1));
    assert!(!avoid.admits(&a, &b, &e));
    let both = Rule::All(Box::new(Rule::UnitCost), Box::new(avoid), Combinator::Sum);
    assert_eq!(both.cost(&a, &b, &e), None);
    let huge = PenaltyTable { high: u64::MAX, low: 0, null: 0 };
    assert_eq!(Rule::SecurityWeighted(huge).cost(&b, &a, &e), Some(u64::MAX));
}

#[test]
fn security_classes() {
    assert_eq!(node(1, "a", 500, 0).security_class(), SecurityClass::High);
    assert_eq!(node(1, "a", 499, 0).security_class(), SecurityClass::Low);
    assert_eq!(node(1, "a", 1, 0).security_class(), SecurityClass::Low);
    assert_eq!(node(1, "a", 0, 0).security_class(), SecurityClass::Null);
    assert_eq!(node(1, "a", -1000, 0).security_class(), SecurityClass::Null);
}

#[test]
fn hop_ranges_grow_by_layer() {
    let nodes = (1..=6).map(|i| node(i, "n", 500, 0)).collect();
    let g = SpaceGraph::new(nodes, vec![gate(1, 3), gate(1, 2), gate(3, 4), gate(2, 5), gate(5, 6)]).unwrap();
    assert_eq!(nodes_within_hops(&g, 1, 0, &Rule::UnitCost), Ok(vec![1]));
    assert_eq!(nodes_within_hops(&g, 1, 1, &Rule::UnitCost), Ok(vec![1, 2, 3]));
    assert_eq!(nodes_within_hops(&g, 1, 2, &Rule::UnitCost), Ok(vec![1, 2, 3, 4, 5]));
    assert_eq!(nodes_within_hops(&g, 1, 3, &Rule::UnitCost), Ok(vec![1, 2, 3, 4, 5, 6]));
    assert_eq!(nodes_within_hops(&g, 1, 1000, &Rule::UnitCost), Ok(vec![1, 2, 3, 4, 5, 6]));
    let avoid = Rule::AvoidSet(vec![2], Box::new(Rule::UnitCost));
    assert_eq!(nodes_within_hops(&g, 1, 5, &avoid), Ok(vec![1, 3, 4]));
}

#[test]
fn spatial_range() {
    let g = SpaceGraph::new(
        vec![node(1, "a", 500, 0), node(2, "b", 500, 30), node(3, "c", 500, 50), node(4, "d", 500, -20)],
        vec![],
    )
    .unwrap();
    let origin = Coordinate { x: 0, y: 0, z: 0 };
    assert_eq!(nodes_within_distance(&g, origin, 0, 10), vec![1]);
    assert_eq!(nodes_within_distance(&g, origin, 2, 10), vec![1, 4]);
    assert_eq!(nodes_within_distance(&g, origin, 3, 10), vec![1, 2, 4]);
    assert_eq!(nodes_within_distance(&g, origin, u64::MAX, u64::MAX), vec![1, 2, 3, 4]);
    let far = Coordinate { x: 30, y: 40, z: 0 };
    assert_eq!(nodes_within_distance(&g, far, 5, 10), vec![1, 2, 3]);
    assert_eq!(nodes_within_distance(&g, far, 4, 10), vec![2]);
}

#[test]
fn spatial_range_is_symmetric() {
    let a = Coordinate { x: 3, y: -4, z: 12 };
    let b = Coordinate { x: 0, y: 0, z: 0 };
    let g = SpaceGraph::new(
        vec![Node { id: 1, name: "a".to_string(), coordinate: a, security: 0 }, Node { id: 2, name: "b".to_string(), coordinate: b, security: 0 }],
        vec![],
    )
    .unwrap();
    assert_eq!(nodes_within_distance(&g, a, 13, 1), vec![1, 2]);
    assert_eq!(nodes_within_distance(&g, b, 13, 1), vec![1, 2]);
    assert_eq!(nodes_within_distance(&g, a, 12, 1), vec![1]);
    assert_eq!(nodes_within_distance(&g, b, 12, 1), vec![2]);
}

#[test]
fn all_nodes_in_construction_order() {
    let g = abc();
    let ids: Vec<u32> = g.all_nodes().iter().map(|n| n.id).collect();
    assert_eq!(ids, vec![1, 2, 3]);
    assert_eq!(g.get_node(2).map(|n| n.name.clone()), Some("B".to_string()));
    assert!(g.get_node(4).is_none());
}

#[test]
fn stargate_types() {
    assert_eq!(stargate_type(1, 10, 11, 2), StargateType::Regional);
    assert_eq!(stargate_type(1, 10, 11, 1), StargateType::Constellation);
    assert_eq!(stargate_type(1, 10, 10, 1), StargateType::Local);
}

#[test]
fn builder_keeps_uri() {
    let b = DatabaseBuilder::new("file:universe.db?mode=ro");
    assert_eq!(b.uri(), "file:universe.db?mode=ro");
}
