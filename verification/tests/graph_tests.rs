use gannai::common::Node;
use gannai::graph::{Arc, ArcsType, Graph};

fn node_tags(graph: &Graph) -> Vec<usize> {
    graph.nodes().iter().map(|e| e.0.0).collect()
}

fn sorted_tags(nodes: &[Node]) -> Vec<usize> {
    let mut tags: Vec<usize> = nodes.iter().map(|n| n.0).collect();
    tags.sort();
    tags
}

#[test]
fn test_create_should_succeed() {
    Graph::new();
}

#[test]
fn test_add_node_should_succeed() {
    let mut graph = Graph::new();
    graph.add_node(Node(42));
    assert!(graph.contains_node(&Node(42)));
}

#[test]
fn test_rm_node_without_arcs_should_succeed() {
    let mut graph = Graph::new();
    graph.add_node(Node(42));
    graph.rm_node(&Node(42));
    assert!(graph.nodes().is_empty());
}

#[test]
fn test_add_arc_should_succeed() {
    let mut graph = Graph::new();
    let src = Node(1);
    let dst = Node(2);
    let weight = 0.3f64;
    graph.add_node(src);
    graph.add_node(dst);
    let arc = graph.add_arc(src, dst, weight.to_bits());
    assert_eq!(arc, Arc(src, dst));
    assert_eq!(f64::from_bits(graph.arc_weight(&arc)), weight);
    let src_arcs = graph.node_arcs(&src);
    assert_eq!(src_arcs.outgoing, vec![arc]);
    assert_eq!(src_arcs.incoming, Vec::<Arc>::new());
    let dst_arcs = graph.node_arcs(&dst);
    assert_eq!(dst_arcs.outgoing, Vec::<Arc>::new());
    assert_eq!(dst_arcs.incoming, vec![arc]);
}

#[test]
fn test_rm_arc_should_succeed() {
    let mut graph = Graph::new();
    let src = Node(1);
    let dst = Node(2);
    let weight = 0.3f64;
    graph.add_node(src);
    graph.add_node(dst);
    let arc = graph.add_arc(src, dst, weight.to_bits());
    graph.rm_arc(&arc);
    assert!(graph.arcs().is_empty());
}

#[test]
fn test_union_should_succeed() {
    let node1 = Node(1);
    let node2 = Node(2);
    let node3 = Node(3);
    let node4 = Node(4);
    let mut graph1 = Graph::new();
    graph1.add_node(node1);
    graph1.add_node(node2);
    graph1.add_node(node3);
    graph1.add_arc(node1, node2, 1.0f64.to_bits());
    graph1.add_arc(node2, node3, 1.0f64.to_bits());
    let mut graph2 = Graph::new();
    graph2.add_node(node1);
    graph2.add_node(node2);
    graph2.add_node(node4);
    graph2.add_arc(node1, node2, 0.5f64.to_bits());
    graph2.add_arc(node1, node4, 1.0f64.to_bits());
    // The one arc both graphs carry, with the mean of its two weights.
    let means = vec![(Arc(node1, node2), ((1.0f64 + 0.5) / 2.0).to_bits())];
    let union = graph1.union(&graph2, &means);
    assert_eq!(node_tags(&union), vec![1, 2, 3, 4]);
    let arcs: Vec<(Arc, f64)> = union
        .arcs()
        .iter()
        .map(|e| (e.0, f64::from_bits(e.1)))
        .collect();
    assert_eq!(
        arcs,
        vec![
            (Arc(node1, node2), 0.75),
            (Arc(node1, node4), 1.0),
            (Arc(node2, node3), 1.0),
        ]
    );
    let n1 = union.node_arcs(&node1);
    assert_eq!(
        sorted_tags(&n1.outgoing.iter().map(|a| a.1).collect::<Vec<Node>>()),
        vec![2, 4]
    );
    assert!(n1.incoming.is_empty());
    let n2 = union.node_arcs(&node2);
    assert_eq!(n2.outgoing, vec![Arc(node2, node3)]);
    assert_eq!(n2.incoming, vec![Arc(node1, node2)]);
    let n3 = union.node_arcs(&node3);
    assert!(n3.outgoing.is_empty());
    assert_eq!(n3.incoming, vec![Arc(node2, node3)]);
    let n4 = union.node_arcs(&node4);
    assert!(n4.outgoing.is_empty());
    assert_eq!(n4.incoming, vec![Arc(node1, node4)]);
}

#[test]
fn test_union_is_commutative() {
    let mut a = Graph::new();
    a.add_node(Node(1));
    a.add_node(Node(2));
    a.add_arc(Node(1), Node(2), 1.0f64.to_bits());
    let mut b = Graph::new();
    b.add_node(Node(1));
    b.add_node(Node(2));
    b.add_node(Node(3));
    b.add_arc(Node(1), Node(2), 0.5f64.to_bits());
    b.add_arc(Node(2), Node(3), 0.25f64.to_bits());
    let means = vec![(Arc(Node(1), Node(2)), ((1.0f64 + 0.5) / 2.0).to_bits())];
    let ab = a.union(&b, &means);
    let ba = b.union(&a, &means);
    assert_eq!(node_tags(&ab), node_tags(&ba));
    assert_eq!(ab.arcs(), ba.arcs());
}

#[test]
fn test_connected_component_by_outgoing_for_src_with_arc_to_dst_should_return_both() {
    let mut graph = Graph::new();
    let src = Node(1);
    let dst = Node(2);
    graph.add_node(src);
    graph.add_node(dst);
    graph.add_arc(src, dst, 1.0f64.to_bits());
    let mut visited: Vec<Node> = Vec::new();
    graph.connected_component(&src, ArcsType::Outgoing, &mut visited);
    assert_eq!(sorted_tags(&visited), vec![1, 2]);
}

#[test]
fn test_connected_component_by_outgoing_for_dst_with_arc_from_src_return_dst() {
    let mut graph = Graph::new();
    let src = Node(1);
    let dst = Node(2);
    graph.add_node(src);
    graph.add_node(dst);
    graph.add_arc(src, dst, 1.0f64.to_bits());
    let mut visited: Vec<Node> = Vec::new();
    graph.connected_component(&dst, ArcsType::Outgoing, &mut visited);
    assert_eq!(sorted_tags(&visited), vec![2]);
}

#[test]
fn test_connected_component_by_incoming_for_src_with_arc_to_dst_should_return_src() {
    let mut graph = Graph::new();
    let src = Node(1);
    let dst = Node(2);
    graph.add_node(src);
    graph.add_node(dst);
    graph.add_arc(src, dst, 1.0f64.to_bits());
    let mut visited: Vec<Node> = Vec::new();
    graph.connected_component(&src, ArcsType::Incoming, &mut visited);
    assert_eq!(sorted_tags(&visited), vec![1]);
}

#[test]
fn test_connected_component_by_incoming_for_dst_with_arc_from_src_return_both() {
    let mut graph = Graph::new();
    let src = Node(1);
    let dst = Node(2);
    graph.add_node(src);
    graph.add_node(dst);
    graph.add_arc(src, dst, 1.0f64.to_bits());
    let mut visited: Vec<Node> = Vec::new();
    graph.connected_component(&dst, ArcsType::Incoming, &mut visited);
    assert_eq!(sorted_tags(&visited), vec![1, 2]);
}

#[test]
fn test_unreachable_from_for_two_return_nothing() {
    let mut graph = Graph::new();
    let first = Node(1);
    let second = Node(2);
    graph.add_node(first);
    graph.add_node(second);
    let result = graph.unreachable_from(&vec![first, second]);
    assert!(result.is_empty());
}

#[test]
fn test_unreachable_from_for_first_where_first_connected_to_second_should_return_nothing() {
    let mut graph = Graph::new();
    let first = Node(1);
    let second = Node(2);
    graph.add_node(first);
    graph.add_node(second);
    graph.add_arc(first, second, 1.0f64.to_bits());
    let result = graph.unreachable_from(&vec![first]);
    assert!(result.is_empty());
}

#[test]
fn test_unreachable_from_for_first_and_second_where_first_connected_to_second_should_return_nothing()
{
    let mut graph = Graph::new();
    let first = Node(1);
    let second = Node(2);
    graph.add_node(first);
    graph.add_node(second);
    graph.add_arc(first, second, 1.0f64.to_bits());
    let result = graph.unreachable_from(&vec![first, second]);
    assert!(result.is_empty());
}

#[test]
fn test_unreachable_from_for_first_where_second_connected_to_first_should_return_second() {
    let mut graph = Graph::new();
    let first = Node(1);
    let second = Node(2);
    graph.add_node(first);
    graph.add_node(second);
    graph.add_arc(second, first, 1.0f64.to_bits());
    let result = graph.unreachable_from(&vec![first]);
    assert_eq!(result, vec![second]);
}

#[test]
fn test_unreachable_to_for_two_return_nothing() {
    let mut graph = Graph::new();
    let first = Node(1);
    let second = Node(2);
    graph.add_node(first);
    graph.add_node(second);
    let result = graph.unreachable_to(&vec![first, second]);
    assert!(result.is_empty());
}

#[test]
fn test_unreachable_to_for_first_where_first_connected_to_second_should_return_second() {
    let mut graph = Graph::new();
    let first = Node(1);
    let second = Node(2);
    graph.add_node(first);
    graph.add_node(second);
    graph.add_arc(first, second, 1.0f64.to_bits());
    let result = graph.unreachable_to(&vec![first]);
    assert_eq!(result, vec![second]);
}

#[test]
fn test_unreachable_to_for_first_where_second_connected_to_first_should_return_nothing() {
    let mut graph = Graph::new();
    let first = Node(1);
    let second = Node(2);
    graph.add_node(first);
    graph.add_node(second);
    graph.add_arc(second, first, 1.0f64.to_bits());
    let result = graph.unreachable_to(&vec![first]);
    assert!(result.is_empty());
}

#[test]
fn test_unreachable_to_for_first_and_second_where_second_connected_to_first_should_return_nothing()
{
    let mut graph = Graph::new();
    let first = Node(1);
    let second = Node(2);
    graph.add_node(first);
    graph.add_node(second);
    graph.add_arc(second, first, 1.0f64.to_bits());
    let result = graph.unreachable_to(&vec![first, second]);
    assert!(result.is_empty());
}

#[test]
fn test_add_then_rm_node_restores_graph() {
    let mut graph = Graph::new();
    graph.add_node(Node(1));
    graph.add_node(Node(2));
    graph.add_arc(Node(1), Node(2), 0.5f64.to_bits());
    let before = graph.clone();
    graph.add_node(Node(9));
    graph.rm_node(&Node(9));
    assert_eq!(graph, before);
}

#[test]
fn test_add_then_rm_arc_restores_graph() {
    let mut graph = Graph::new();
    graph.add_node(Node(1));
    graph.add_node(Node(2));
    graph.add_node(Node(3));
    graph.add_arc(Node(1), Node(2), 0.5f64.to_bits());
    let before = graph.clone();
    let arc = graph.add_arc(Node(2), Node(3), 0.25f64.to_bits());
    graph.rm_arc(&arc);
    assert_eq!(graph, before);
}
