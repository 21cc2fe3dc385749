use nordocs::doctree::{find_node, insert_as_child, place_node, remove_node};
use nordocs::model::{Node, NodeId};

fn node(id: &str, children: Vec<Node>) -> Node {
    Node {
        id: NodeId(id.to_string()),
        component: id.split('-').next().unwrap_or("").to_string(),
        inputs: Vec::new(),
        children,
    }
}

fn ids(nodes: &[Node], out: &mut Vec<String>) {
    for n in nodes {
        out.push(n.id.0.clone());
        ids(&n.children, out);
    }
}

fn all_ids(nodes: &[Node]) -> Vec<String> {
    let mut out = Vec::new();
    ids(nodes, &mut out);
    out
}

fn sample() -> Vec<Node> {
    vec![
        node("section-aabb", vec![node("para-0001", vec![]), node("para-0002", vec![])]),
        node("heading-0003", vec![]),
    ]
}

#[test]
fn remove_keeping_children_puts_them_in_its_place() {
    let mut nodes = sample();
    assert!(remove_node(&mut nodes, "section-aabb", false));
    assert_eq!(all_ids(&nodes), vec!["para-0001", "para-0002", "heading-0003"]);
    assert_eq!(nodes[0].id.0, "para-0001");
    assert!(find_node(&nodes, "section-aabb").is_none());
}

#[test]
fn remove_with_children_drops_the_subtree() {
    let mut nodes = sample();
    assert!(remove_node(&mut nodes, "section-aabb", true));
    assert_eq!(all_ids(&nodes), vec!["heading-0003"]);
}

#[test]
fn remove_nested_node_keeps_the_rest_in_order() {
    let mut nodes = sample();
    assert!(remove_node(&mut nodes, "para-0001", true));
    assert_eq!(all_ids(&nodes), vec!["section-aabb", "para-0002", "heading-0003"]);
}

#[test]
fn remove_unknown_leaves_the_tree_unchanged() {
    let mut nodes = sample();
    assert!(!remove_node(&mut nodes, "ghost-9999", false));
    assert_eq!(nodes, sample());
}

#[test]
fn inserted_child_is_found() {
    let mut nodes = sample();
    assert!(insert_as_child(&mut nodes, "para-0002", node("quote-0004", vec![])));
    assert_eq!(find_node(&nodes, "quote-0004").map(|n| n.component.clone()), Some("quote".to_string()));
    assert_eq!(
        all_ids(&nodes),
        vec!["section-aabb", "para-0001", "para-0002", "quote-0004", "heading-0003"]
    );
}

#[test]
fn place_before_and_after_a_sibling() {
    let mut nodes = sample();
    place_node(&mut nodes, node("a-1", vec![]), None, Some("para-0002"), None).expect("before");
    place_node(&mut nodes, node("b-2", vec![]), None, None, Some("heading-0003")).expect("after");
    assert_eq!(
        all_ids(&nodes),
        vec!["section-aabb", "para-0001", "a-1", "para-0002", "heading-0003", "b-2"]
    );
    let before = all_ids(&nodes);
    assert_eq!(
        place_node(&mut nodes, node("c-3", vec![]), Some("nope"), None, None),
        Err("unknown parent node id 'nope'".to_string())
    );
    assert_eq!(all_ids(&nodes), before);
}
