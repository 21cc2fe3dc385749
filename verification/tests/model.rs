use nordocs::model::{Document, Node, NodeId};

#[test]
fn node_id_display_formats_inner_string() {
    let id = NodeId("heading-1a2b".to_string());
    assert_eq!(id.to_string(), "heading-1a2b");
}

#[test]
fn mint_produces_type_dash_4hex_format() {
    let id = NodeId::mint("heading", &[]);
    let suffix = id
        .0
        .strip_prefix("heading-")
        .expect("minted id must carry the component prefix");
    assert_eq!(suffix.len(), 4, "minted suffix must be exactly 4 hex digits");
    assert!(
        suffix.chars().all(|c| c.is_ascii_hexdigit()),
        "minted suffix must be hex: {suffix:?}"
    );
}

#[test]
fn mint_avoids_collision_with_existing_ids() {
    let mut existing: Vec<NodeId> = Vec::new();
    let mut last = NodeId::mint("para", &existing);
    for _ in 0..50 {
        assert!(
            !existing.contains(&last),
            "mint returned an id already in the set: {}",
            last.to_string()
        );
        existing.push(last.clone());
        last = NodeId::mint("para", &existing);
    }
    assert_eq!(existing.len(), 50, "every minted id must be unique");
}

#[test]
fn mint_is_deterministic() {
    assert_eq!(NodeId::mint("heading", &[]), NodeId::mint("heading", &[]));
}

#[test]
fn node_ids_collects_nested_ids() {
    let doc = Document {
        template: "t".to_string(),
        inputs: Vec::new(),
        nodes: vec![Node {
            id: NodeId("section-aabb".to_string()),
            component: "section".to_string(),
            inputs: Vec::new(),
            children: vec![Node {
                id: NodeId("para-0001".to_string()),
                component: "paragraph".to_string(),
                inputs: Vec::new(),
                children: Vec::new(),
            }],
        }],
        images: Vec::new(),
    };
    let ids = doc.node_ids();
    assert!(ids.contains(&NodeId("section-aabb".to_string())));
    assert!(ids.contains(&NodeId("para-0001".to_string())));
    assert_eq!(ids.len(), 2);
}

#[test]
fn minted_ids_never_collide() {
    let mut existing: Vec<NodeId> = Vec::new();
    for _ in 0..50 {
        let id = NodeId::mint("heading", &existing);
        assert!(!existing.contains(&id));
        assert!(id.0.starts_with("heading-"));
        existing.push(id);
    }
    assert_eq!(NodeId::mint("heading", &existing[..3]), existing[3]);
}
