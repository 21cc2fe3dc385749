use nordocs::model::InputKind;
use nordocs::schema::{with_content_inputs, Catalogue, ComponentSchema, ConstraintKind, InputSchema, TemplateSchema};

#[test]
fn catalogue_new_is_empty() {
    let cat = Catalogue::new();
    assert!(cat.components.is_empty());
    assert!(cat.templates.is_empty());
    assert!(cat.document_constraints.rules.is_empty());
}

#[test]
fn component_schema_new_fields() {
    let schema = ComponentSchema::new("x");
    assert_eq!(schema.name, "x");
    assert!(schema.inputs.is_empty());
}

#[test]
fn template_schema_new_fields() {
    let schema = TemplateSchema::new("x");
    assert_eq!(schema.name, "x");
    assert!(schema.document_inputs.is_empty());
    assert!(schema.allowed_components.is_empty());
}

#[test]
fn catalogue_lookup_component() {
    let catalogue = Catalogue::from_builtins();
    let schema = catalogue
        .component("heading")
        .expect("'heading' is a built-in component");
    assert_eq!(schema.name, "heading");
    assert!(schema.inputs.iter().any(|i| i.name == "level"));
    assert!(schema.inputs.iter().any(|i| i.name == "text"));
}

#[test]
fn catalogue_lookup_template() {
    let catalogue = Catalogue::from_builtins();
    let schema = catalogue
        .template("default")
        .expect("'default' is a built-in template");
    assert_eq!(schema.name, "default");
}

#[test]
fn catalogue_lookup_unknown_returns_none() {
    let catalogue = Catalogue::from_builtins();
    assert!(catalogue.component("nonexistent").is_none());
    assert!(catalogue.template("nonexistent").is_none());
}

#[test]
fn catalogue_document_constraints_include_all_required_kinds() {
    let catalogue = Catalogue::from_builtins();
    let kinds: Vec<ConstraintKind> = catalogue
        .document_constraints
        .rules
        .iter()
        .map(|r| r.kind)
        .collect();
    assert!(kinds.contains(&ConstraintKind::HeaderPresence));
    assert!(kinds.contains(&ConstraintKind::EntryNameUniqueness));
    assert!(kinds.contains(&ConstraintKind::ValidEntryKind));
    assert!(kinds.contains(&ConstraintKind::MarkdownFrontmatterValid));
}

#[test]
fn content_blocks_follow_declared_inputs() {
    let declared = vec![InputSchema { name: "title".to_string(), kind: InputKind::String, required: true }];
    let content = vec![("body".to_string(), false), ("lead".to_string(), true)];
    let inputs = with_content_inputs(declared, &content);
    assert_eq!(
        inputs,
        vec![
            InputSchema { name: "title".to_string(), kind: InputKind::String, required: true },
            InputSchema { name: "body".to_string(), kind: InputKind::Content, required: false },
            InputSchema { name: "lead".to_string(), kind: InputKind::Content, required: true },
        ]
    );
}
