use nordocs::model::{Document, InputKind, InputValue, JsonValue, Node, NodeId};
use nordocs::preview::{
    compose_component_preview, compose_preview, default_for_kind, format_string_value, format_value,
    generate_document_state, generate_typst_code, strip_frontmatter,
};
use nordocs::schema::{ComponentSchema, InputSchema};

#[test]
fn strip_frontmatter_removes_leading_block() {
    let stripped = strip_frontmatter("/*---\nid: x\n---*/\n#let a = 1");
    assert_eq!(stripped, "#let a = 1");
}

#[test]
fn strip_frontmatter_removes_images_section_and_keeps_unclosed_block() {
    let src = "  /*---\nid: x\n---*/\r\n#a\n/*===IMAGES-START===\nxx\n===IMAGES-END===*/\n#b";
    assert_eq!(strip_frontmatter(src), "#a\n\n#b");
    assert_eq!(strip_frontmatter("/*--- never closed"), "/*--- never closed");
    assert_eq!(strip_frontmatter("\n\n#plain"), "#plain");
}

#[test]
fn format_value_routes_content_and_scalars() {
    assert_eq!(format_value(&JsonValue::Bool(true), false).unwrap(), "true");
    assert_eq!(format_value(&JsonValue::Null, false).unwrap(), "none");
    assert_eq!(format_value(&JsonValue::Null, true).unwrap(), "[]");
    assert_eq!(
        format_value(&JsonValue::String("a\"b".to_string()), false).unwrap(),
        "\"a\\\"b\""
    );
    assert!(format_value(&JsonValue::String("**x**".to_string()), true)
        .unwrap()
        .starts_with('['));
}

#[test]
fn format_value_numbers_empty_content_and_composites() {
    assert_eq!(format_value(&JsonValue::Number("42".to_string()), false).unwrap(), "42");
    assert_eq!(format_value(&JsonValue::String(String::new()), true).unwrap(), "[]");
    assert_eq!(format_value(&JsonValue::String("**x**".to_string()), true).unwrap(), "[*x*]");
    let arr = JsonValue::Array(vec![JsonValue::Number("1".to_string()), JsonValue::Bool(false)]);
    assert_eq!(format_value(&arr, false).unwrap(), "\"[1,false]\"");
    let obj = JsonValue::Object(vec![("k".to_string(), JsonValue::String("v".to_string()))]);
    assert_eq!(format_value(&obj, false).unwrap(), "\"{\\\"k\\\":\\\"v\\\"}\"");
}

#[test]
fn format_string_value_escapes_backslash_then_quote() {
    assert_eq!(format_string_value("a\\b\"c"), "\"a\\\\b\\\"c\"");
    assert_eq!(format_string_value(""), "\"\"");
}

#[test]
fn default_for_kind_seeds_each_kind() {
    assert_eq!(default_for_kind(InputKind::String), JsonValue::String(String::new()));
    assert_eq!(default_for_kind(InputKind::Number), JsonValue::Number("0".to_string()));
    assert_eq!(default_for_kind(InputKind::Boolean), JsonValue::Bool(false));
    assert_eq!(default_for_kind(InputKind::Color), JsonValue::String("#000000".to_string()));
}

fn string_input(name: &str, v: &str) -> (String, InputValue) {
    (
        name.to_string(),
        InputValue { kind: InputKind::String, value: JsonValue::String(v.to_string()) },
    )
}

#[test]
fn generate_document_state_lists_each_global() {
    let globals = vec![string_input("title", "My Document")];
    assert_eq!(
        generate_document_state(&globals),
        "// Document context\n#doc.update((\n  title: \"My Document\",\n))\n"
    );
}

#[test]
fn generate_typst_code_nests_children_and_breaks_pages() {
    let child = Node {
        id: NodeId("p-1".to_string()),
        component: "para".to_string(),
        inputs: vec![string_input("t", "x")],
        children: Vec::new(),
    };
    let section = Node {
        id: NodeId("s-1".to_string()),
        component: "section".to_string(),
        inputs: Vec::new(),
        children: vec![child],
    };
    let leaf = Node {
        id: NodeId("s-2".to_string()),
        component: "section".to_string(),
        inputs: Vec::new(),
        children: Vec::new(),
    };
    let mut sec = ComponentSchema::new("section");
    sec.has_body = true;
    let schemas = vec![("section".to_string(), sec)];
    let code = generate_typst_code(&vec![section, leaf], &schemas).unwrap();
    assert_eq!(
        code,
        "#section()[\n  #para(t: \"x\")\n\n]\n\n#pagebreak()\n\n#section()[]"
    );
}

#[test]
fn compose_preview_orders_sections() {
    let state = Document {
        template: "default".to_string(),
        inputs: vec![string_input("title", "T")],
        nodes: vec![Node {
            id: NodeId("section-aabb".to_string()),
            component: "section".to_string(),
            inputs: Vec::new(),
            children: Vec::new(),
        }],
        images: Vec::new(),
    };
    let sources = vec![("section".to_string(), "/*---\nx\n---*/\n#let section(body) = body".to_string())];
    let out = compose_preview(&state, "#let theme = 1", &sources, &Vec::new()).unwrap();
    assert!(out.starts_with("// ===TEMPLATE-START===\n\n// --- Theme ---\n\n#let theme = 1\n\n"));
    assert!(out.contains("\n// --- Component: section ---\n\n#let section(body) = body\n"));
    assert!(out.contains("#doc.update((\n  title: \"T\",\n))\n"));
    assert!(out.ends_with("\n// --- Document tree ---\n\n#section()\n"));
}

#[test]
fn component_preview_seeds_defaults_and_overrides() {
    let schema = ComponentSchema {
        name: "greeting".to_string(),
        has_body: false,
        allowed_children: Vec::new(),
        inputs: vec![
            InputSchema { name: "name".to_string(), kind: InputKind::String, required: true },
            InputSchema { name: "count".to_string(), kind: InputKind::Number, required: false },
        ],
    };
    let out = compose_component_preview(
        "#let greeting(name: \"\", count: 0) = [Hello #name]",
        &schema,
        vec![("name".to_string(), JsonValue::String("World".to_string()))],
        None,
    )
    .unwrap();
    assert!(out.contains("#greeting(count: 0, name: \"World\")\n"));
    assert!(out.contains("#let theme = state(\"theme\", (:))"));
    assert!(!out.contains("themeId: preview"));
}
