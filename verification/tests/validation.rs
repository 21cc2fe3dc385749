use nordocs::fatfile::composed::{DocNode, DocState, ParsedInput, Prelude, YamlScalar};
use nordocs::fatfile::ndoc::{compute_entry_hash, EntryKind, NdocDocument, NdocEntry};
use nordocs::model::{ImageRef, InputKind};
use nordocs::schema::{Catalogue, ComponentSchema, DocumentConstraints, InputSchema, TemplateSchema};
use nordocs::validation::{
    input_matches_kind_exec, is_markdown_path, validate_composed, validate_entry_document, validate_markdown_source,
    validate_ndoc_source, validate_state_against_catalogue, Severity, ValidationResult, Violation,
};
use nordocs::Error;

fn scalar_str(s: &str) -> ParsedInput {
    ParsedInput::Scalar(YamlScalar {
        is_number: false,
        is_bool: false,
        text: Some(s.to_string()),
        rendered: format!("{s}\n"),
    })
}

fn scalar_num(n: i64) -> ParsedInput {
    ParsedInput::Scalar(YamlScalar { is_number: true, is_bool: false, text: None, rendered: format!("{n}\n") })
}

fn scalar_bool(b: bool) -> ParsedInput {
    ParsedInput::Scalar(YamlScalar { is_number: false, is_bool: true, text: None, rendered: format!("{b}\n") })
}

fn input_def(name: &str, kind: InputKind, required: bool) -> InputSchema {
    InputSchema { name: name.to_string(), kind, required }
}

fn cat() -> Catalogue {
    Catalogue {
        components: vec![
            ComponentSchema {
                name: "section".to_string(),
                has_body: true,
                allowed_children: vec!["leaf".to_string()],
                inputs: vec![input_def("heading", InputKind::String, true)],
            },
            ComponentSchema {
                name: "leaf".to_string(),
                has_body: false,
                allowed_children: Vec::new(),
                inputs: Vec::new(),
            },
            ComponentSchema {
                name: "extra".to_string(),
                has_body: true,
                allowed_children: Vec::new(),
                inputs: Vec::new(),
            },
        ],
        templates: vec![TemplateSchema {
            name: "tpl".to_string(),
            document_inputs: vec![input_def("title", InputKind::String, false)],
            allowed_components: vec!["section".to_string(), "leaf".to_string()],
        }],
        document_constraints: DocumentConstraints::default(),
    }
}

fn node(id: &str, ty: &str, inputs: Vec<(&str, ParsedInput)>, children: Vec<DocNode>) -> DocNode {
    DocNode {
        id: id.to_string(),
        component_type: ty.to_string(),
        inputs: inputs.into_iter().map(|(k, v)| (k.to_string(), v)).collect(),
        children,
    }
}

fn state(global: Vec<(&str, ParsedInput)>, nodes: Vec<DocNode>) -> DocState {
    DocState {
        template_id: "tpl".to_string(),
        template_version: "1".to_string(),
        theme_id: "th".to_string(),
        global_inputs: global.into_iter().map(|(k, v)| (k.to_string(), v)).collect(),
        nodes,
    }
}

fn run(s: &DocState) -> Vec<Violation> {
    validate_state_against_catalogue(s, &cat(), "doc.ndoc.typ")
}

fn codes(vs: &[Violation]) -> Vec<&str> {
    vs.iter().map(|v| v.code.as_str()).collect()
}

#[test]
fn schema_valid_document_has_no_violations() {
    let s = state(
        vec![("title", scalar_str("Hi"))],
        vec![node(
            "section-1",
            "section",
            vec![("heading", scalar_str("H"))],
            vec![node("leaf-1", "leaf", vec![], vec![])],
        )],
    );
    assert!(run(&s).is_empty(), "valid document must produce no issues");
}

#[test]
fn schema_unknown_global_input_is_error() {
    let s = state(vec![("bogus", scalar_str("x"))], vec![]);
    let vs = run(&s);
    assert_eq!(codes(&vs), vec!["unknown-input"]);
    assert_eq!(vs[0].severity, Severity::Error);
}

#[test]
fn schema_global_input_type_mismatch_is_error() {
    let s = state(vec![("title", scalar_num(7))], vec![]);
    let vs = run(&s);
    assert_eq!(codes(&vs), vec!["input-type-mismatch"]);
}

#[test]
fn schema_component_not_in_template_allowed_is_error() {
    let s = state(vec![], vec![node("extra-1", "extra", vec![], vec![])]);
    assert!(codes(&run(&s)).contains(&"component-not-allowed"));
}

#[test]
fn schema_unknown_component_is_error() {
    let s = state(vec![], vec![node("ghost-1", "ghost", vec![], vec![])]);
    assert!(codes(&run(&s)).contains(&"component-not-allowed"), "a node with no schema must be flagged");
}

#[test]
fn schema_leaf_with_children_is_error() {
    let s = state(vec![], vec![node("leaf-1", "leaf", vec![], vec![node("leaf-2", "leaf", vec![], vec![])])]);
    assert!(codes(&run(&s)).contains(&"leaf-has-children"));
}

#[test]
fn schema_child_not_in_allowed_children_is_error() {
    let s = state(
        vec![],
        vec![node("section-1", "section", vec![("heading", scalar_str("H"))], vec![node("extra-1", "extra", vec![], vec![])])],
    );
    assert!(codes(&run(&s)).contains(&"child-not-allowed"));
}

#[test]
fn schema_unknown_node_input_is_error() {
    let s = state(
        vec![],
        vec![node("section-1", "section", vec![("heading", scalar_str("H")), ("foo", scalar_str("x"))], vec![])],
    );
    assert!(codes(&run(&s)).contains(&"unknown-input"));
}

#[test]
fn schema_node_input_type_mismatch_is_error() {
    let s = state(vec![], vec![node("section-1", "section", vec![("heading", scalar_num(3))], vec![])]);
    assert!(codes(&run(&s)).contains(&"input-type-mismatch"));
}

#[test]
fn schema_missing_required_input_is_warning_not_error() {
    let s = state(vec![], vec![node("section-1", "section", vec![], vec![])]);
    let vs = run(&s);
    assert_eq!(codes(&vs), vec!["required-input-missing"]);
    assert_eq!(vs[0].severity, Severity::Warning);
    let result = ValidationResult { violations: vs, summary: None };
    assert!(result.is_valid(), "a warning-only document is still valid");
}

#[test]
fn schema_content_value_satisfies_string_input() {
    let s = state(
        vec![],
        vec![node("section-1", "section", vec![("heading", ParsedInput::Content("body".to_string()))], vec![])],
    );
    assert!(run(&s).is_empty(), "content satisfies a String input");
}

#[test]
fn schema_numeric_string_satisfies_number_input() {
    assert!(input_matches_kind_exec(&scalar_str("42"), InputKind::Number));
    assert!(input_matches_kind_exec(&scalar_bool(true), InputKind::Boolean));
    assert!(!input_matches_kind_exec(&scalar_str("nope"), InputKind::Number));
}

#[test]
fn validation_validate_valid_ndoc_file_no_violations() {
    let raw = NdocDocument::new().compose();
    let result = validate_entry_document(&raw, "a.ndoc.typ", &Catalogue::from_builtins());
    assert!(result.is_valid(), "empty ndoc document must have no violations");
}

#[test]
fn validation_validate_ndoc_file_invalid_header_returns_violation() {
    let result = validate_entry_document("not a valid ndoc document\n", "a.ndoc.typ", &Catalogue::from_builtins());
    assert!(!result.is_valid(), "malformed header must produce at least one violation");
    assert!(
        result.violations[0].message.contains("invalid document header"),
        "violation message must describe the bad header"
    );
    assert_eq!(result.violations[0].code, "invalid-document");
}

#[test]
fn validation_validate_ndoc_file_duplicate_entry_names_returns_violation() {
    let mut doc = NdocDocument::new();
    doc.entries.push(NdocEntry {
        name: "mycomp".to_string(),
        kind: EntryKind::Component,
        content: "first".to_string(),
        hash: compute_entry_hash("first"),
    });
    doc.entries.push(NdocEntry {
        name: "mycomp".to_string(),
        kind: EntryKind::Component,
        content: "second".to_string(),
        hash: compute_entry_hash("second"),
    });
    let raw = doc.compose();
    let result = validate_entry_document(&raw, "a.ndoc.typ", &Catalogue::from_builtins());
    assert!(!result.is_valid(), "duplicate entry names must produce at least one violation");
    assert!(result.violations[0].message.contains("duplicate entry name"), "violation message must name the constraint");
    assert_eq!(result.violations.len(), 1);
    assert_eq!(result.violations[0].location, "a.ndoc.typ:mycomp");
}

#[test]
fn validation_validate_valid_markdown_file_no_violations() {
    let content = "---\ntitle: Test Doc\n---\n\n# Heading\n\nParagraph.\n";
    let result = validate_markdown_source("doc.md", content, &Catalogue::from_builtins());
    assert!(result.is_valid(), "valid markdown must have no violations");
}

#[test]
fn validation_validate_markdown_file_no_frontmatter_no_violations() {
    let content = "# Simple Heading\n\nJust a paragraph.\n";
    let result = validate_markdown_source("doc.md", content, &Catalogue::from_builtins());
    assert!(result.is_valid(), "markdown without frontmatter must have no violations");
}

#[test]
fn validation_validate_markdown_file_invalid_frontmatter_returns_violation() {
    let content = "---\ntitle: [unclosed bracket\n---\n\n# Heading\n";
    let result = validate_markdown_source("doc.md", content, &Catalogue::from_builtins());
    assert!(!result.is_valid(), "invalid YAML frontmatter must produce at least one violation");
    assert!(
        result.violations[0].message.contains("invalid YAML frontmatter"),
        "violation message must describe the frontmatter problem"
    );
    assert_eq!(result.violations[0].location, "doc.md:frontmatter");
}

#[test]
fn validation_validate_unsupported_extension_returns_violation() {
    let result = validate_markdown_source("notes.txt", "some content\n", &Catalogue::from_builtins());
    assert!(!result.is_valid(), "unsupported extension must produce a violation");
    assert!(
        result.violations[0].message.contains("unsupported file type"),
        "violation message must flag the unsupported type"
    );
    assert_eq!(result.violations[0].code, "unsupported-file-type");
}

#[test]
fn markdown_path_needs_md_extension() {
    assert!(is_markdown_path("dir/a.md"));
    assert!(!is_markdown_path("a.txt"));
    assert!(!is_markdown_path(".md"));
    assert!(!is_markdown_path("md"));
}

fn composed_doc(prelude: &str, images: &str) -> String {
    format!(
        "/*===STATE-START===\n{prelude}\n===STATE-END===*/\n/*===IMAGES-START===\n{images}===IMAGES-END===*/\n// ===TEMPLATE-START===\n// ===TEMPLATE-END===\n// ===DOCUMENT-START===\n= Doc\n"
    )
}

fn default_prelude(images: Vec<ImageRef>) -> Prelude {
    Prelude {
        template_id: Some("default".to_string()),
        template_version: None,
        theme_id: None,
        nodes: Vec::new(),
        images,
    }
}

#[test]
fn validate_composed_ndoc_file_no_violations() {
    let src = composed_doc(
        "{ \"templateId\": \"default\", \"images\": [ { \"name\": \"a.svg\", \"hash\": \"aaaa\" } ] }",
        "---aaaa---\nAA==\n---END---\n",
    );
    let prelude = default_prelude(vec![ImageRef { name: "a.svg".to_string(), hash: "aaaa".to_string() }]);
    let result = validate_composed(&src, "d.ndoc.typ", Ok(prelude), &Catalogue::from_builtins());
    assert!(result.is_valid(), "well-formed composed document must have no violations, got {:?}", result.violations);
    assert!(result.summary.is_some());
}

#[test]
fn validate_composed_ndoc_file_bad_prelude_returns_violation() {
    let src = composed_doc("{ not valid json", "");
    let err = Error::FatFile("invalid STATE prelude JSON: key must be a string".to_string());
    let result = validate_ndoc_source(&src, "d.ndoc.typ", Err(err), &Catalogue::from_builtins());
    assert!(!result.is_valid(), "malformed prelude must produce a violation");
    assert!(result.violations[0].message.contains("prelude"), "got {:?}", result.violations[0].message);
    assert!(result.summary.is_none());
}

#[test]
fn validate_composed_ndoc_file_duplicate_image_hash_returns_violation() {
    let src = composed_doc(
        "{ \"templateId\": \"t\", \"images\": [] }",
        "---aaaa---\nAA==\n---END---\n---aaaa---\nAQ==\n---END---\n",
    );
    let prelude = Prelude { template_id: Some("t".to_string()), ..default_prelude(Vec::new()) };
    let result = validate_composed(&src, "d.ndoc.typ", Ok(prelude), &Catalogue::from_builtins());
    assert!(!result.is_valid(), "duplicate image hash must produce a violation");
    assert!(result.violations[0].message.contains("duplicate hash"), "got {:?}", result.violations[0].message);
}

#[test]
fn composed_report_puts_an_unreadable_prelude_first() {
    let src = composed_doc("{}", "---aaaa---\nAA==\n---END---\n");
    let result = validate_composed(&src, "d.ndoc.typ", Err(Error::FatFile("bad prelude".to_string())), &Catalogue::from_builtins());
    assert!(!result.is_valid());
    assert_eq!(result.violations[0].code, "invalid-state-prelude");
    assert!(result.summary.is_none());
}

#[test]
fn resolve_images_skips_manifest_entries_without_blobs() {
    let src = composed_doc("{}", "---aaaa---\nAA==\n---END---\n");
    let manifest = vec![
        ImageRef { name: "missing.png".to_string(), hash: "bbbb".to_string() },
        ImageRef { name: "a.svg".to_string(), hash: "aaaa".to_string() },
        ImageRef { name: "again.svg".to_string(), hash: "aaaa".to_string() },
    ];
    let images = nordocs::fatfile::composed::resolve_images_with(&src, Ok(manifest)).expect("resolve");
    assert_eq!(images, vec![("a.svg".to_string(), vec![0u8]), ("again.svg".to_string(), vec![0u8])]);
}

#[test]
fn nested_missing_required_input_is_only_a_warning() {
    let s = state(vec![], vec![node("section-1", "section", vec![("heading", scalar_str("H"))], vec![node("section-2", "section", vec![], vec![])])]);
    let vs = run(&s);
    assert!(codes(&vs).contains(&"required-input-missing"));
    for v in vs.iter().filter(|v| v.code == "required-input-missing") {
        assert_eq!(v.severity, Severity::Warning);
    }
}
