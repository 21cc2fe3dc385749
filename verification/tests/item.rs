use nordocs::item::{image_locations, item_frontmatter, summarise_collections, validate_items, Item};
use nordocs::model::InputKind;
use nordocs::schema::{ComponentSchema, InputSchema};

fn schema(name: &str, inputs: Vec<InputSchema>) -> ComponentSchema {
    ComponentSchema { name: name.to_string(), inputs, has_body: true, allowed_children: Vec::new() }
}

fn required(name: &str, kind: InputKind) -> InputSchema {
    InputSchema { name: name.to_string(), kind, required: true }
}

fn item(schema: &str, collection: &str, inputs: Vec<(&str, &str)>, path: &str) -> Item {
    Item {
        schema: schema.to_string(),
        collection: collection.to_string(),
        tags: Vec::new(),
        inputs: inputs.into_iter().map(|(k, v)| (k.to_string(), v.to_string())).collect(),
        source_path: path.to_string(),
    }
}

#[test]
fn frontmatter_is_found_after_leading_blanks() {
    let src = "\u{feff}\n---\n$schema: project\n$collection: projects\n---\n# body\n";
    assert_eq!(item_frontmatter(src).as_deref(), Some("$schema: project\n$collection: projects"));
    assert_eq!(item_frontmatter("---\r\na: 1\r\n---\r\n").as_deref(), Some("a: 1"));
    assert_eq!(item_frontmatter("# no frontmatter"), None);
    assert_eq!(item_frontmatter("---\nunclosed: true\n"), None);
}

#[test]
fn summarise_groups_by_collection() {
    let items = vec![
        item("project", "projects", vec![], "a.item.md"),
        item("person", "people", vec![], "b.item.md"),
        item("project", "projects", vec![], "c.item.md"),
    ];
    let summary = summarise_collections(&items);
    assert_eq!(summary, vec![("people".to_string(), 1), ("projects".to_string(), 2)]);
}

/// The item that `VALID_ITEM` in the item tests parses to:
/// `$schema: project`, `$collection: projects`, `$tags: [flagship]`,
/// `title: Northwind`, `budget: 4200`, read from `a.item.md`.
fn valid_item() -> Item {
    Item {
        schema: "project".to_string(),
        collection: "projects".to_string(),
        tags: vec!["flagship".to_string()],
        inputs: vec![("budget".to_string(), "4200".to_string()), ("title".to_string(), "Northwind".to_string())],
        source_path: "a.item.md".to_string(),
    }
}

#[test]
fn validate_reports_unknown_schema() {
    let item = valid_item();
    let issues = validate_items(&[item], &[], &[]);
    assert_eq!(issues.len(), 1);
    assert_eq!(issues[0].code, "unknown-schema");
    assert_eq!(issues[0].source_path, "a.item.md");
}

#[test]
fn validate_reports_missing_required_input() {
    let item = valid_item();
    let comp = schema(
        "project",
        vec![
            required("title", InputKind::String),
            required("lead", InputKind::String),
        ],
    );
    let issues = validate_items(&[item], &[comp], &[]);
    assert_eq!(issues.len(), 1, "title present, lead missing");
    assert_eq!(issues[0].code, "missing-input");
    assert!(issues[0].message.contains("lead"));
}

#[test]
fn validate_passes_when_required_inputs_present() {
    let item = valid_item();
    let comp = schema("project", vec![required("title", InputKind::String)]);
    assert!(validate_items(&[item], &[comp], &[]).is_empty());
}

#[test]
fn validate_reports_missing_image() {
    // `---\n$schema: project\n$collection: projects\nlogo: missing.png\n---\n`
    // written to `a.item.md` in an otherwise empty directory.
    let item = item("project", "projects", vec![("logo", "missing.png")], "tmp/a.item.md");
    let comp = schema("project", vec![required("logo", InputKind::Image)]);
    let issues = validate_items(&[item], &[comp], &[]);
    assert_eq!(issues.len(), 1);
    assert_eq!(issues[0].code, "missing-image");
}

#[test]
fn validate_resolves_present_image() {
    // `logo.png` ("fake png bytes") sits next to `a.item.md`, whose
    // frontmatter is `$schema: project`, `$collection: projects`, `logo: logo.png`.
    let item = item("project", "projects", vec![("logo", "logo.png")], "tmp/a.item.md");
    let comp = schema("project", vec![required("logo", InputKind::Image)]);
    let comps = [comp];
    assert_eq!(image_locations(&[item.clone()], &comps), vec!["tmp/logo.png".to_string()]);
    assert!(validate_items(&[item], &comps, &["tmp/logo.png".to_string()]).is_empty());
}

#[test]
fn validate_unknown_schema_names_the_schema() {
    let items = vec![item("ghost", "c", vec![], "dir/x.item.md")];
    let issues = validate_items(&items, &[schema("project", vec![])], &[]);
    assert_eq!(issues.len(), 1);
    assert_eq!(issues[0].code, "unknown-schema");
    assert!(issues[0].message.contains("ghost"));
}

#[test]
fn missing_input_message_is_exact() {
    let items = vec![item("project", "c", vec![], "dir/x.item.md")];
    let issues = validate_items(&items, &[schema("project", vec![required("title", InputKind::String)])], &[]);
    assert_eq!(issues.len(), 1);
    assert_eq!(issues[0].message, "required input 'title' is missing");
}

#[test]
fn missing_image_message_names_the_resolved_path() {
    let items = vec![item("project", "c", vec![("cover", "cover.png")], "dir/x.item.md")];
    let comps = [schema("project", vec![required("cover", InputKind::Image)])];
    assert_eq!(image_locations(&items, &comps), vec!["dir/cover.png".to_string()]);
    let issues = validate_items(&items, &comps, &[]);
    assert_eq!(issues.len(), 1);
    assert_eq!(issues[0].code, "missing-image");
    assert_eq!(
        issues[0].message,
        "image input 'cover' references 'cover.png' which does not exist at 'dir/cover.png'"
    );
}

#[test]
fn summary_counts_every_collection_once() {
    let items = vec![
        item("a", "zeta", vec![], "1.item.md"),
        item("a", "alpha", vec![], "2.item.md"),
        item("a", "zeta", vec![], "3.item.md"),
        item("a", "mid", vec![], "4.item.md"),
        item("a", "zeta", vec![], "5.item.md"),
    ];
    let summary = summarise_collections(&items);
    assert_eq!(
        summary,
        vec![("alpha".to_string(), 1), ("mid".to_string(), 1), ("zeta".to_string(), 3)]
    );
    let total: usize = summary.iter().map(|(_, n)| *n).sum();
    assert_eq!(total, items.len());
    assert!(summarise_collections(&[]).is_empty());
}

#[test]
fn images_are_looked_for_in_the_std_parent_directory() {
    let comps = [schema("project", vec![required("logo", InputKind::Image)])];
    let at = |path: &str| image_locations(&[item("project", "c", vec![("logo", "logo.png")], path)], &comps);
    assert_eq!(at("dir/sub//a.item.md"), vec!["dir/sub/logo.png".to_string()]);
    assert_eq!(at("dir/./a.item.md"), vec!["dir/logo.png".to_string()]);
    assert_eq!(at("./a.item.md"), vec!["./logo.png".to_string()]);
    assert_eq!(at("/a.item.md"), vec!["/logo.png".to_string()]);
    assert_eq!(at("a.item.md"), vec!["logo.png".to_string()]);
}
