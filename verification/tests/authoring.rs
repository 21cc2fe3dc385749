use nordocs::authoring::{add_entry, create_document, edit_entry, embed_image, record_image, ImageEmbed};
use nordocs::fatfile::images::parse_images_section;
use nordocs::fatfile::{extract, FatFileSections};
use nordocs::fatfile::ndoc::{compute_entry_hash, EntryKind, NdocDocument};
use nordocs::model::ImageRef;
use nordocs::error::IoKind;
use nordocs::Error;

#[test]
fn create_document_refuses_existing_path() {
    let text = create_document("a.ndoc.typ", false).expect("new document");
    assert_eq!(text, "// ndoc document v1\n");
    match create_document("a.ndoc.typ", true) {
        Err(Error::Io(kind, m)) => {
            assert_eq!(kind, IoKind::AlreadyExists);
            assert_eq!(m, "document already exists: a.ndoc.typ");
        },
        other => panic!("unexpected {other:?}"),
    }
}

#[test]
fn add_then_read_back_entry() {
    let empty = create_document("d", false).unwrap();
    let text = add_entry(&empty, "d", "card", EntryKind::Component, "#let card() = []\n").expect("add");
    let doc = NdocDocument::parse(&text).expect("parses");
    assert_eq!(doc.entries.len(), 1);
    assert_eq!(doc.entries[0].name, "card");
    assert_eq!(doc.entries[0].hash, compute_entry_hash("#let card() = []\n"));
}

#[test]
fn add_duplicate_entry_is_refused() {
    let empty = create_document("d", false).unwrap();
    let text = add_entry(&empty, "d", "card", EntryKind::Component, "x\n").unwrap();
    match add_entry(&text, "d.ndoc.typ", "card", EntryKind::Template, "y\n") {
        Err(Error::Authoring(m)) => {
            assert_eq!(m, "duplicate-entry: an entry named \"card\" already exists in d.ndoc.typ")
        },
        other => panic!("unexpected {other:?}"),
    }
}

#[test]
fn edit_entry_replaces_content_and_hash() {
    let empty = create_document("d", false).unwrap();
    let text = add_entry(&empty, "d", "card", EntryKind::Template, "old\n").unwrap();
    let edited = edit_entry(&text, "d", "card", "new\n").expect("edit");
    let doc = NdocDocument::parse(&edited).unwrap();
    assert_eq!(doc.entries[0].content, "new\n");
    assert_eq!(doc.entries[0].kind, EntryKind::Template);
    assert_eq!(doc.entries[0].hash, compute_entry_hash("new\n"));
    match edit_entry(&text, "d", "missing", "z") {
        Err(Error::Authoring(m)) => assert_eq!(m, "entry-not-found: no entry named \"missing\" in d"),
        other => panic!("unexpected {other:?}"),
    }
}

#[test]
fn add_entry_to_unparsable_text_is_fat_file_error() {
    assert!(matches!(add_entry("garbage", "d", "a", EntryKind::Component, "x"), Err(Error::FatFile(_))));
}

fn sample_sections() -> FatFileSections {
    extract(&write_document_text(None, "{\n  \"template\": \"default\"\n}").expect("write")).expect("extract")
}

#[test]
fn embed_image_is_idempotent_on_identical_content() {
    let mut sections = sample_sections();
    let mut images: Vec<ImageRef> = Vec::new();
    assert_eq!(
        embed_image(&mut sections, &mut images, "logo.png", b"SAME").expect("first embed"),
        ImageEmbed::Added
    );
    assert_eq!(
        embed_image(&mut sections, &mut images, "logo.png", b"SAME").expect("second embed"),
        ImageEmbed::AlreadyPresent
    );
    assert_eq!(images.len(), 1, "identical re-embed must not duplicate");
}

#[test]
fn embed_image_rejects_name_with_different_content() {
    let mut sections = sample_sections();
    let mut images: Vec<ImageRef> = Vec::new();
    embed_image(&mut sections, &mut images, "logo.png", b"ONE").expect("first embed");
    let before = sections.clone();
    let err = embed_image(&mut sections, &mut images, "logo.png", b"TWO").expect_err("conflict must error");
    assert!(matches!(err, Error::Authoring(_)), "unexpected error: {}", err.to_string());
    assert_eq!(err.to_string(), "authoring error: image 'logo.png' is already embedded with different content");
    assert_eq!(images.len(), 1);
    assert_eq!(sections, before);
}

#[test]
fn embed_image_stores_bytes_once_per_digest() {
    let mut sections = sample_sections();
    let mut images: Vec<ImageRef> = Vec::new();
    embed_image(&mut sections, &mut images, "a.png", b"SHARED").expect("embed a");
    embed_image(&mut sections, &mut images, "b.png", b"SHARED").expect("embed b");
    assert_eq!(images.len(), 2);
    assert_eq!(images[0].hash, images[1].hash);
    assert_eq!(images[0].hash, compute_entry_hash("SHARED"));
    let stored = parse_images_section(&sections.images);
    assert_eq!(stored, vec![(images[0].hash.clone(), b"SHARED".to_vec())]);
    assert_eq!(sections.images, format!("// {} U0hBUkVE", images[0].hash));
}

#[test]
fn record_image_keeps_one_entry_per_name() {
    let mut images: Vec<ImageRef> = Vec::new();
    assert_eq!(record_image(&mut images, "logo.png", "aaaa").unwrap(), ImageEmbed::Added);
    assert_eq!(record_image(&mut images, "logo.png", "aaaa").unwrap(), ImageEmbed::AlreadyPresent);
    assert_eq!(images.len(), 1);
    assert_eq!(record_image(&mut images, "other.png", "aaaa").unwrap(), ImageEmbed::Added);
    assert_eq!(images.len(), 2);
    match record_image(&mut images, "logo.png", "bbbb") {
        Err(Error::Authoring(m)) => assert_eq!(m, "image 'logo.png' is already embedded with different content"),
        other => panic!("unexpected {other:?}"),
    }
    assert_eq!(images.len(), 2);
}

use nordocs::authoring::{add_node, apply_doc_set, decode_state, document_json, encode_state, write_document_text};
use nordocs::cli::NumberParse;
use nordocs::model::{Document, InputKind, InputValue, JsonValue, Node, NodeId};
use nordocs::schema::Catalogue;

#[test]
fn state_block_lines_are_comment_prefixed() {
    let json = "{\n  \"template\": \"t\",\n\n  \"nodes\": []\n}";
    let state = encode_state(json);
    assert_eq!(state, "// {\n//   \"template\": \"t\",\n//\n//   \"nodes\": []\n// }");
    assert_eq!(decode_state(&state), json);
}

#[test]
fn write_then_read_round_trips_document() {
    let json = "{\n  \"template\": \"default\"\n}";
    let text = write_document_text(None, json).expect("write");
    assert!(text.starts_with("// === STATE ===\n// {\n"));
    assert_eq!(document_json(&text, "d.ndoc.typ").expect("read"), json);
}

#[test]
fn write_preserves_other_sections() {
    let first = write_document_text(None, "{}").unwrap();
    let with_images = first.replace("// === IMAGES ===\n", "// === IMAGES ===\n// aaaa AAEC/w==");
    let second = write_document_text(Some(&with_images), "{\"a\": 1}").unwrap();
    assert!(second.contains("// aaaa AAEC/w=="));
    assert_eq!(document_json(&second, "d").unwrap(), "{\"a\": 1}");
}

#[test]
fn read_rejects_entry_format_file() {
    match document_json("// ndoc document v1\n", "x.ndoc.typ") {
        Err(Error::FatFile(m)) => assert_eq!(m, "not a four-section authoring document: x.ndoc.typ"),
        other => panic!("unexpected {other:?}"),
    }
}

fn sample() -> Document {
    Document {
        template: "default".to_string(),
        inputs: Vec::new(),
        nodes: vec![Node {
            id: NodeId("heading-1".to_string()),
            component: "heading".to_string(),
            inputs: Vec::new(),
            children: Vec::new(),
        }],
        images: Vec::new(),
    }
}

#[test]
fn doc_set_node_and_document_inputs() {
    let cat = Catalogue::from_builtins();
    let mut doc = sample();
    apply_doc_set(&mut doc, &cat, Some("heading-1"), false, "level", "2", NumberParse::Finite("2.0".to_string()))
        .expect("node input set");
    assert_eq!(
        doc.nodes[0].inputs,
        vec![(
            "level".to_string(),
            InputValue { kind: InputKind::Number, value: JsonValue::Number("2.0".to_string()) }
        )]
    );
    apply_doc_set(&mut doc, &cat, None, true, "title", "Hello", NumberParse::Invalid).expect("document input set");
    assert_eq!(
        doc.inputs,
        vec![("title".to_string(), InputValue { kind: InputKind::String, value: JsonValue::String("Hello".to_string()) })]
    );
}

#[test]
fn doc_set_refusals_leave_document_unchanged() {
    let cat = Catalogue::from_builtins();
    let mut doc = sample();
    let r = apply_doc_set(&mut doc, &cat, Some("heading-1"), true, "level", "2", NumberParse::Invalid);
    assert_eq!(r, Err("specify exactly one target: a <node_id> or --document".to_string()));
    let r = apply_doc_set(&mut doc, &cat, Some("nope"), false, "level", "2", NumberParse::Invalid);
    assert_eq!(r, Err("unknown node id 'nope'".to_string()));
    let r = apply_doc_set(&mut doc, &cat, Some("heading-1"), false, "bogus", "2", NumberParse::Invalid);
    assert_eq!(r, Err("input 'bogus' is not in the schema for component 'heading'".to_string()));
    let r = apply_doc_set(&mut doc, &cat, Some("heading-1"), false, "level", "x", NumberParse::Invalid);
    assert_eq!(r, Err("value 'x' is not a valid number".to_string()));
    let r = apply_doc_set(&mut doc, &cat, None, true, "subtitle", "x", NumberParse::Invalid);
    assert_eq!(r, Err("input 'subtitle' is not in the schema for template 'default'".to_string()));
    assert_eq!(doc, sample());
}

#[test]
fn add_node_mints_a_fresh_id_and_places_the_node() {
    let mut doc = sample();
    let first = add_node(&mut doc, "paragraph", Vec::new(), Some("heading-1"), None, None).expect("placed");
    assert!(first.0.starts_with("paragraph-"));
    assert_eq!(first.0.len(), "paragraph-".len() + 4);
    assert_eq!(doc.nodes[0].children.len(), 1);
    assert_eq!(doc.nodes[0].children[0].id, first);
    assert_eq!(doc.nodes[0].children[0].component, "paragraph");
    let second = add_node(&mut doc, "paragraph", Vec::new(), None, None, None).expect("appended");
    assert_ne!(first, second);
    assert_eq!(doc.nodes.len(), 2);
    assert_eq!(doc.nodes[1].id, second);
    let ids = doc.node_ids();
    assert_eq!(ids.len(), 3);
}

#[test]
fn add_node_with_unknown_target_is_refused() {
    let mut doc = sample();
    let r = add_node(&mut doc, "paragraph", Vec::new(), None, Some("ghost-9999"), None);
    assert_eq!(r, Err("unknown node id 'ghost-9999'".to_string()));
    assert_eq!(doc, sample());
}

#[test]
fn transaction_commits_the_working_document() {
    let tx = nordocs::authoring::AuthoringTransaction::new(sample());
    assert_eq!(tx.document(), &sample());
    assert!(tx.validate().is_ok());
    assert_eq!(tx.commit().expect("commit"), sample());
}
