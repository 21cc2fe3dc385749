use nordocs::fatfile::ndoc::{compute_entry_hash, EntryKind, NdocDocument, NdocEntry};

fn entry(name: &str, kind: EntryKind, content: &str) -> NdocEntry {
    NdocEntry {
        name: name.to_string(),
        kind,
        content: content.to_string(),
        hash: compute_entry_hash(content),
    }
}

#[test]
fn compose_empty_document() {
    assert_eq!(NdocDocument::new().compose(), "// ndoc document v1\n");
}

fn component(name: &str, content: &str) -> NdocEntry {
    entry(name, EntryKind::Component, content)
}

fn template_entry(name: &str, content: &str) -> NdocEntry {
    entry(name, EntryKind::Template, content)
}

#[test]
fn compose_single_entry() {
    let mut doc = NdocDocument::new();
    doc.entries.push(component("hero", "#let hero = ()"));
    let expected = format!(
        "// ndoc document v1\n// === NDOC-ENTRY: hero kind=component hash={} ===\n#let hero = ()\n// === NDOC-END: hero ===\n",
        compute_entry_hash("#let hero = ()")
    );
    assert_eq!(doc.compose(), expected);
}

#[test]
fn compose_multi_entry() {
    let mut doc = NdocDocument::new();
    doc.entries.push(component("hero", "#let hero = ()"));
    doc.entries.push(template_entry("page", "#let page = ()"));
    let expected = format!(
        "// ndoc document v1\n// === NDOC-ENTRY: hero kind=component hash={} ===\n#let hero = ()\n// === NDOC-END: hero ===\n// === NDOC-ENTRY: page kind=template hash={} ===\n#let page = ()\n// === NDOC-END: page ===\n",
        compute_entry_hash("#let hero = ()"),
        compute_entry_hash("#let page = ()")
    );
    assert_eq!(doc.compose(), expected);
}

#[test]
fn round_trip_single_entry() {
    let mut doc = NdocDocument::new();
    doc.entries.push(component("hero", "#let hero = ()"));
    let composed = doc.compose();
    let parsed = NdocDocument::parse(&composed).expect("parse should succeed");
    assert_eq!(doc, parsed);
}

#[test]
fn round_trip_multi_entry() {
    let mut doc = NdocDocument::new();
    doc.entries.push(component("hero", "#let hero = ()"));
    doc.entries.push(template_entry("page", "#let page = ()"));
    let composed = doc.compose();
    let parsed = NdocDocument::parse(&composed).expect("parse should succeed");
    assert_eq!(doc, parsed);
}

#[test]
fn round_trip_entries_ending_in_line_feeds() {
    let mut doc = NdocDocument::new();
    doc.entries.push(entry("a", EntryKind::Component, "first\n"));
    doc.entries.push(entry("b", EntryKind::Template, "second\nline\n"));
    let parsed = NdocDocument::parse(&doc.compose()).expect("round trip parses");
    assert_eq!(parsed, doc);
}

#[test]
fn hash_stability_unchanged() {
    let entry = component("hero", "#let hero = ()");
    assert!(
        !entry.is_content_changed(),
        "is_content_changed() must return false when content matches stored hash"
    );
}

#[test]
fn hash_changes_after_edit() {
    let mut entry = component("hero", "#let hero = ()");
    entry.content = "#let hero = (updated: true)".to_string();
    assert!(
        entry.is_content_changed(),
        "is_content_changed() must return true after content is modified"
    );
}

#[test]
fn entry_hash_is_deterministic_hex() {
    assert_eq!(compute_entry_hash("same"), compute_entry_hash("same"));
    assert_ne!(compute_entry_hash("body\n"), compute_entry_hash("edited\n"));
    let h = compute_entry_hash("body\n");
    assert_eq!(h.len(), 64);
    assert!(h.chars().all(|c| c.is_ascii_hexdigit() && !c.is_ascii_uppercase()));
}

#[test]
fn parse_rejects_bad_header() {
    let err = NdocDocument::parse("nope\n").expect_err("bad header");
    assert!(err.to_string().contains("invalid document header"));
}

#[test]
fn compose_ignores_the_stored_hash() {
    let mut a = NdocDocument::new();
    a.entries.push(component("hero", "#let hero = ()"));
    let mut b = NdocDocument::new();
    let mut stale = component("hero", "#let hero = ()");
    stale.hash = "0000".to_string();
    b.entries.push(stale);
    assert_eq!(a.compose(), b.compose());
    assert!(b.compose().contains(&compute_entry_hash("#let hero = ()")));
    assert!(!b.compose().contains("hash=0000 "));
}

#[test]
fn entry_hash_is_the_blake3_hex_digest() {
    assert_eq!(compute_entry_hash(""), "af1349b9f5f9a1a6a0404dea36dcc9499bcb25c9adc112b7cc9a93cae41f3262");
}
