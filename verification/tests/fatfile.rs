use nordocs::fatfile::ndoc::NdocDocument;
use nordocs::fatfile::{compose, extract, is_four_section, FatFileSections};

#[test]
fn compose_extract_round_trips_multiline_sections() {
    let sections = FatFileSections {
        state: "// {\"template\":\"x\"}\n// line two".to_string(),
        template: "#let a = 1".to_string(),
        document: String::new(),
        images: "// img-1 base64==".to_string(),
    };
    let composed = compose(&sections).expect("compose");
    let extracted = extract(&composed).expect("extract");
    assert_eq!(extracted, sections);
}

#[test]
fn extract_errors_on_missing_marker() {
    let src = "// === STATE ===\nbody\n";
    let err = extract(src).expect_err("missing markers must error");
    assert!(
        err.to_string().contains("missing or out-of-order"),
        "unexpected error: {}",
        err.to_string()
    );
}

#[test]
fn is_four_section_classifies_state_format() {
    let composed = compose(&FatFileSections::default()).expect("compose");
    assert!(is_four_section(&composed));
}

#[test]
fn is_four_section_rejects_entry_format() {
    let entry = NdocDocument::new().compose();
    assert!(!is_four_section(&entry));
}

#[test]
fn compose_minimal_fat_file() {
    let sections = FatFileSections {
        state: "{ \"inputs\": {} }".to_string(),
        template: "#let theme = (brand: blue)".to_string(),
        document: "#doc.update(())".to_string(),
        images: "// no images".to_string(),
    };

    let composed = compose(&sections).expect("compose succeeds");
    assert_eq!(
        composed,
        "// === STATE ===\n{ \"inputs\": {} }\n\n// === TEMPLATE ===\n#let theme = (brand: blue)\n\n// === DOCUMENT ===\n#doc.update(())\n\n// === IMAGES ===\n// no images\n"
    );
}

#[test]
fn compose_extract_keeps_trailing_newlines_of_every_section() {
    let sections = FatFileSections {
        state: "s\n".to_string(),
        template: "t\n\n".to_string(),
        document: "\n".to_string(),
        images: "x\n".to_string(),
    };
    let composed = compose(&sections).expect("compose");
    assert_eq!(extract(&composed).expect("extract"), sections);
    let only_newline = FatFileSections { images: "\n".to_string(), ..FatFileSections::default() };
    assert_eq!(extract(&compose(&only_newline).unwrap()).unwrap(), only_newline);
}

#[test]
fn composed_and_four_section_formats_exclude_each_other() {
    let four = compose(&FatFileSections::default()).unwrap();
    let composed = "\n  /*===STATE-START===\n{}\n===STATE-END===*/\n";
    let entry = NdocDocument::new().compose();
    for src in [four.as_str(), composed, entry.as_str(), "", "  \n// === STATE ===  \n"] {
        assert!(!(nordocs::fatfile::composed::is_composed(src) && is_four_section(src)), "{src:?}");
    }
    assert!(is_four_section(&four) && !nordocs::fatfile::composed::is_composed(&four));
    assert!(nordocs::fatfile::composed::is_composed(composed) && !is_four_section(composed));
    assert!(!is_four_section(&entry));
}

#[test]
fn extract_fails_only_without_ordered_markers() {
    let out_of_order = "// === TEMPLATE ===\n// === STATE ===\n// === DOCUMENT ===\n// === IMAGES ===\n";
    let err = extract(out_of_order).expect_err("template before state");
    assert_eq!(
        err.to_string(),
        "fat-file error: missing or out-of-order section marker: \"// === TEMPLATE ===\""
    );
    let spaced = "// === STATE ===   \na\n// === TEMPLATE ===\n// === DOCUMENT ===\n// === IMAGES ===";
    let s = extract(spaced).expect("markers in order");
    assert_eq!(s.state, "a");
}
