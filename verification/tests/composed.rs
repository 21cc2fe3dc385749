use nordocs::fatfile::composed::{attr_value, is_composed, parse_content_blocks, parse_tagged_block};

#[test]
fn is_composed_rejects_entry_and_four_section_formats() {
    assert!(!is_composed("// ndoc document v1\n"));
    assert!(!is_composed("// === STATE ===\nbody\n"));
    assert!(!is_composed(""));
}

#[test]
fn parse_content_blocks_extracts_named_blocks_in_order() {
    let body = "<!-- start: intro -->\nfirst\n<!-- end -->\n<!-- start: body -->\nsecond\n<!-- end -->\n";
    let blocks = parse_content_blocks(body).expect("blocks parse");
    assert_eq!(
        blocks,
        vec![
            ("intro".to_string(), "first".to_string()),
            ("body".to_string(), "second".to_string()),
        ]
    );
}

#[test]
fn parse_content_blocks_empty_body_yields_no_blocks() {
    let blocks = parse_content_blocks("just some markdown, no markers\n").expect("parse");
    assert!(blocks.is_empty());
}

#[test]
fn parse_tagged_block_normalises_crlf_line_endings() {
    let block = "---\r\nlevel: 1\r\n---\r\n<!-- start: text -->\r\nHello\r\n<!-- end -->\r\n";
    let (yaml, content) = parse_tagged_block(block).expect("tagged block parses");
    assert_eq!(yaml, "level: 1");
    assert_eq!(content, vec![("text".to_string(), "Hello".to_string())]);
}

#[test]
fn attr_value_reads_key_regardless_of_attribute_order() {
    assert_eq!(
        attr_value("componentId=\"heading\" instance=\"aaaa\"", "instance").as_deref(),
        Some("aaaa")
    );
    assert_eq!(
        attr_value("instance=\"aaaa\" componentId=\"heading\"", "instance").as_deref(),
        Some("aaaa")
    );
}

#[test]
fn is_composed_detects_state_start_marker() {
    assert!(is_composed("/*===STATE-START===\n{}\n===STATE-END===*/\n"));
    assert!(is_composed("\n  /*===STATE-START===  \nrest"));
}

#[test]
fn state_body_requires_the_section_markers() {
    let err = nordocs::fatfile::composed::state_body("no markers here").expect_err("missing STATE must error");
    assert!(err.to_string().contains("STATE"), "unexpected error: {}", err.to_string());
    assert_eq!(
        nordocs::fatfile::composed::state_body("/*===STATE-START===\n{}\n===STATE-END===*/\n").unwrap(),
        "\n{}\n"
    );
}

#[test]
fn image_manifest_errors_without_state_section() {
    let err = nordocs::fatfile::composed::state_body("no markers here").expect_err("missing STATE must error");
    assert!(err.to_string().contains("STATE"), "unexpected error: {}", err.to_string());
}

#[test]
fn base64_decoding_accepts_exactly_canonical_texts() {
    use_decode();
}

fn use_decode() {
    let decode = nordocs::fatfile::composed::base64_decode;
    assert_eq!(decode("AA==").unwrap(), vec![0u8]);
    assert_eq!(decode("aGk=").unwrap(), b"hi".to_vec());
    assert_eq!(decode("").unwrap(), Vec::<u8>::new());
    assert!(decode("AA").is_err());
    assert!(decode("AB==").is_err());
    assert!(decode("A A=").is_err());
}
