use nordocs::fatfile::images::{parse_images_section, write_images_section};

#[test]
fn images_section_round_trips_bytes_by_hash() {
    let images = vec![
        ("aaaa".to_string(), vec![0u8, 1, 2, 255]),
        ("bbbb".to_string(), b"PNG\x89".to_vec()),
    ];
    let body = write_images_section(&images);
    for line in body.lines() {
        assert!(line.starts_with("// "), "image line must be inert: {line:?}");
    }
    let parsed = parse_images_section(&body);
    assert_eq!(parsed, images);
}

#[test]
fn images_section_skips_malformed_lines() {
    let body = "// not-a-valid-line\n// aaaa AAEC/w==\nrandom text";
    let parsed = parse_images_section(body);
    assert_eq!(parsed.len(), 1);
    assert_eq!(parsed[0], ("aaaa".to_string(), vec![0u8, 1, 2, 255]));
}

#[test]
fn empty_images_section_parses_to_empty_map() {
    assert!(parse_images_section("").is_empty());
}

#[test]
fn images_section_later_line_wins_and_bad_payload_is_skipped() {
    let body = "// h AA==\n// h AQ==\n// g !!!";
    let parsed = parse_images_section(body);
    assert_eq!(parsed, vec![("h".to_string(), vec![1u8])]);
    assert_eq!(write_images_section(&vec![("h".to_string(), vec![1u8])]), "// h AQ==");
}
