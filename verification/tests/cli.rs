use nordocs::cli::{coerce_value, file_stem_of, page_output_path, resolve_format, stem_of, CliFormat, NumberParse};
use nordocs::commands::{build_output_path, input_format, InputFormat};
use nordocs::model::{InputKind, JsonValue};

#[test]
fn coerce_boolean_value_parses_true_and_false_to_json_bool() {
    let names: Vec<String> = Vec::new();
    assert_eq!(
        coerce_value(InputKind::Boolean, "true", &names, NumberParse::Invalid).unwrap(),
        JsonValue::Bool(true)
    );
    assert_eq!(
        coerce_value(InputKind::Boolean, "false", &names, NumberParse::Invalid).unwrap(),
        JsonValue::Bool(false)
    );
    coerce_value(InputKind::Boolean, "yes", &names, NumberParse::Invalid)
        .expect_err("a non true/false value for a boolean input is rejected");
}

#[test]
fn coerce_number_takes_the_parsed_text() {
    let names: Vec<String> = Vec::new();
    assert_eq!(
        coerce_value(InputKind::Number, "2", &names, NumberParse::Finite("2.0".to_string())).unwrap(),
        JsonValue::Number("2.0".to_string())
    );
    assert_eq!(
        coerce_value(InputKind::Number, "x", &names, NumberParse::Invalid),
        Err("value 'x' is not a valid number".to_string())
    );
    assert_eq!(
        coerce_value(InputKind::Number, "inf", &names, NumberParse::NonFinite),
        Err("value 'inf' is not a finite number".to_string())
    );
}

#[test]
fn coerce_text_kinds_keep_the_value() {
    let names: Vec<String> = Vec::new();
    assert_eq!(
        coerce_value(InputKind::String, "a b", &names, NumberParse::Invalid).unwrap(),
        JsonValue::String("a b".to_string())
    );
    assert_eq!(
        coerce_value(InputKind::Content, "**x**", &names, NumberParse::Invalid).unwrap(),
        JsonValue::String("**x**".to_string())
    );
}

#[test]
fn paths_are_read_as_std_path_reads_them() {
    assert_eq!(resolve_format(Some("out.svg/"), None), Ok(CliFormat::Svg));
    assert_eq!(resolve_format(Some("dir/out.png/."), None), Ok(CliFormat::Png));
    assert_eq!(
        resolve_format(Some("out.svg/"), Some(CliFormat::Png)),
        Err("format conflict: output extension '.svg' disagrees with --format png".to_string())
    );
    assert_eq!(resolve_format(Some("x/.."), None), Ok(CliFormat::Pdf));
    assert_eq!(resolve_format(Some(".svg"), None), Ok(CliFormat::Pdf));
    assert_eq!(input_format("doc.md/"), Ok(InputFormat::Markdown));
    assert_eq!(build_output_path("doc.md/", InputFormat::Markdown, CliFormat::Pdf), "doc.pdf");
    assert_eq!(stem_of("dir/out.svg/"), "dir/out");
    assert_eq!(stem_of("a.tar.gz"), "a.tar");
    assert_eq!(stem_of("x/.."), "x/..");
    assert_eq!(page_output_path("out.svg/", 2, "svg"), "out-2.svg");
    assert_eq!(file_stem_of("dir/notes.md"), "notes");
    assert_eq!(file_stem_of(".bashrc"), ".bashrc");
    assert_eq!(file_stem_of("/"), "");
}

#[test]
fn markdown_paths_are_read_as_std_path_reads_them() {
    assert!(nordocs::validation::is_markdown_path("doc.md/"));
    assert!(nordocs::validation::is_markdown_path("dir/doc.md/."));
    assert!(!nordocs::validation::is_markdown_path("doc.md/.."));
}
