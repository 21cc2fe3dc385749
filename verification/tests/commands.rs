use nordocs::cli::CliFormat;
use nordocs::commands::{
    build_output_path, collection_line, doc_set_message, input_format, issue_line, plan_outputs, severity_label,
    violation_line, InputFormat, OutputPart,
};
use nordocs::item::ItemIssue;
use nordocs::validation::{Severity, Violation};

#[test]
fn input_format_routes_by_suffix() {
    assert_eq!(input_format("a/doc.ndoc.typ"), Ok(InputFormat::Ndoc));
    assert_eq!(input_format("notes.md"), Ok(InputFormat::Markdown));
    assert_eq!(
        input_format("notes.txt"),
        Err("unsupported input format 'notes.txt': expected a '.md' or '.ndoc.typ' file".to_string())
    );
}

#[test]
fn build_output_replaces_the_input_suffix() {
    assert_eq!(build_output_path("dir/doc.ndoc.typ", InputFormat::Ndoc, CliFormat::Pdf), "dir/doc.pdf");
    assert_eq!(build_output_path("dir/notes.md", InputFormat::Markdown, CliFormat::Svg), "dir/notes.svg");
}

#[test]
fn plan_outputs_per_format() {
    assert_eq!(plan_outputs(CliFormat::Pdf, false, 3, "o.pdf"), vec![("o.pdf".to_string(), OutputPart::Document)]);
    assert_eq!(plan_outputs(CliFormat::Svg, true, 3, "o.svg"), vec![("o.svg".to_string(), OutputPart::MergedSvg)]);
    assert_eq!(plan_outputs(CliFormat::Png, false, 1, "o.png"), vec![("o.png".to_string(), OutputPart::Page(0))]);
    assert_eq!(
        plan_outputs(CliFormat::Png, false, 2, "out/o.png"),
        vec![
            ("out/o-1.png".to_string(), OutputPart::Page(0)),
            ("out/o-2.png".to_string(), OutputPart::Page(1)),
        ]
    );
}

#[test]
fn report_lines() {
    assert_eq!(severity_label(Severity::Warning), "warning");
    let v = Violation::error("unknown-input", "d.ndoc.typ", "boom");
    assert_eq!(violation_line(&v), "[error] d.ndoc.typ: boom");
    assert_eq!(doc_set_message(Some("h-1"), "level", "2"), "set h-1.level = 2");
    assert_eq!(doc_set_message(None, "title", "T"), "set document.title = T");
    let issue = ItemIssue {
        source_path: "a.item.md".to_string(),
        code: "missing-input".to_string(),
        message: "m".to_string(),
    };
    assert_eq!(issue_line(&issue), "a.item.md: [missing-input] m");
    assert_eq!(collection_line("projects", 12), "projects: 12 items");
}

#[test]
fn render_base_strips_the_first_matching_suffix() {
    assert_eq!(nordocs::commands::render_base("card.ncmp.typ"), Ok("card".to_string()));
    assert_eq!(nordocs::commands::render_base("dir/page.ndoct.typ"), Ok("dir/page".to_string()));
    assert_eq!(nordocs::commands::render_base("doc.ndoc.typ"), Ok("doc".to_string()));
    assert_eq!(
        nordocs::commands::render_base("placeholder.typ"),
        Err("unsupported input 'placeholder.typ': render accepts only .ncmp.typ, .ndoct.typ, or .ndoc.typ files"
            .to_string())
    );
}
