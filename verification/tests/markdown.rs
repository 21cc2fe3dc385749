use nordocs::markdown::{decimal_exec, is_blank, markdown_to_typst, typst_from_commonmark_xml};

fn convert(md: &str) -> String {
    match markdown_to_typst(md) {
        Ok(s) => s,
        Err(e) => panic!("conversion should not fail: {}", e.to_string()),
    }
}

#[test]
fn markdown_to_typst_empty() {
    assert_eq!(convert(""), "");
    assert_eq!(convert("   \n\t  "), "");
}

#[test]
fn markdown_to_typst_headings() {
    assert_eq!(convert("# H1"), "= H1");
    assert_eq!(convert("## H2"), "== H2");
    assert_eq!(convert("### H3"), "=== H3");
    assert_eq!(convert("#### H4"), "==== H4");
}

#[test]
fn markdown_to_typst_bold_italic() {
    assert_eq!(convert("**bold**"), "*bold*");
    assert_eq!(convert("*italic*"), "_italic_");
}

#[test]
fn markdown_to_typst_escape() {
    assert_eq!(convert("$10"), "\\$10");
    assert_eq!(convert("user@host"), "user\\@host");
    assert_eq!(convert("foo#bar"), "foo\\#bar");
}

#[test]
fn markdown_to_typst_link() {
    assert_eq!(
        convert("[text](https://example.com)"),
        "#link(\"https://example.com\")[text]"
    );
}

#[test]
fn markdown_to_typst_image() {
    assert_eq!(convert("![alt](img.png)"), "#image(\"img.png\")");
}

#[test]
fn markdown_to_typst_code_inline() {
    assert_eq!(convert("`code`"), "`code`");
}

#[test]
fn markdown_to_typst_code_block_with_lang() {
    let input = "```rust\nfn main() {}\n```";
    let expected = "```rust\nfn main() {}\n```";
    assert_eq!(convert(input), expected);
}

#[test]
fn markdown_to_typst_code_block_no_lang() {
    let input = "```\nplain\n```";
    let expected = "```\nplain\n```";
    assert_eq!(convert(input), expected);
}

#[test]
fn markdown_to_typst_unordered_list() {
    assert_eq!(convert("- a\n- b"), "- a\n- b");
}

#[test]
fn markdown_to_typst_ordered_list() {
    assert_eq!(convert("1. a\n2. b"), "+ a\n+ b");
}

#[test]
fn markdown_to_typst_nested_list() {
    let input = "- parent\n  - child";
    let expected = "- parent\n  - child";
    assert_eq!(convert(input), expected);
}

#[test]
fn markdown_to_typst_blockquote() {
    assert_eq!(convert("> text"), "#quote(block: true)[\ntext\n]");
}

#[test]
fn markdown_to_typst_thematic_break() {
    assert_eq!(convert("---"), "#line(length: 100%)");
}

#[test]
fn markdown_to_typst_strikethrough() {
    assert_eq!(convert("~~text~~"), "#strike[text]");
}

#[test]
fn markdown_to_typst_task_list() {
    assert_eq!(convert("- [x] Done"), "- ☑ Done");
    assert_eq!(convert("- [ ] Todo"), "- ☐ Todo");
}

#[test]
fn markdown_to_typst_footnote() {
    let input = "See[^1].\n\n[^1]: Note.";
    assert_eq!(convert(input), "See#footnote[Note.].");
}

#[test]
fn markdown_to_typst_round_trips() {
    let typ = convert("# Title\n\nBody");
    assert!(typ.contains("Title"), "expected heading text in: {typ}");
}

#[test]
fn markdown_table_uses_header_alignments() {
    let typ = convert("| a | b |\n|:-:|--:|\n| 1 | 2 |");
    assert_eq!(
        typ,
        "#table(columns: 2, align: (center, right),\n  [a],  [b],\n  [1],  [2],\n)"
    );
}

#[test]
fn markdown_paragraphs_are_separated_by_a_blank_line() {
    assert_eq!(convert("one\n\ntwo"), "one\n\ntwo");
}

#[test]
fn markdown_soft_and_hard_breaks() {
    assert_eq!(convert("a\nb"), "a\nb");
    assert_eq!(convert("a  \nb"), "a \\\nb");
}

#[test]
fn typst_from_xml_reads_entities_and_attributes() {
    let xml = "<?xml version=\"1.0\" encoding=\"UTF-8\"?>\n<!DOCTYPE document SYSTEM \"CommonMark.dtd\">\n<document xmlns=\"http://commonmark.org/xml/1.0\">\n  <paragraph>\n    <text xml:space=\"preserve\">a &lt;b&gt; &amp; *c*</text>\n  </paragraph>\n</document>\n";
    let typ = typst_from_commonmark_xml(xml).ok().expect("reads");
    assert_eq!(typ, "a \\<b\\> & \\*c\\*");
}

#[test]
fn typst_from_xml_rejects_text_without_document() {
    assert!(typst_from_commonmark_xml("<paragraph />").is_err());
}

#[test]
fn decimal_digits() {
    assert_eq!(decimal_exec(0), vec!['0']);
    assert_eq!(decimal_exec(907), vec!['9', '0', '7']);
}

#[test]
fn blank_text_detection() {
    assert!(is_blank(" \t\n"));
    assert!(!is_blank(" x "));
}

#[test]
fn code_fence_info_keeps_quotes_and_entities() {
    let out = nordocs::markdown::markdown_to_typst("```rust title=\"a & b\"\nlet x = 1;\n```\n").expect("converts");
    assert_eq!(out, "```rust title=\"a & b\"\nlet x = 1;\n```");
    let out = nordocs::markdown::markdown_to_typst("```a&amp;b\nx\n```\n").expect("converts");
    assert_eq!(out, "```a&b\nx\n```");
}

#[test]
fn escaping_is_one_pass_per_character() {
    assert_eq!(markdown_to_typst("a\\*b and $10 #x").unwrap(), "a\\*b and \\$10 \\#x");
}
