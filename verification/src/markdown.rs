//! Markdown to Typst conversion.
//!
//! The Markdown text is parsed by `comrak` (CommonMark with the GFM tables,
//! task lists, strikethrough, footnotes and autolinks), which hands its
//! syntax tree over as CommonMark XML ([`crate::xml`]). Conversion is then
//! two passes over that tree:
//! 1. collect the footnote definitions by name;
//! 2. walk the tree and emit Typst markup, substituting `#footnote[...]` at
//!    each footnote reference.
use vstd::prelude::*;

use crate::error::Error;
use crate::text::{
    join, join_exec, views, chars_eq, chars_of, push_all, push_str, string_of, trim, trim_end, trim_end_len, trim_start_pos,
};
use crate::xml::{
    attr, attr_exec, attr_views, document, lemma_trees_of, read_document, tree_of, trees_of,
    XmlNode, XmlTree,
};

verus! {

// ---------------------------------------------------------------------------
// The parser.
// ---------------------------------------------------------------------------

/// The CommonMark XML that comrak produces for a Markdown text with the given
/// extensions switched on.
pub uninterp spec fn spec_commonmark_xml(
    markdown: Seq<char>,
    table: bool,
    strikethrough: bool,
    tasklist: bool,
    footnotes: bool,
    autolink: bool,
) -> Seq<char>;

/// Parse `markdown` with comrak and render its syntax tree as CommonMark XML.
///
/// Trusted: builds `comrak::Options` with the given extension switches (the
/// rest at their defaults) and calls `comrak::markdown_to_commonmark_xml`.
/// The contract names the XML text, which depends on the arguments alone.
#[verifier::external_body]
fn commonmark_xml(
    markdown: &str,
    table: bool,
    strikethrough: bool,
    tasklist: bool,
    footnotes: bool,
    autolink: bool,
) -> (xml: String)
    ensures
        xml@ == spec_commonmark_xml(markdown@, table, strikethrough, tasklist, footnotes, autolink),
{
    let mut options = comrak::Options::default();
    options.extension.table = table;
    options.extension.strikethrough = strikethrough;
    options.extension.tasklist = tasklist;
    options.extension.footnotes = footnotes;
    options.extension.autolink = autolink;
    comrak::markdown_to_commonmark_xml(markdown, &options)
}

/// The syntax tree of `markdown` with the GFM extensions the converter relies
/// on: tables, strikethrough, task lists, footnotes and autolinks.
pub open spec fn gfm_xml(markdown: Seq<char>) -> Seq<char> {
    spec_commonmark_xml(markdown, true, true, true, true, true)
}

// ---------------------------------------------------------------------------
// Typst rendering, as a function of the tree.
// ---------------------------------------------------------------------------

/// A character that has a meaning in Typst markup.
pub open spec fn is_typst_special(c: char) -> bool {
    c == '\\' || c == '*' || c == '_' || c == '#' || c == '@' || c == '<' || c == '>' || c == '$'
}

/// Literal text with every Typst-special character escaped by a backslash.
pub open spec fn escape_typst(t: Seq<char>) -> Seq<char>
    decreases t.len(),
{
    if t.len() == 0 {
        seq![]
    } else {
        (if is_typst_special(t[0]) {
            seq!['\\', t[0]]
        } else {
            seq![t[0]]
        }) + escape_typst(t.drop_first())
    }
}

/// What one character of literal text becomes: a Typst-special character
/// with a backslash before it, any other character as itself.
pub open spec fn escape_char(c: char) -> Seq<char> {
    if is_typst_special(c) {
        seq!['\\', c]
    } else {
        seq![c]
    }
}

/// Escaping is one pass over the text: each character is replaced by its
/// escaped form, independently of the others (backslashes that escaping
/// inserts are not escaped again).
pub proof fn law_escape_per_character(t: Seq<char>)
    ensures
        escape_typst(t) == t.map_values(|c: char| escape_char(c)).flatten(),
    decreases t.len(),
{
    if t.len() > 0 {
        law_escape_per_character(t.drop_first());
        let m = t.map_values(|c: char| escape_char(c));
        assert(m.drop_first() =~= t.drop_first().map_values(|c: char| escape_char(c)));
        assert(m.first() == escape_char(t[0]));
    } else {
        assert(t.map_values(|c: char| escape_char(c)) =~= Seq::<Seq<char>>::empty());
    }
}

/// Literal text comes out with a backslash before each of the characters
/// that Typst markup gives a meaning to (backslash, `*`, `_`, `#`, `@`, `<`,
/// `>` and `$`) and every other character as it is, so `snake_case` becomes
/// `snake\_case`; a text node renders as exactly that.
pub proof fn law_text_escapes_markup(t: Seq<char>, n: XmlTree, fs: Seq<(Seq<char>, Seq<char>)>)
    ensures
        escape_typst(t) == t.map_values(
            |c: char|
                if c == '\\' || c == '*' || c == '_' || c == '#' || c == '@' || c == '<' || c == '>' || c == '$' {
                    seq!['\\', c]
                } else {
                    seq![c]
                },
        ).flatten(),
        n.tag == "text"@ ==> render_inline(n, fs) == n.text.map_values(
            |c: char|
                if c == '\\' || c == '*' || c == '_' || c == '#' || c == '@' || c == '<' || c == '>' || c == '$' {
                    seq!['\\', c]
                } else {
                    seq![c]
                },
        ).flatten(),
{
    law_escape_per_character(t);
    law_escape_per_character(n.text);
    assert(t.map_values(|c: char| escape_char(c)) =~= t.map_values(
        |c: char|
            if c == '\\' || c == '*' || c == '_' || c == '#' || c == '@' || c == '<' || c == '>' || c == '$' {
                seq!['\\', c]
            } else {
                seq![c]
            },
    ));
    assert(n.text.map_values(|c: char| escape_char(c)) =~= n.text.map_values(
        |c: char|
            if c == '\\' || c == '*' || c == '_' || c == '#' || c == '@' || c == '<' || c == '>' || c == '$' {
                seq!['\\', c]
            } else {
                seq![c]
            },
    ));
}

/// The value of attribute `name`, or the empty text.
pub open spec fn attr_or_empty(n: XmlTree, name: Seq<char>) -> Seq<char> {
    match attr(n.attrs, name) {
        Some(v) => v,
        None => seq![],
    }
}

/// The body of the last footnote definition named `name`.
pub open spec fn footnote_body(fs: Seq<(Seq<char>, Seq<char>)>, name: Seq<char>) -> Option<Seq<char>>
    decreases fs.len(),
{
    if fs.len() == 0 {
        None
    } else if fs.last().0 == name {
        Some(fs.last().1)
    } else {
        footnote_body(fs.drop_last(), name)
    }
}

/// The Typst markup of one inline node.
pub open spec fn render_inline(n: XmlTree, fs: Seq<(Seq<char>, Seq<char>)>) -> Seq<char>
    decreases n, 1int,
{
    let tag = n.tag;
    if tag == "text"@ {
        escape_typst(n.text)
    } else if tag == "softbreak"@ {
        seq!['\n']
    } else if tag == "linebreak"@ {
        " \\\n"@
    } else if tag == "code"@ {
        seq!['`'] + n.text + seq!['`']
    } else if tag == "html_inline"@ {
        n.text
    } else if tag == "emph"@ {
        seq!['_'] + render_inlines(n.children, fs) + seq!['_']
    } else if tag == "strong"@ {
        seq!['*'] + render_inlines(n.children, fs) + seq!['*']
    } else if tag == "strikethrough"@ {
        "#strike["@ + render_inlines(n.children, fs) + seq![']']
    } else if tag == "link"@ {
        "#link(\""@ + attr_or_empty(n, "destination"@) + "\")["@ + render_inlines(n.children, fs)
            + seq![']']
    } else if tag == "image"@ {
        "#image(\""@ + attr_or_empty(n, "destination"@) + "\")"@
    } else if tag == "footnote_reference"@ {
        match footnote_body(fs, attr_or_empty(n, "label"@)) {
            Some(b) => "#footnote["@ + b + seq![']'],
            None => seq![],
        }
    } else {
        render_inlines(n.children, fs)
    }
}

/// The Typst markup of a run of inline nodes.
pub open spec fn render_inlines(cs: Seq<XmlTree>, fs: Seq<(Seq<char>, Seq<char>)>) -> Seq<char>
    decreases cs, 0int,
{
    if cs.len() == 0 {
        seq![]
    } else {
        render_inline(cs[0], fs) + render_inlines(cs.drop_first(), fs)
    }
}

/// `s` repeated `n` times.
pub open spec fn repeat(s: Seq<char>, n: nat) -> Seq<char>
    decreases n,
{
    if n == 0 {
        seq![]
    } else {
        repeat(s, (n - 1) as nat) + s
    }
}

/// The level a heading's `level` attribute gives (one decimal digit).
pub open spec fn heading_level(t: Seq<char>) -> nat {
    if t.len() == 1 && '0' <= t[0] <= '9' {
        (t[0] as int - '0' as int) as nat
    } else {
        0
    }
}

/// A list whose `type` attribute is `ordered`.
pub open spec fn is_ordered(n: XmlTree) -> bool {
    attr_or_empty(n, "type"@) == "ordered"@
}

/// The markup of one child of a list item: a paragraph gets the item's
/// prefix when `prefix` is given; a nested list is indented one level more.
pub open spec fn render_item_child(
    c: XmlTree,
    fs: Seq<(Seq<char>, Seq<char>)>,
    depth: nat,
    prefix: Seq<char>,
) -> Seq<char>
    decreases c, 3int,
{
    if c.tag == "paragraph"@ {
        prefix + render_inlines(c.children, fs) + seq!['\n']
    } else if c.tag == "list"@ {
        render_list(c, fs, depth + 1)
    } else {
        seq![]
    }
}

/// The children of a task item: the first paragraph gets `prefix`, later
/// paragraphs none.
pub open spec fn render_task_children(
    cs: Seq<XmlTree>,
    fs: Seq<(Seq<char>, Seq<char>)>,
    depth: nat,
    prefix: Seq<char>,
    wrote: bool,
) -> Seq<char>
    decreases cs, 5int,
{
    if cs.len() == 0 {
        seq![]
    } else {
        let c = cs[0];
        let p = if wrote {
            seq![]
        } else {
            prefix
        };
        render_item_child(c, fs, depth, p) + render_task_children(
            cs.drop_first(),
            fs,
            depth,
            prefix,
            wrote || c.tag == "paragraph"@,
        )
    }
}

/// The children of a plain list item: every paragraph gets `prefix`.
pub open spec fn render_item_children(
    cs: Seq<XmlTree>,
    fs: Seq<(Seq<char>, Seq<char>)>,
    depth: nat,
    prefix: Seq<char>,
) -> Seq<char>
    decreases cs, 5int,
{
    if cs.len() == 0 {
        seq![]
    } else {
        render_item_child(cs[0], fs, depth, prefix) + render_item_children(
            cs.drop_first(),
            fs,
            depth,
            prefix,
        )
    }
}

/// The markup of one list item.
pub open spec fn render_item(
    item: XmlTree,
    fs: Seq<(Seq<char>, Seq<char>)>,
    depth: nat,
    ordered: bool,
) -> Seq<char>
    decreases item, 6int,
{
    let indent = repeat("  "@, depth);
    if item.tag == "taskitem"@ {
        let checkbox = if attr_or_empty(item, "completed"@) == "true"@ {
            seq!['\u{2611}']
        } else {
            seq!['\u{2610}']
        };
        render_task_children(item.children, fs, depth, indent + "- "@ + checkbox + seq![' '], false)
    } else if item.tag == "item"@ {
        let marker = if ordered {
            seq!['+']
        } else {
            seq!['-']
        };
        render_item_children(item.children, fs, depth, indent + marker + seq![' '])
    } else {
        seq![]
    }
}

/// The markup of the items of a list.
pub open spec fn render_items(
    cs: Seq<XmlTree>,
    fs: Seq<(Seq<char>, Seq<char>)>,
    depth: nat,
    ordered: bool,
) -> Seq<char>
    decreases cs, 7int,
{
    if cs.len() == 0 {
        seq![]
    } else {
        render_item(cs[0], fs, depth, ordered) + render_items(cs.drop_first(), fs, depth, ordered)
    }
}

/// The markup of a list: one line per item paragraph, nested lists
/// indented two spaces per level.
pub open spec fn render_list(n: XmlTree, fs: Seq<(Seq<char>, Seq<char>)>, depth: nat) -> Seq<char>
    decreases n, 2int,
{
    render_items(n.children, fs, depth, is_ordered(n))
}

/// The alignment word of a header cell.
pub open spec fn alignment_word(c: XmlTree) -> Seq<char> {
    let a = attr_or_empty(c, "align"@);
    if a == "center"@ {
        "center"@
    } else if a == "right"@ {
        "right"@
    } else {
        "left"@
    }
}

/// The alignment words of the cells among a row's children.
pub open spec fn cell_words(cs: Seq<XmlTree>) -> Seq<Seq<char>>
    decreases cs.len(),
{
    if cs.len() == 0 {
        seq![]
    } else {
        (if cs[0].tag == "table_cell"@ {
            seq![alignment_word(cs[0])]
        } else {
            seq![]
        }) + cell_words(cs.drop_first())
    }
}

/// The alignment words of the first row among a table's children: one per
/// column.
pub open spec fn header_words(cs: Seq<XmlTree>) -> Seq<Seq<char>>
    decreases cs.len(),
{
    if cs.len() == 0 {
        seq![]
    } else if cs[0].tag == "table_row"@ {
        cell_words(cs[0].children)
    } else {
        header_words(cs.drop_first())
    }
}

/// The decimal digits of `n`.
pub open spec fn decimal(n: nat) -> Seq<char>
    decreases n,
{
    if n < 10 {
        seq![(n + '0' as nat) as char]
    } else {
        decimal(n / 10) + seq![((n % 10) + '0' as nat) as char]
    }
}

/// The cells among a row's children, each as `  [...],`.
pub open spec fn render_cells(cs: Seq<XmlTree>, fs: Seq<(Seq<char>, Seq<char>)>) -> Seq<char>
    decreases cs.len(),
{
    if cs.len() == 0 {
        seq![]
    } else {
        (if cs[0].tag == "table_cell"@ {
            "  ["@ + render_inlines(cs[0].children, fs) + "],"@
        } else {
            seq![]
        }) + render_cells(cs.drop_first(), fs)
    }
}

/// The rows among a table's children, each on its own line.
pub open spec fn render_rows(cs: Seq<XmlTree>, fs: Seq<(Seq<char>, Seq<char>)>) -> Seq<char>
    decreases cs.len(),
{
    if cs.len() == 0 {
        seq![]
    } else {
        (if cs[0].tag == "table_row"@ {
            render_cells(cs[0].children, fs) + seq!['\n']
        } else {
            seq![]
        }) + render_rows(cs.drop_first(), fs)
    }
}

/// The markup of a GFM table: a `#table` call whose column count and
/// alignments come from the header row.
pub open spec fn render_table(t: XmlTree, fs: Seq<(Seq<char>, Seq<char>)>) -> Seq<char> {
    let words = header_words(t.children);
    if words.len() == 0 {
        seq![]
    } else {
        "#table(columns: "@ + decimal(words.len()) + ", align: ("@ + join(words, ", "@) + "),\n"@
            + render_rows(t.children, fs) + ")\n"@
    }
}

/// The opening fence of a code block with the given info string.
pub open spec fn code_fence(info: Seq<char>) -> Seq<char> {
    if info.len() == 0 {
        "```\n"@
    } else {
        "```"@ + info + seq!['\n']
    }
}

/// The markup of a block node.
pub open spec fn render_block(n: XmlTree, fs: Seq<(Seq<char>, Seq<char>)>, depth: nat) -> Seq<char>
    decreases n, 1int,
{
    let tag = n.tag;
    if tag == "heading"@ {
        repeat("="@, heading_level(attr_or_empty(n, "level"@))) + seq![' '] + render_inlines(
            n.children,
            fs,
        ) + seq!['\n']
    } else if tag == "paragraph"@ {
        render_inlines(n.children, fs) + seq!['\n']
    } else if tag == "block_quote"@ {
        "#quote(block: true)[\n"@ + render_quoted(n.children, fs, depth) + "]\n"@
    } else if tag == "list"@ {
        render_list(n, fs, depth)
    } else if tag == "code_block"@ {
        code_fence(attr_or_empty(n, "info"@)) + n.text + (if n.text.len() > 0 && n.text.last()
            == '\n' {
            seq![]
        } else {
            seq!['\n']
        }) + "```\n"@
    } else if tag == "html_block"@ {
        n.text
    } else if tag == "thematic_break"@ {
        "#line(length: 100%)\n"@
    } else if tag == "table"@ {
        render_table(n, fs)
    } else if tag == "item"@ || tag == "taskitem"@ || tag == "table_row"@ || tag == "table_cell"@
        || tag == "footnote_definition"@ {
        seq![]
    } else {
        render_blocks(n.children, fs, depth)
    }
}

/// The markup of a run of blocks.
pub open spec fn render_blocks(cs: Seq<XmlTree>, fs: Seq<(Seq<char>, Seq<char>)>, depth: nat) -> Seq<char>
    decreases cs, 0int,
{
    if cs.len() == 0 {
        seq![]
    } else {
        render_block(cs[0], fs, depth) + render_blocks(cs.drop_first(), fs, depth)
    }
}

/// The children of a block quote: paragraphs as their inline markup and a
/// line break, other blocks as blocks.
pub open spec fn render_quoted(cs: Seq<XmlTree>, fs: Seq<(Seq<char>, Seq<char>)>, depth: nat) -> Seq<char>
    decreases cs, 0int,
{
    if cs.len() == 0 {
        seq![]
    } else {
        (if cs[0].tag == "paragraph"@ {
            render_inlines(cs[0].children, fs) + seq!['\n']
        } else {
            render_block(cs[0], fs, depth)
        }) + render_quoted(cs.drop_first(), fs, depth)
    }
}

/// The top-level blocks of the document, footnote definitions skipped and a
/// blank line between consecutive blocks; `first` tells whether a block has
/// been written yet.
pub open spec fn render_top(cs: Seq<XmlTree>, fs: Seq<(Seq<char>, Seq<char>)>, first: bool) -> Seq<char>
    decreases cs.len(),
{
    if cs.len() == 0 {
        seq![]
    } else if cs[0].tag == "footnote_definition"@ {
        render_top(cs.drop_first(), fs, first)
    } else {
        (if first {
            seq![]
        } else {
            seq!['\n']
        }) + render_block(cs[0], fs, 0) + render_top(cs.drop_first(), fs, false)
    }
}

/// The inline markup of the paragraphs of a footnote definition (footnote
/// references inside it resolve to nothing).
pub open spec fn footnote_paragraphs(cs: Seq<XmlTree>) -> Seq<char>
    decreases cs.len(),
{
    if cs.len() == 0 {
        seq![]
    } else {
        (if cs[0].tag == "paragraph"@ {
            render_inlines(cs[0].children, seq![])
        } else {
            seq![]
        }) + footnote_paragraphs(cs.drop_first())
    }
}

/// The footnote definitions among the top-level nodes, in order: each name
/// with its rendered body, trailing whitespace removed.
pub open spec fn collect_footnotes(cs: Seq<XmlTree>) -> Seq<(Seq<char>, Seq<char>)>
    decreases cs.len(),
{
    if cs.len() == 0 {
        seq![]
    } else {
        let rest = collect_footnotes(cs.drop_last());
        let c = cs.last();
        if c.tag == "footnote_definition"@ {
            rest.push((attr_or_empty(c, "label"@), trim_end(footnote_paragraphs(c.children))))
        } else {
            rest
        }
    }
}

/// The Typst markup of a document tree.
pub open spec fn render_document(doc: XmlTree) -> Seq<char> {
    render_top(doc.children, collect_footnotes(doc.children), true)
}

// ---------------------------------------------------------------------------
// Typst rendering.
// ---------------------------------------------------------------------------

/// Footnote bodies by name, held as characters.
pub open spec fn note_views(fs: Seq<(Vec<char>, Vec<char>)>) -> Seq<(Seq<char>, Seq<char>)> {
    attr_views(fs)
}

fn tag_is(n: &XmlNode, t: &str) -> (b: bool)
    ensures
        b == (tree_of(*n).tag == t@),
{
    let c = chars_of(t);
    chars_eq(n.tag.as_slice(), c.as_slice())
}

fn attr_or_empty_exec(n: &XmlNode, name: &str) -> (r: Vec<char>)
    ensures
        r@ == attr_or_empty(tree_of(*n), name@),
{
    let key = chars_of(name);
    match attr_exec(&n.attrs, key.as_slice()) {
        Some(v) => crate::text::to_vec(v.as_slice()),
        None => Vec::new(),
    }
}

/// Append `t` with its Typst-special characters escaped.
fn escape_typst_into(t: &[char], out: &mut Vec<char>)
    ensures
        final(out)@ == old(out)@ + escape_typst(t@),
{
    let mut i: usize = 0;
    proof {
        assert(t@.subrange(0, t@.len() as int) =~= t@);
    }
    while i < t.len()
        invariant
            i <= t@.len(),
            out@ + escape_typst(t@.subrange(i as int, t@.len() as int)) == old(out)@ + escape_typst(t@),
        decreases t@.len() - i,
    {
        let ghost before = out@;
        let ghost rest = t@.subrange(i as int, t@.len() as int);
        let c = t[i];
        if c == '\\' || c == '*' || c == '_' || c == '#' || c == '@' || c == '<' || c == '>' || c
            == '$' {
            out.push('\\');
        }
        out.push(c);
        proof {
            assert(rest[0] == c);
            assert(rest.drop_first() =~= t@.subrange(i + 1, t@.len() as int));
            assert(out@ + escape_typst(rest.drop_first()) =~= before + escape_typst(rest));
        }
        i = i + 1;
    }
    proof {
        assert(t@.subrange(t@.len() as int, t@.len() as int) =~= Seq::<char>::empty());
        assert(t@.subrange(0, t@.len() as int) =~= t@);
        assert(out@ + Seq::<char>::empty() =~= out@);
    }
}

/// The body of the last footnote named `name`.
fn footnote_body_exec<'a>(fs: &'a Vec<(Vec<char>, Vec<char>)>, name: &[char]) -> (r: Option<&'a Vec<char>>)
    ensures
        match r {
            Some(b) => footnote_body(note_views(fs@), name@) == Some(b@),
            None => footnote_body(note_views(fs@), name@) is None,
        },
{
    let mut i: usize = fs.len();
    proof {
        assert(note_views(fs@).subrange(0, fs@.len() as int) =~= note_views(fs@));
    }
    while i > 0
        invariant
            i <= fs@.len(),
            footnote_body(note_views(fs@), name@) == footnote_body(
                note_views(fs@).subrange(0, i as int),
                name@,
            ),
        decreases i,
    {
        let ghost pre = note_views(fs@).subrange(0, i as int);
        proof {
            assert(pre.last() == (fs@[i - 1].0@, fs@[i - 1].1@));
            assert(pre.drop_last() =~= note_views(fs@).subrange(0, i - 1));
        }
        if chars_eq(fs[i - 1].0.as_slice(), name) {
            return Some(&fs[i - 1].1);
        }
        i = i - 1;
    }
    None
}

fn render_inline_exec(n: &XmlNode, fs: &Vec<(Vec<char>, Vec<char>)>, out: &mut Vec<char>)
    ensures
        final(out)@ == old(out)@ + render_inline(tree_of(*n), note_views(fs@)),
    decreases *n, 1int,
{
    let ghost t = tree_of(*n);
    let ghost f = note_views(fs@);
    proof {
        reveal_strlit(" \\\n");
        reveal_strlit("#strike[");
        reveal_strlit("#link(\"");
        reveal_strlit("\")[");
        reveal_strlit("#image(\"");
        reveal_strlit("\")");
        reveal_strlit("#footnote[");
        assert(decreases_to!(*n => n.children));
    }
    if tag_is(n, "text") {
        escape_typst_into(n.text.as_slice(), out);
    } else if tag_is(n, "softbreak") {
        out.push('\n');
    } else if tag_is(n, "linebreak") {
        push_str(out, " \\\n");
    } else if tag_is(n, "code") {
        out.push('`');
        push_all(out, n.text.as_slice());
        out.push('`');
    } else if tag_is(n, "html_inline") {
        push_all(out, n.text.as_slice());
    } else if tag_is(n, "emph") {
        out.push('_');
        render_inlines_exec(&n.children, fs, out);
        out.push('_');
    } else if tag_is(n, "strong") {
        out.push('*');
        render_inlines_exec(&n.children, fs, out);
        out.push('*');
    } else if tag_is(n, "strikethrough") {
        push_str(out, "#strike[");
        render_inlines_exec(&n.children, fs, out);
        out.push(']');
    } else if tag_is(n, "link") {
        push_str(out, "#link(\"");
        let d = attr_or_empty_exec(n, "destination");
        push_all(out, d.as_slice());
        push_str(out, "\")[");
        render_inlines_exec(&n.children, fs, out);
        out.push(']');
    } else if tag_is(n, "image") {
        push_str(out, "#image(\"");
        let d = attr_or_empty_exec(n, "destination");
        push_all(out, d.as_slice());
        push_str(out, "\")");
    } else if tag_is(n, "footnote_reference") {
        let label = attr_or_empty_exec(n, "label");
        match footnote_body_exec(fs, label.as_slice()) {
            Some(b) => {
                push_str(out, "#footnote[");
                push_all(out, b.as_slice());
                out.push(']');
            },
            None => {},
        }
    } else {
        render_inlines_exec(&n.children, fs, out);
    }
}

fn render_inlines_exec(cs: &Vec<XmlNode>, fs: &Vec<(Vec<char>, Vec<char>)>, out: &mut Vec<char>)
    ensures
        final(out)@ == old(out)@ + render_inlines(trees_of(cs@), note_views(fs@)),
    decreases cs@, 0int,
{
    let ghost ts = trees_of(cs@);
    proof {
        lemma_trees_of(cs@);
        assert(ts.subrange(0, ts.len() as int) =~= ts);
    }
    let mut i: usize = 0;
    while i < cs.len()
        invariant
            i <= cs@.len(),
            ts == trees_of(cs@),
            ts.len() == cs@.len(),
            forall|k: int| 0 <= k < cs@.len() ==> #[trigger] ts[k] == tree_of(cs@[k]),
            out@ + render_inlines(ts.subrange(i as int, ts.len() as int), note_views(fs@)) == old(
                out,
            )@ + render_inlines(ts, note_views(fs@)),
        decreases cs@.len() - i,
    {
        let ghost before = out@;
        let ghost rest = ts.subrange(i as int, ts.len() as int);
        proof {
            assert(decreases_to!(cs@ => cs@[i as int]));
        }
        render_inline_exec(&cs[i], fs, out);
        proof {
            assert(rest[0] == tree_of(cs@[i as int]));
            assert(rest.drop_first() =~= ts.subrange(i + 1, ts.len() as int));
        }
        i = i + 1;
    }
    proof {
        assert(ts.subrange(ts.len() as int, ts.len() as int) =~= Seq::<XmlTree>::empty());
        assert(out@ + Seq::<char>::empty() =~= out@);
    }
}

fn render_item_child_exec(
    c: &XmlNode,
    fs: &Vec<(Vec<char>, Vec<char>)>,
    depth: Ghost<nat>,
    indent: &Vec<char>,
    prefix: &[char],
    out: &mut Vec<char>,
)
    requires
        indent@ == repeat("  "@, depth@),
    ensures
        final(out)@ == old(out)@ + render_item_child(tree_of(*c), note_views(fs@), depth@, prefix@),
    decreases *c, 3int,
{
    if tag_is(c, "paragraph") {
        push_all(out, prefix);
        render_inlines_exec(&c.children, fs, out);
        out.push('\n');
    } else if tag_is(c, "list") {
        let mut deeper = crate::text::to_vec(indent.as_slice());
        push_str(&mut deeper, "  ");
        render_list_exec(c, fs, Ghost((depth@ + 1) as nat), &deeper, out);
    }
}

fn render_item_exec(
    item: &XmlNode,
    fs: &Vec<(Vec<char>, Vec<char>)>,
    depth: Ghost<nat>,
    indent: &Vec<char>,
    ordered: bool,
    out: &mut Vec<char>,
)
    requires
        indent@ == repeat("  "@, depth@),
    ensures
        final(out)@ == old(out)@ + render_item(tree_of(*item), note_views(fs@), depth@, ordered),
    decreases *item, 6int,
{
    let ghost f = note_views(fs@);
    let ghost ts = trees_of(item.children@);
    proof {
        lemma_trees_of(item.children@);
        assert(ts.subrange(0, ts.len() as int) =~= ts);
        reveal_strlit("- ");
    }
    if tag_is(item, "taskitem") {
        let done = attr_or_empty_exec(item, "completed");
        let yes = chars_of("true");
        let mut prefix = crate::text::to_vec(indent.as_slice());
        push_str(&mut prefix, "- ");
        let checked = chars_eq(done.as_slice(), yes.as_slice());
        if checked {
            prefix.push('\u{2611}');
        } else {
            prefix.push('\u{2610}');
        }
        prefix.push(' ');
        proof {
            let cb = if attr_or_empty(tree_of(*item), "completed"@) == "true"@ {
                seq!['\u{2611}']
            } else {
                seq!['\u{2610}']
            };
            assert(checked == (attr_or_empty(tree_of(*item), "completed"@) == "true"@));
            assert(prefix@ =~= indent@ + "- "@ + cb + seq![' ']);
            assert(tree_of(*item).children == ts);
        }
        let mut wrote = false;
        let mut j: usize = 0;
        while j < item.children.len()
            invariant
                j <= item.children@.len(),
                indent@ == repeat("  "@, depth@),
                f == note_views(fs@),
                ts == trees_of(item.children@),
                ts.len() == item.children@.len(),
                forall|k: int| 0 <= k < item.children@.len() ==> #[trigger] ts[k] == tree_of(item.children@[k]),
                out@ + render_task_children(ts.subrange(j as int, ts.len() as int), f, depth@, prefix@, wrote)
                    == old(out)@ + render_task_children(ts, f, depth@, prefix@, false),
            decreases item.children@.len() - j,
        {
            let ghost rest = ts.subrange(j as int, ts.len() as int);
            let child = &item.children[j];
            proof {
                assert(decreases_to!(*item => item.children));
                assert(decreases_to!(item.children@ => item.children@[j as int]));
                assert(rest[0] == tree_of(*child));
                assert(rest.drop_first() =~= ts.subrange(j + 1, ts.len() as int));
            }
            let empty: Vec<char> = Vec::new();
            let ghost before = out@;
            if wrote {
                render_item_child_exec(child, fs, depth, indent, empty.as_slice(), out);
            } else {
                render_item_child_exec(child, fs, depth, indent, prefix.as_slice(), out);
            }
            let is_par = tag_is(child, "paragraph");
            proof {
                let p = if wrote { Seq::<char>::empty() } else { prefix@ };
                assert(out@ == before + render_item_child(rest[0], f, depth@, p));
                assert(render_task_children(rest, f, depth@, prefix@, wrote) == render_item_child(
                    rest[0],
                    f,
                    depth@,
                    p,
                ) + render_task_children(rest.drop_first(), f, depth@, prefix@, wrote || is_par));
                assert(out@ + render_task_children(rest.drop_first(), f, depth@, prefix@, wrote || is_par)
                    =~= before + render_task_children(rest, f, depth@, prefix@, wrote));
            }
            wrote = wrote || is_par;
            j = j + 1;
        }
        proof {
            assert(ts.subrange(ts.len() as int, ts.len() as int) =~= Seq::<XmlTree>::empty());
            assert(out@ + Seq::<char>::empty() =~= out@);
        }
    } else if tag_is(item, "item") {
        let mut prefix = crate::text::to_vec(indent.as_slice());
        if ordered {
            prefix.push('+');
        } else {
            prefix.push('-');
        }
        prefix.push(' ');
        proof {
            let mk = if ordered { seq!['+'] } else { seq!['-'] };
            assert(prefix@ =~= indent@ + mk + seq![' ']);
            assert(tree_of(*item).children == ts);
        }
        let mut j: usize = 0;
        while j < item.children.len()
            invariant
                j <= item.children@.len(),
                indent@ == repeat("  "@, depth@),
                f == note_views(fs@),
                ts == trees_of(item.children@),
                ts.len() == item.children@.len(),
                forall|k: int| 0 <= k < item.children@.len() ==> #[trigger] ts[k] == tree_of(item.children@[k]),
                out@ + render_item_children(ts.subrange(j as int, ts.len() as int), f, depth@, prefix@)
                    == old(out)@ + render_item_children(ts, f, depth@, prefix@),
            decreases item.children@.len() - j,
        {
            let ghost rest = ts.subrange(j as int, ts.len() as int);
            let child = &item.children[j];
            proof {
                assert(decreases_to!(*item => item.children));
                assert(decreases_to!(item.children@ => item.children@[j as int]));
                assert(rest[0] == tree_of(*child));
                assert(rest.drop_first() =~= ts.subrange(j + 1, ts.len() as int));
            }
            let ghost before = out@;
            render_item_child_exec(child, fs, depth, indent, prefix.as_slice(), out);
            proof {
                assert(out@ + render_item_children(rest.drop_first(), f, depth@, prefix@) =~= before
                    + render_item_children(rest, f, depth@, prefix@));
            }
            j = j + 1;
        }
        proof {
            assert(ts.subrange(ts.len() as int, ts.len() as int) =~= Seq::<XmlTree>::empty());
            assert(out@ + Seq::<char>::empty() =~= out@);
        }
    } else {
        proof {
            assert(out@ =~= old(out)@ + Seq::<char>::empty());
        }
    }
}

fn render_list_exec(
    n: &XmlNode,
    fs: &Vec<(Vec<char>, Vec<char>)>,
    depth: Ghost<nat>,
    indent: &Vec<char>,
    out: &mut Vec<char>,
)
    requires
        indent@ == repeat("  "@, depth@),
    ensures
        final(out)@ == old(out)@ + render_list(tree_of(*n), note_views(fs@), depth@),
    decreases *n, 2int,
{
    let ghost f = note_views(fs@);
    let ghost ts = trees_of(n.children@);
    let ty = attr_or_empty_exec(n, "type");
    let ord = chars_of("ordered");
    let ordered = chars_eq(ty.as_slice(), ord.as_slice());
    proof {
        lemma_trees_of(n.children@);
        assert(ts.subrange(0, ts.len() as int) =~= ts);
    }
    let mut i: usize = 0;
    while i < n.children.len()
        invariant
            i <= n.children@.len(),
            indent@ == repeat("  "@, depth@),
            f == note_views(fs@),
            ts == trees_of(n.children@),
            ts.len() == n.children@.len(),
            forall|k: int| 0 <= k < n.children@.len() ==> #[trigger] ts[k] == tree_of(n.children@[k]),
            out@ + render_items(ts.subrange(i as int, ts.len() as int), f, depth@, ordered) == old(
                out,
            )@ + render_items(ts, f, depth@, ordered),
        decreases n.children@.len() - i,
    {
        let ghost rest = ts.subrange(i as int, ts.len() as int);
        proof {
            assert(decreases_to!(*n => n.children));
            assert(decreases_to!(n.children@ => n.children@[i as int]));
            assert(rest[0] == tree_of(n.children@[i as int]));
            assert(rest.drop_first() =~= ts.subrange(i + 1, ts.len() as int));
        }
        let ghost before = out@;
        render_item_exec(&n.children[i], fs, depth, indent, ordered, out);
        proof {
            assert(out@ == before + render_item(rest[0], f, depth@, ordered));
            assert(rest.len() > 0);
            assert(render_items(rest, f, depth@, ordered) == render_item(rest[0], f, depth@, ordered) + render_items(rest.drop_first(), f, depth@, ordered));
            assert(out@ + render_items(rest.drop_first(), f, depth@, ordered) =~= before
                + render_items(rest, f, depth@, ordered));
        }
        i = i + 1;
    }
    proof {
        assert(ts.subrange(ts.len() as int, ts.len() as int) =~= Seq::<XmlTree>::empty());
        assert(out@ + Seq::<char>::empty() =~= out@);
    }
}

fn digit_char(d: usize) -> (c: char)
    requires
        d < 10,
    ensures
        c == (d + '0' as nat) as char,
{
    match d {
        0 => '0',
        1 => '1',
        2 => '2',
        3 => '3',
        4 => '4',
        5 => '5',
        6 => '6',
        7 => '7',
        8 => '8',
        _ => '9',
    }
}

/// The decimal digits of `n`.
pub fn decimal_exec(n: usize) -> (r: Vec<char>)
    ensures
        r@ == decimal(n as nat),
    decreases n,
{
    let mut r = if n < 10 {
        Vec::new()
    } else {
        decimal_exec(n / 10)
    };
    r.push(digit_char(n % 10));
    proof {
        if n < 10 {
            assert(r@ =~= seq![(n + '0' as nat) as char]);
        }
    }
    r
}

fn alignment_word_exec(c: &XmlNode) -> (r: Vec<char>)
    ensures
        r@ == alignment_word(tree_of(*c)),
{
    let a = attr_or_empty_exec(c, "align");
    let center = chars_of("center");
    let right = chars_of("right");
    if chars_eq(a.as_slice(), center.as_slice()) {
        center
    } else if chars_eq(a.as_slice(), right.as_slice()) {
        right
    } else {
        chars_of("left")
    }
}

fn cell_words_exec(cs: &Vec<XmlNode>) -> (r: Vec<Vec<char>>)
    ensures
        views(r@) == cell_words(trees_of(cs@)),
{
    let ghost ts = trees_of(cs@);
    proof {
        lemma_trees_of(cs@);
        assert(ts.subrange(0, ts.len() as int) =~= ts);
    }
    let mut r: Vec<Vec<char>> = Vec::new();
    let mut i: usize = 0;
    while i < cs.len()
        invariant
            i <= cs@.len(),
            ts == trees_of(cs@),
            ts.len() == cs@.len(),
            forall|k: int| 0 <= k < cs@.len() ==> #[trigger] ts[k] == tree_of(cs@[k]),
            views(r@) + cell_words(ts.subrange(i as int, ts.len() as int)) == cell_words(ts),
        decreases cs@.len() - i,
    {
        let ghost rest = ts.subrange(i as int, ts.len() as int);
        let ghost before = views(r@);
        proof {
            assert(rest[0] == tree_of(cs@[i as int]));
            assert(rest.drop_first() =~= ts.subrange(i + 1, ts.len() as int));
        }
        if tag_is(&cs[i], "table_cell") {
            r.push(alignment_word_exec(&cs[i]));
            proof {
                assert(views(r@) =~= before + seq![alignment_word(rest[0])]);
            }
        }
        proof {
            assert(views(r@) + cell_words(rest.drop_first()) =~= before + cell_words(rest));
        }
        i = i + 1;
    }
    proof {
        assert(ts.subrange(ts.len() as int, ts.len() as int) =~= Seq::<XmlTree>::empty());
        assert(views(r@) + Seq::<Seq<char>>::empty() =~= views(r@));
    }
    r
}

fn header_words_exec(cs: &Vec<XmlNode>) -> (r: Vec<Vec<char>>)
    ensures
        views(r@) == header_words(trees_of(cs@)),
{
    let ghost ts = trees_of(cs@);
    proof {
        lemma_trees_of(cs@);
        assert(ts.subrange(0, ts.len() as int) =~= ts);
    }
    let mut i: usize = 0;
    while i < cs.len()
        invariant
            i <= cs@.len(),
            ts == trees_of(cs@),
            ts.len() == cs@.len(),
            forall|k: int| 0 <= k < cs@.len() ==> #[trigger] ts[k] == tree_of(cs@[k]),
            header_words(ts.subrange(i as int, ts.len() as int)) == header_words(ts),
        decreases cs@.len() - i,
    {
        let ghost rest = ts.subrange(i as int, ts.len() as int);
        proof {
            assert(rest[0] == tree_of(cs@[i as int]));
            assert(rest.drop_first() =~= ts.subrange(i + 1, ts.len() as int));
        }
        if tag_is(&cs[i], "table_row") {
            return cell_words_exec(&cs[i].children);
        }
        i = i + 1;
    }
    proof {
        assert(ts.subrange(ts.len() as int, ts.len() as int) =~= Seq::<XmlTree>::empty());
        assert(views(Seq::<Vec<char>>::empty()) =~= Seq::<Seq<char>>::empty());
    }
    Vec::new()
}

fn render_cells_exec(cs: &Vec<XmlNode>, fs: &Vec<(Vec<char>, Vec<char>)>, out: &mut Vec<char>)
    ensures
        final(out)@ == old(out)@ + render_cells(trees_of(cs@), note_views(fs@)),
{
    let ghost ts = trees_of(cs@);
    proof {
        lemma_trees_of(cs@);
        assert(ts.subrange(0, ts.len() as int) =~= ts);
        reveal_strlit("  [");
        reveal_strlit("],");
    }
    let mut i: usize = 0;
    while i < cs.len()
        invariant
            i <= cs@.len(),
            ts == trees_of(cs@),
            ts.len() == cs@.len(),
            forall|k: int| 0 <= k < cs@.len() ==> #[trigger] ts[k] == tree_of(cs@[k]),
            out@ + render_cells(ts.subrange(i as int, ts.len() as int), note_views(fs@)) == old(
                out,
            )@ + render_cells(ts, note_views(fs@)),
        decreases cs@.len() - i,
    {
        let ghost rest = ts.subrange(i as int, ts.len() as int);
        let ghost before = out@;
        proof {
            assert(rest[0] == tree_of(cs@[i as int]));
            assert(rest.drop_first() =~= ts.subrange(i + 1, ts.len() as int));
        }
        if tag_is(&cs[i], "table_cell") {
            push_str(out, "  [");
            render_inlines_exec(&cs[i].children, fs, out);
            push_str(out, "],");
        }
        proof {
            assert(out@ + render_cells(rest.drop_first(), note_views(fs@)) =~= before + render_cells(
                rest,
                note_views(fs@),
            ));
        }
        i = i + 1;
    }
    proof {
        assert(ts.subrange(ts.len() as int, ts.len() as int) =~= Seq::<XmlTree>::empty());
        assert(out@ + Seq::<char>::empty() =~= out@);
    }
}

fn render_rows_exec(cs: &Vec<XmlNode>, fs: &Vec<(Vec<char>, Vec<char>)>, out: &mut Vec<char>)
    ensures
        final(out)@ == old(out)@ + render_rows(trees_of(cs@), note_views(fs@)),
{
    let ghost ts = trees_of(cs@);
    proof {
        lemma_trees_of(cs@);
        assert(ts.subrange(0, ts.len() as int) =~= ts);
    }
    let mut i: usize = 0;
    while i < cs.len()
        invariant
            i <= cs@.len(),
            ts == trees_of(cs@),
            ts.len() == cs@.len(),
            forall|k: int| 0 <= k < cs@.len() ==> #[trigger] ts[k] == tree_of(cs@[k]),
            out@ + render_rows(ts.subrange(i as int, ts.len() as int), note_views(fs@)) == old(
                out,
            )@ + render_rows(ts, note_views(fs@)),
        decreases cs@.len() - i,
    {
        let ghost rest = ts.subrange(i as int, ts.len() as int);
        let ghost before = out@;
        proof {
            assert(rest[0] == tree_of(cs@[i as int]));
            assert(rest.drop_first() =~= ts.subrange(i + 1, ts.len() as int));
        }
        if tag_is(&cs[i], "table_row") {
            render_cells_exec(&cs[i].children, fs, out);
            out.push('\n');
        }
        proof {
            assert(out@ + render_rows(rest.drop_first(), note_views(fs@)) =~= before + render_rows(
                rest,
                note_views(fs@),
            ));
        }
        i = i + 1;
    }
    proof {
        assert(ts.subrange(ts.len() as int, ts.len() as int) =~= Seq::<XmlTree>::empty());
        assert(out@ + Seq::<char>::empty() =~= out@);
    }
}

fn render_table_exec(t: &XmlNode, fs: &Vec<(Vec<char>, Vec<char>)>, out: &mut Vec<char>)
    ensures
        final(out)@ == old(out)@ + render_table(tree_of(*t), note_views(fs@)),
{
    let words = header_words_exec(&t.children);
    if words.len() == 0 {
        proof {
            assert(out@ =~= old(out)@ + Seq::<char>::empty());
        }
        return;
    }
    push_str(out, "#table(columns: ");
    let count = decimal_exec(words.len());
    push_all(out, count.as_slice());
    push_str(out, ", align: (");
    let sep = chars_of(", ");
    let joined = join_exec(words.as_slice(), sep.as_slice());
    push_all(out, joined.as_slice());
    push_str(out, "),\n");
    render_rows_exec(&t.children, fs, out);
    push_str(out, ")\n");
}

fn heading_level_exec(n: &XmlNode) -> (r: usize)
    ensures
        r == heading_level(attr_or_empty(tree_of(*n), "level"@)),
{
    let t = attr_or_empty_exec(n, "level");
    if t.len() == 1 && '0' <= t[0] && t[0] <= '9' {
        match t[0] {
            '0' => 0,
            '1' => 1,
            '2' => 2,
            '3' => 3,
            '4' => 4,
            '5' => 5,
            '6' => 6,
            '7' => 7,
            '8' => 8,
            _ => 9,
        }
    } else {
        0
    }
}

fn render_block_exec(
    n: &XmlNode,
    fs: &Vec<(Vec<char>, Vec<char>)>,
    depth: Ghost<nat>,
    indent: &Vec<char>,
    out: &mut Vec<char>,
)
    requires
        indent@ == repeat("  "@, depth@),
    ensures
        final(out)@ == old(out)@ + render_block(tree_of(*n), note_views(fs@), depth@),
    decreases *n, 1int,
{
    let ghost t = tree_of(*n);
    let ghost f = note_views(fs@);
    let ghost ts = trees_of(n.children@);
    proof {
        lemma_trees_of(n.children@);
        assert(ts.subrange(0, ts.len() as int) =~= ts);
        reveal_strlit("#quote(block: true)[\n");
        reveal_strlit("]\n");
        reveal_strlit("```\n");
        reveal_strlit("```");
        reveal_strlit("#line(length: 100%)\n");
        assert(decreases_to!(*n => n.children));
    }
    if tag_is(n, "heading") {
        let level = heading_level_exec(n);
        let mut k: usize = 0;
        while k < level
            invariant
                k <= level,
                out@ == old(out)@ + repeat("="@, k as nat),
            decreases level - k,
        {
            out.push('=');
            proof {
                reveal_strlit("=");
                assert(repeat("="@, (k + 1) as nat) == repeat("="@, k as nat) + "="@);
            }
            k = k + 1;
        }
        out.push(' ');
        render_inlines_exec(&n.children, fs, out);
        out.push('\n');
    } else if tag_is(n, "paragraph") {
        render_inlines_exec(&n.children, fs, out);
        out.push('\n');
    } else if tag_is(n, "block_quote") {
        push_str(out, "#quote(block: true)[\n");
        let ghost start = out@;
        let mut i: usize = 0;
        while i < n.children.len()
            invariant
                i <= n.children@.len(),
                indent@ == repeat("  "@, depth@),
                f == note_views(fs@),
                ts == trees_of(n.children@),
                ts.len() == n.children@.len(),
                forall|k: int| 0 <= k < n.children@.len() ==> #[trigger] ts[k] == tree_of(n.children@[k]),
                out@ + render_quoted(ts.subrange(i as int, ts.len() as int), f, depth@) == start
                    + render_quoted(ts, f, depth@),
            decreases n.children@.len() - i,
        {
            let ghost rest = ts.subrange(i as int, ts.len() as int);
            let ghost before = out@;
            let child = &n.children[i];
            proof {
                assert(decreases_to!(n.children@ => n.children@[i as int]));
                assert(rest[0] == tree_of(*child));
                assert(rest.drop_first() =~= ts.subrange(i + 1, ts.len() as int));
            }
            if tag_is(child, "paragraph") {
                render_inlines_exec(&child.children, fs, out);
                out.push('\n');
            } else {
                render_block_exec(child, fs, depth, indent, out);
            }
            proof {
                assert(out@ + render_quoted(rest.drop_first(), f, depth@) =~= before + render_quoted(
                    rest,
                    f,
                    depth@,
                ));
            }
            i = i + 1;
        }
        proof {
            assert(ts.subrange(ts.len() as int, ts.len() as int) =~= Seq::<XmlTree>::empty());
            assert(out@ + Seq::<char>::empty() =~= out@);
        }
        push_str(out, "]\n");
    } else if tag_is(n, "list") {
        render_list_exec(n, fs, depth, indent, out);
    } else if tag_is(n, "code_block") {
        let info = attr_or_empty_exec(n, "info");
        if info.len() == 0 {
            push_str(out, "```\n");
        } else {
            push_str(out, "```");
            push_all(out, info.as_slice());
            out.push('\n');
        }
        push_all(out, n.text.as_slice());
        if !(n.text.len() > 0 && n.text[n.text.len() - 1] == '\n') {
            out.push('\n');
        }
        push_str(out, "```\n");
    } else if tag_is(n, "html_block") {
        push_all(out, n.text.as_slice());
    } else if tag_is(n, "thematic_break") {
        push_str(out, "#line(length: 100%)\n");
    } else if tag_is(n, "table") {
        render_table_exec(n, fs, out);
    } else if tag_is(n, "item") || tag_is(n, "taskitem") || tag_is(n, "table_row") || tag_is(
        n,
        "table_cell",
    ) || tag_is(n, "footnote_definition") {
        proof {
            assert(out@ =~= old(out)@ + Seq::<char>::empty());
        }
    } else {
        let mut i: usize = 0;
        while i < n.children.len()
            invariant
                i <= n.children@.len(),
                indent@ == repeat("  "@, depth@),
                f == note_views(fs@),
                ts == trees_of(n.children@),
                ts.len() == n.children@.len(),
                forall|k: int| 0 <= k < n.children@.len() ==> #[trigger] ts[k] == tree_of(n.children@[k]),
                out@ + render_blocks(ts.subrange(i as int, ts.len() as int), f, depth@) == old(out)@
                    + render_blocks(ts, f, depth@),
            decreases n.children@.len() - i,
        {
            let ghost rest = ts.subrange(i as int, ts.len() as int);
            let ghost before = out@;
            let child = &n.children[i];
            proof {
                assert(decreases_to!(n.children@ => n.children@[i as int]));
                assert(rest[0] == tree_of(*child));
                assert(rest.drop_first() =~= ts.subrange(i + 1, ts.len() as int));
            }
            render_block_exec(child, fs, depth, indent, out);
            proof {
                assert(out@ + render_blocks(rest.drop_first(), f, depth@) =~= before + render_blocks(
                    rest,
                    f,
                    depth@,
                ));
            }
            i = i + 1;
        }
        proof {
            assert(ts.subrange(ts.len() as int, ts.len() as int) =~= Seq::<XmlTree>::empty());
            assert(out@ + Seq::<char>::empty() =~= out@);
        }
    }
}

fn footnote_paragraphs_exec(cs: &Vec<XmlNode>, out: &mut Vec<char>)
    ensures
        final(out)@ == old(out)@ + footnote_paragraphs(trees_of(cs@)),
{
    let ghost ts = trees_of(cs@);
    let none: Vec<(Vec<char>, Vec<char>)> = Vec::new();
    proof {
        lemma_trees_of(cs@);
        assert(ts.subrange(0, ts.len() as int) =~= ts);
        assert(note_views(none@) =~= Seq::<(Seq<char>, Seq<char>)>::empty());
    }
    let mut i: usize = 0;
    while i < cs.len()
        invariant
            i <= cs@.len(),
            ts == trees_of(cs@),
            ts.len() == cs@.len(),
            note_views(none@) == Seq::<(Seq<char>, Seq<char>)>::empty(),
            forall|k: int| 0 <= k < cs@.len() ==> #[trigger] ts[k] == tree_of(cs@[k]),
            out@ + footnote_paragraphs(ts.subrange(i as int, ts.len() as int)) == old(out)@
                + footnote_paragraphs(ts),
        decreases cs@.len() - i,
    {
        let ghost rest = ts.subrange(i as int, ts.len() as int);
        let ghost before = out@;
        proof {
            assert(rest[0] == tree_of(cs@[i as int]));
            assert(rest.drop_first() =~= ts.subrange(i + 1, ts.len() as int));
        }
        if tag_is(&cs[i], "paragraph") {
            render_inlines_exec(&cs[i].children, &none, out);
        }
        proof {
            assert(out@ + footnote_paragraphs(rest.drop_first()) =~= before + footnote_paragraphs(
                rest,
            ));
        }
        i = i + 1;
    }
    proof {
        assert(ts.subrange(ts.len() as int, ts.len() as int) =~= Seq::<XmlTree>::empty());
        assert(out@ + Seq::<char>::empty() =~= out@);
    }
}

fn collect_footnotes_exec(cs: &Vec<XmlNode>) -> (r: Vec<(Vec<char>, Vec<char>)>)
    ensures
        note_views(r@) == collect_footnotes(trees_of(cs@)),
{
    let ghost ts = trees_of(cs@);
    proof {
        lemma_trees_of(cs@);
        assert(ts.take(0) =~= Seq::<XmlTree>::empty());
        assert(note_views(Seq::<(Vec<char>, Vec<char>)>::empty()) =~= Seq::<(Seq<char>, Seq<char>)>::empty());
    }
    let mut r: Vec<(Vec<char>, Vec<char>)> = Vec::new();
    let mut i: usize = 0;
    while i < cs.len()
        invariant
            i <= cs@.len(),
            ts == trees_of(cs@),
            ts.len() == cs@.len(),
            forall|k: int| 0 <= k < cs@.len() ==> #[trigger] ts[k] == tree_of(cs@[k]),
            note_views(r@) == collect_footnotes(ts.take(i as int)),
        decreases cs@.len() - i,
    {
        let ghost before = note_views(r@);
        let c = &cs[i];
        proof {
            assert(ts.take(i + 1).drop_last() =~= ts.take(i as int));
            assert(ts.take(i + 1).last() == tree_of(*c));
        }
        if tag_is(c, "footnote_definition") {
            let name = attr_or_empty_exec(c, "label");
            let mut body: Vec<char> = Vec::new();
            footnote_paragraphs_exec(&c.children, &mut body);
            let n = trim_end_len(body.as_slice());
            let trimmed = crate::text::slice_vec(body.as_slice(), 0, n);
            r.push((name, trimmed));
            proof {
                assert(note_views(r@) =~= before.push(
                    (attr_or_empty(tree_of(*c), "label"@), trim_end(footnote_paragraphs(tree_of(*c).children))),
                ));
            }
        }
        i = i + 1;
    }
    proof {
        assert(ts.take(cs@.len() as int) =~= ts);
    }
    r
}

/// Convert the CommonMark XML form of a Markdown syntax tree into Typst
/// markup: the top-level blocks with a blank line between them, footnote
/// references replaced by their definitions, trailing whitespace removed.
/// XML that does not read as a `document` element is a [`Error::Markdown`].
pub fn typst_from_commonmark_xml(xml: &str) -> (r: Result<String, Error>)
    ensures
        match document(xml@) {
            Some(d) => r matches Ok(s) && s@ == trim_end(render_document(d)),
            None => r matches Err(e) && e is Markdown,
        },
{
    let chars = chars_of(xml);
    let doc = match read_document(chars.as_slice()) {
        Some(d) => d,
        None => {
            return Err(
                Error::Markdown(string_of(chars_of("unreadable Markdown syntax tree").as_slice())),
            );
        },
    };
    let ghost ts = trees_of(doc.children@);
    let notes = collect_footnotes_exec(&doc.children);
    let mut out: Vec<char> = Vec::new();
    let indent: Vec<char> = Vec::new();
    let mut first = true;
    let mut i: usize = 0;
    proof {
        lemma_trees_of(doc.children@);
        assert(ts.subrange(0, ts.len() as int) =~= ts);
        assert(indent@ =~= repeat("  "@, 0));
    }
    while i < doc.children.len()
        invariant
            i <= doc.children@.len(),
            ts == trees_of(doc.children@),
            ts.len() == doc.children@.len(),
            indent@ == repeat("  "@, 0),
            forall|k: int| 0 <= k < doc.children@.len() ==> #[trigger] ts[k] == tree_of(doc.children@[k]),
            out@ + render_top(ts.subrange(i as int, ts.len() as int), note_views(notes@), first)
                == render_top(ts, note_views(notes@), true),
        decreases doc.children@.len() - i,
    {
        let ghost rest = ts.subrange(i as int, ts.len() as int);
        let ghost before = out@;
        let ghost was_first = first;
        let child = &doc.children[i];
        proof {
            assert(rest[0] == tree_of(*child));
            assert(rest.drop_first() =~= ts.subrange(i + 1, ts.len() as int));
        }
        if !tag_is(child, "footnote_definition") {
            if !first {
                out.push('\n');
            }
            render_block_exec(child, &notes, Ghost(0), &indent, &mut out);
            first = false;
        }
        proof {
            assert(out@ + render_top(rest.drop_first(), note_views(notes@), first) =~= before
                + render_top(rest, note_views(notes@), was_first));
        }
        i = i + 1;
    }
    proof {
        assert(ts.subrange(ts.len() as int, ts.len() as int) =~= Seq::<XmlTree>::empty());
        assert(out@ + Seq::<char>::empty() =~= out@);
    }
    let n = trim_end_len(out.as_slice());
    Ok(crate::text::slice_string(out.as_slice(), 0, n))
}

/// Whether `s` holds only whitespace.
pub fn is_blank(s: &str) -> (b: bool)
    ensures
        b == (trim(s@).len() == 0),
{
    let c = chars_of(s);
    let k = trim_start_pos(c.as_slice());
    let rest = crate::text::slice_vec(c.as_slice(), k, c.len());
    let n = trim_end_len(rest.as_slice());
    n == 0
}

/// Convert Markdown into equivalent Typst markup.
///
/// Blank input gives the empty string. Otherwise the text is parsed with the
/// GFM extensions (tables, strikethrough, task lists, footnotes, autolinks)
/// and its syntax tree rendered as [`typst_from_commonmark_xml`] describes.
pub fn markdown_to_typst(markdown: &str) -> (r: Result<String, Error>)
    ensures
        trim(markdown@).len() == 0 ==> (r matches Ok(s) && s@.len() == 0),
        trim(markdown@).len() > 0 ==> match document(gfm_xml(markdown@)) {
            Some(d) => r matches Ok(s) && s@ == trim_end(render_document(d)),
            None => r matches Err(e) && e is Markdown,
        },
{
    if is_blank(markdown) {
        return Ok(String::new());
    }
    let xml = commonmark_xml(markdown, true, true, true, true, true);
    typst_from_commonmark_xml(xml.as_str())
}

} // verus!
