//! What the `ndoc` commands decide before and after their file work: which
//! kind of input a path names, where outputs go and which pages each gets,
//! and the lines the commands report.
use vstd::prelude::*;

use crate::cli::{format_ext, path_extension, path_stem, CliFormat};
use crate::item::{issue_view, ItemIssue};
use crate::markdown::{decimal, decimal_exec};
use crate::text::{chars_of, is_suffix, push_all, push_str, slice_vec, string_of};
use crate::validation::{Severity, Violation};

verus! {

/// The kinds of input `build`, `preview` and `validate` accept.
#[derive(Debug, Clone, Copy, PartialEq, Eq, Structural)]
pub enum InputFormat {
    /// A `.ndoc.typ` document (composed or entry format).
    Ndoc,
    /// A Markdown file.
    Markdown,
}

/// The message for a path that is neither.
pub open spec fn unsupported_input_message(path: Seq<char>) -> Seq<char> {
    "unsupported input format '"@ + path + "': expected a '.md' or '.ndoc.typ' file"@
}

/// The kind of input a path names: a `.ndoc.typ` suffix first, then the
/// `md` extension.
pub open spec fn input_format_spec(path: Seq<char>) -> Result<InputFormat, Seq<char>> {
    if is_suffix(".ndoc.typ"@, path) {
        Ok(InputFormat::Ndoc)
    } else if path_extension(path) == Some("md"@) {
        Ok(InputFormat::Markdown)
    } else {
        Err(unsupported_input_message(path))
    }
}

/// The kind of input a path names (see [`input_format_spec`]).
pub fn input_format(path: &str) -> (r: Result<InputFormat, String>)
    ensures
        match input_format_spec(path@) {
            Ok(f) => r == Ok::<InputFormat, String>(f),
            Err(m) => r matches Err(e) && e@ == m,
        },
{
    let p = chars_of(path);
    let suffix = chars_of(".ndoc.typ");
    if crate::text::ends_with(p.as_slice(), suffix.as_slice()) {
        return Ok(InputFormat::Ndoc);
    }
    if crate::validation::is_markdown_path(path) {
        return Ok(InputFormat::Markdown);
    }
    let mut m = chars_of("unsupported input format '");
    push_str(&mut m, path);
    push_str(&mut m, "': expected a '.md' or '.ndoc.typ' file");
    Err(string_of(m.as_slice()))
}

/// Where `build` writes its output: a `.ndoc.typ` input loses that suffix,
/// a Markdown input its extension, and the format's extension follows.
pub open spec fn build_output_spec(path: Seq<char>, format: InputFormat, out: CliFormat) -> Seq<char> {
    match format {
        InputFormat::Ndoc => if is_suffix(".ndoc.typ"@, path) {
            path.subrange(0, path.len() - 9) + seq!['.'] + format_ext(out)
        } else {
            path + seq!['.'] + format_ext(out)
        },
        InputFormat::Markdown => path_stem(path) + seq!['.'] + format_ext(out),
    }
}

/// The output path of `build` for an input of the given kind.
pub fn build_output_path(path: &str, format: InputFormat, out: CliFormat) -> (r: String)
    ensures
        r@ == build_output_spec(path@, format, out),
{
    let p = chars_of(path);
    let mut r: Vec<char> = match format {
        InputFormat::Ndoc => {
            let suffix = chars_of(".ndoc.typ");
            proof {
                reveal_strlit(".ndoc.typ");
            }
            if crate::text::ends_with(p.as_slice(), suffix.as_slice()) {
                slice_vec(p.as_slice(), 0, p.len() - 9)
            } else {
                crate::text::to_vec(p.as_slice())
            }
        },
        InputFormat::Markdown => chars_of(crate::cli::stem_of(path).as_str()),
    };
    r.push('.');
    push_str(&mut r, out.ext());
    string_of(r.as_slice())
}

/// How a source file is compiled when any Typst file is accepted.
#[derive(Debug, Clone, Copy, PartialEq, Eq, Structural)]
pub enum SourceKind {
    /// A `.ndoc.typ` document: composed with its images, or its entries joined.
    Archive,
    /// A `.md` file, converted to Typst first.
    Markdown,
    /// Any other file, compiled as Typst verbatim.
    Typst,
}

/// The kind of a source path: `.ndoc.typ`, then `.md`, else plain Typst.
pub open spec fn source_kind_spec(path: Seq<char>) -> SourceKind {
    if is_suffix(".ndoc.typ"@, path) {
        SourceKind::Archive
    } else if is_suffix(".md"@, path) {
        SourceKind::Markdown
    } else {
        SourceKind::Typst
    }
}

/// How the file at `path` is compiled (see [`source_kind_spec`]).
pub fn source_kind(path: &str) -> (r: SourceKind)
    ensures
        r == source_kind_spec(path@),
{
    let p = chars_of(path);
    let doc = chars_of(".ndoc.typ");
    let md = chars_of(".md");
    if crate::text::ends_with(p.as_slice(), doc.as_slice()) {
        SourceKind::Archive
    } else if crate::text::ends_with(p.as_slice(), md.as_slice()) {
        SourceKind::Markdown
    } else {
        SourceKind::Typst
    }
}

/// The path `render` names its output after: the input without the first
/// of `.ndoct.typ`, `.ncmp.typ` and `.ndoc.typ` that ends it, or the message
/// refusing any other input.
pub open spec fn render_base_spec(path: Seq<char>) -> Result<Seq<char>, Seq<char>> {
    if is_suffix(".ndoct.typ"@, path) {
        Ok(path.subrange(0, path.len() - 10))
    } else if is_suffix(".ncmp.typ"@, path) {
        Ok(path.subrange(0, path.len() - 9))
    } else if is_suffix(".ndoc.typ"@, path) {
        Ok(path.subrange(0, path.len() - 9))
    } else {
        Err(
            "unsupported input '"@ + path
                + "': render accepts only .ncmp.typ, .ndoct.typ, or .ndoc.typ files"@,
        )
    }
}

/// The base name of `render`'s output for the input `path` (see
/// [`render_base_spec`]).
pub fn render_base(path: &str) -> (r: Result<String, String>)
    ensures
        match r {
            Ok(b) => render_base_spec(path@) == Ok::<Seq<char>, Seq<char>>(b@),
            Err(m) => render_base_spec(path@) == Err::<Seq<char>, Seq<char>>(m@),
        },
{
    let p = chars_of(path);
    let tmpl = chars_of(".ndoct.typ");
    let cmp = chars_of(".ncmp.typ");
    let doc = chars_of(".ndoc.typ");
    proof {
        reveal_strlit(".ndoct.typ");
        reveal_strlit(".ncmp.typ");
        reveal_strlit(".ndoc.typ");
    }
    if crate::text::ends_with(p.as_slice(), tmpl.as_slice()) {
        Ok(string_of(slice_vec(p.as_slice(), 0, p.len() - 10).as_slice()))
    } else if crate::text::ends_with(p.as_slice(), cmp.as_slice()) {
        Ok(string_of(slice_vec(p.as_slice(), 0, p.len() - 9).as_slice()))
    } else if crate::text::ends_with(p.as_slice(), doc.as_slice()) {
        Ok(string_of(slice_vec(p.as_slice(), 0, p.len() - 9).as_slice()))
    } else {
        let mut m = chars_of("unsupported input '");
        push_str(&mut m, path);
        push_str(&mut m, "': render accepts only .ncmp.typ, .ndoct.typ, or .ndoc.typ files");
        Err(string_of(m.as_slice()))
    }
}

/// What one output file holds.
#[derive(Debug, Clone, Copy, PartialEq, Eq, Structural)]
pub enum OutputPart {
    /// The whole document as PDF.
    Document,
    /// Every page in one SVG.
    MergedSvg,
    /// Every page in one PNG.
    MergedPng,
    /// One page (0-based).
    Page(usize),
}

/// The files an export writes, each with what it holds: one PDF; one merged
/// SVG or PNG when asked; a single page to the output path itself; or one
/// file per page, numbered from 1.
pub open spec fn output_plan_spec(format: CliFormat, merged: bool, pages: nat, output: Seq<char>) -> Seq<
    (Seq<char>, OutputPart),
> {
    match format {
        CliFormat::Pdf => seq![(output, OutputPart::Document)],
        CliFormat::Svg if merged => seq![(output, OutputPart::MergedSvg)],
        CliFormat::Png if merged => seq![(output, OutputPart::MergedPng)],
        _ => if pages <= 1 {
            seq![(output, OutputPart::Page(0))]
        } else {
            Seq::new(
                pages,
                |k: int|
                    (
                        path_stem(output) + seq!['-'] + decimal((k + 1) as nat) + seq!['.'] + format_ext(format),
                        OutputPart::Page(k as usize),
                    ),
            )
        },
    }
}

/// What an export writes: a PDF is always one file, the output path itself;
/// SVG or PNG with `merged` is one file at the output path holding every
/// page, whatever the page count; otherwise a document of at most one page
/// is one file at the output path, and a longer one is one file per page,
/// page `k` (from 0) at `{stem}-{k + 1}.svg` or `.png`, every page once and
/// in order.
pub proof fn law_output_plan(format: CliFormat, merged: bool, pages: nat, output: Seq<char>)
    ensures
        format == CliFormat::Pdf ==> output_plan_spec(format, merged, pages, output) == seq![(output, OutputPart::Document)],
        format == CliFormat::Svg && merged ==> output_plan_spec(format, merged, pages, output) == seq![
            (output, OutputPart::MergedSvg),
        ],
        format == CliFormat::Png && merged ==> output_plan_spec(format, merged, pages, output) == seq![
            (output, OutputPart::MergedPng),
        ],
        format != CliFormat::Pdf && !merged && pages <= 1 ==> output_plan_spec(format, merged, pages, output) == seq![
            (output, OutputPart::Page(0)),
        ],
        format != CliFormat::Pdf && !merged && pages > 1 ==> {
            let plan = output_plan_spec(format, merged, pages, output);
            &&& plan.len() == pages
            &&& forall|k: int|
                0 <= k < pages ==> (#[trigger] plan[k]).1 == OutputPart::Page(k as usize) && plan[k].0 == path_stem(
                    output,
                ) + seq!['-'] + decimal((k + 1) as nat) + seq!['.'] + (if format == CliFormat::Svg {
                    "svg"@
                } else {
                    "png"@
                })
        },
{
}

fn single_output(output_path: &str, part: OutputPart) -> (v: Vec<(String, OutputPart)>)
    ensures
        v@.map_values(|p: (String, OutputPart)| (p.0@, p.1)) == seq![(output_path@, part)],
{
    let v = vec![(string_of(chars_of(output_path).as_slice()), part)];
    proof {
        assert(v@.map_values(|p: (String, OutputPart)| (p.0@, p.1)) =~= seq![(output_path@, part)]);
    }
    v
}

/// The files an export writes (see [`output_plan_spec`]).
pub fn plan_outputs(format: CliFormat, merged: bool, pages: usize, output_path: &str) -> (r: Vec<(String, OutputPart)>)
    ensures
        r@.map_values(|p: (String, OutputPart)| (p.0@, p.1)) == output_plan_spec(format, merged, pages as nat, output_path@),
{
    match format {
        CliFormat::Pdf => {
            return single_output(output_path, OutputPart::Document);
        },
        CliFormat::Svg => if merged {
            return single_output(output_path, OutputPart::MergedSvg);
        },
        CliFormat::Png => if merged {
            return single_output(output_path, OutputPart::MergedPng);
        },
    }
    if pages <= 1 {
        return single_output(output_path, OutputPart::Page(0));
    }
    let ext = format.ext();
    let ghost want = output_plan_spec(format, merged, pages as nat, output_path@);
    let mut out: Vec<(String, OutputPart)> = Vec::new();
    let mut k: usize = 0;
    while k < pages
        invariant
            k <= pages,
            pages > 1,
            ext@ == format_ext(format),
            want == output_plan_spec(format, merged, pages as nat, output_path@),
            want.len() == pages,
            forall|j: int| 0 <= j < pages ==> #[trigger] want[j] == (
                path_stem(output_path@) + seq!['-'] + decimal((j + 1) as nat) + seq!['.'] + format_ext(format),
                OutputPart::Page(j as usize),
            ),
            out@.map_values(|p: (String, OutputPart)| (p.0@, p.1)) == want.subrange(0, k as int),
        decreases pages - k,
    {
        let ghost before = out@;
        let path = crate::cli::page_output_path(output_path, k + 1, ext);
        proof {
            assert(want[k as int] == (path@, OutputPart::Page(k)));
        }
        out.push((path, OutputPart::Page(k)));
        proof {
            assert(out@ == before.push((path, OutputPart::Page(k))));
            assert(before.map_values(|p: (String, OutputPart)| (p.0@, p.1)).len() == k);
            assert(out@.map_values(|p: (String, OutputPart)| (p.0@, p.1)) =~= want.subrange(0, k + 1));
        }
        k = k + 1;
    }
    proof {
        assert(want.subrange(0, pages as int) =~= want);
    }
    out
}

/// The text label of a severity.
pub open spec fn severity_text(s: Severity) -> Seq<char> {
    match s {
        Severity::Error => "error"@,
        Severity::Warning => "warning"@,
    }
}

/// The text label of a severity.
pub fn severity_label(s: Severity) -> (r: &'static str)
    ensures
        r@ == severity_text(s),
{
    match s {
        Severity::Error => "error",
        Severity::Warning => "warning",
    }
}

/// A violation as `validate` prints it: `[{severity}] {location}: {message}`.
pub fn violation_line(v: &Violation) -> (r: String)
    ensures
        r@ == seq!['['] + severity_text(v.severity) + "] "@ + v.location@ + ": "@ + v.message@,
{
    let mut out: Vec<char> = Vec::new();
    out.push('[');
    push_str(&mut out, severity_label(v.severity));
    push_str(&mut out, "] ");
    push_str(&mut out, v.location.as_str());
    push_str(&mut out, ": ");
    push_str(&mut out, v.message.as_str());
    proof {
        assert(out@ =~= seq!['['] + severity_text(v.severity) + "] "@ + v.location@ + ": "@ + v.message@);
    }
    string_of(out.as_slice())
}

/// The line `doc set` prints for a change: `set {node}.{key} = {value}`, or
/// `set document.{key} = {value}` for a document input.
pub fn doc_set_message(node_id: Option<&str>, key: &str, value: &str) -> (r: String)
    ensures
        r@ == "set "@ + match node_id {
            Some(id) => id@,
            None => "document"@,
        } + seq!['.'] + key@ + " = "@ + value@,
{
    let mut out = chars_of("set ");
    match node_id {
        Some(id) => push_str(&mut out, id),
        None => push_str(&mut out, "document"),
    }
    out.push('.');
    push_str(&mut out, key);
    push_str(&mut out, " = ");
    push_str(&mut out, value);
    string_of(out.as_slice())
}

/// An item issue as `item validate` prints it: `{path}: [{code}] {message}`.
pub fn issue_line(issue: &ItemIssue) -> (r: String)
    ensures
        r@ == issue.source_path@ + ": ["@ + issue.code@ + "] "@ + issue.message@,
{
    let mut out = chars_of(issue.source_path.as_str());
    push_str(&mut out, ": [");
    push_str(&mut out, issue.code.as_str());
    push_str(&mut out, "] ");
    push_str(&mut out, issue.message.as_str());
    string_of(out.as_slice())
}

/// A collection as `item load` prints it: `{name}: {count} items`.
pub fn collection_line(name: &str, count: usize) -> (r: String)
    ensures
        r@ == name@ + ": "@ + decimal(count as nat) + " items"@,
{
    let mut out = chars_of(name);
    push_str(&mut out, ": ");
    let d = decimal_exec(count);
    push_all(&mut out, d.as_slice());
    push_str(&mut out, " items");
    string_of(out.as_slice())
}


/// The Typst an entry document compiles to: the contents of its entries,
/// joined by line feeds.
pub fn entry_document_source(src: &str) -> (r: Result<String, crate::error::Error>)
    ensures
        match crate::fatfile::ndoc::parse_spec(src@) {
            Ok(es) => r matches Ok(t) && t@ == crate::text::join(
                es.map_values(|e: (Seq<char>, crate::fatfile::ndoc::EntryKind, Seq<char>, Seq<char>)| e.2),
                seq!['\n'],
            ),
            Err(m) => r matches Err(e) && e is FatFile && e->FatFile_0@ == m,
        },
{
    let doc = crate::fatfile::ndoc::NdocDocument::parse(src)?;
    let mut parts: Vec<Vec<char>> = Vec::new();
    let mut i: usize = 0;
    while i < doc.entries.len()
        invariant
            i <= doc.entries@.len(),
            parts@.len() == i,
            forall|k: int| 0 <= k < i ==> #[trigger] parts@[k]@ == doc.entries@[k].content@,
        decreases doc.entries@.len() - i,
    {
        parts.push(chars_of(doc.entries[i].content.as_str()));
        i = i + 1;
    }
    let sep = vec!['\n'];
    let r = crate::text::join_exec(parts.as_slice(), sep.as_slice());
    proof {
        assert(sep@ =~= seq!['\n']);
        assert(crate::text::views(parts@) =~= doc@.map_values(
            |e: (Seq<char>, crate::fatfile::ndoc::EntryKind, Seq<char>, Seq<char>)| e.2,
        ));
    }
    Ok(string_of(r.as_slice()))
}

} // verus!
