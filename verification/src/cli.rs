//! The command surface of the `ndoc` tool and the decisions its commands
//! make on plain values: output formats and paths, template paths, seeded
//! and coerced input values.
//!
//! Paths are held as text. Argument parsing, file access and printing are
//! the program's; the types here describe what was asked for.
use vstd::prelude::*;

use crate::fatfile::ndoc::EntryKind;
use crate::inputs::{entries, insert_input, map_insert};
use crate::markdown::{decimal, decimal_exec};
use crate::model::{input_view, InputKind, InputValue, JsonV, JsonValue};
use crate::schema::InputSchema;
use crate::text::{chars_eq, chars_of, find_char, push_all, push_str, string_of, slice_string};

verus! {

/// The parsed command line.
#[derive(Debug)]
pub struct Cli {
    pub command: Command,
    /// Emit a JSON envelope instead of human-readable output.
    pub json: bool,
}

/// The top-level commands.
#[derive(Debug)]
pub enum Command {
    Render(RenderArgs),
    Build(BuildArgs),
    New(NewArgs),
    Add(AddArgs),
    Edit(EditArgs),
    Validate(ValidateArgs),
    Preview(PreviewArgs),
    Doc(DocArgs),
    Component(ComponentArgs),
    Item(ItemArgs),
    Template(TemplateArgs),
    Image(ImageArgs),
    Jump(JumpArgs),
}

/// Resolve a click position on a rendered page to a source location.
#[derive(Debug)]
pub struct JumpArgs {
    pub input: String,
    pub page: usize,
    /// Page-local point coordinates, `X,Y`.
    pub at: String,
}

/// Render an input to a file beside it.
#[derive(Debug)]
pub struct BuildArgs {
    pub input: String,
    pub format: Option<CliFormat>,
    pub dpi: u32,
    pub merged: bool,
}

/// Render an input to an explicit or derived output path.
#[derive(Debug)]
pub struct RenderArgs {
    pub input: String,
    pub output: Option<String>,
    pub format: Option<CliFormat>,
    pub dpi: u32,
    pub merged: bool,
}

/// Create an empty entry document.
#[derive(Debug)]
pub struct NewArgs {
    pub path: String,
}

/// Add an entry to an entry document.
#[derive(Debug)]
pub struct AddArgs {
    pub document: String,
    pub name: String,
    pub kind: CliEntryKind,
    pub content_file: Option<String>,
}

/// Replace the content of an entry.
#[derive(Debug)]
pub struct EditArgs {
    pub document: String,
    pub name: String,
    pub content_file: Option<String>,
}

/// Validate a document.
#[derive(Debug)]
pub struct ValidateArgs {
    pub input: String,
}

/// Render a document and open it.
#[derive(Debug)]
pub struct PreviewArgs {
    pub input: String,
}

/// The `doc` authoring commands.
#[derive(Debug)]
pub struct DocArgs {
    pub command: DocCommand,
}

/// The `doc` subcommands.
#[derive(Debug)]
pub enum DocCommand {
    New(DocNewArgs),
    Outline(DocOutlineArgs),
    Add(DocAddArgs),
    Remove(DocRemoveArgs),
    SetInput(DocSetArgs),
    Schema(DocSchemaArgs),
}

/// Create a composed document from a template.
#[derive(Debug)]
pub struct DocNewArgs {
    pub template: String,
    pub output: Option<String>,
}

/// Print the node tree of a document.
#[derive(Debug)]
pub struct DocOutlineArgs {
    pub document: String,
}

/// Add a node to a document's tree.
#[derive(Debug)]
pub struct DocAddArgs {
    pub document: String,
    pub node_type: String,
    pub parent: Option<String>,
    pub before: Option<String>,
    pub after: Option<String>,
    pub inputs: Vec<String>,
}

/// Remove a node from a document's tree.
#[derive(Debug)]
pub struct DocRemoveArgs {
    pub document: String,
    pub node_id: String,
    pub with_children: bool,
}

/// Set an input on a node or on the document.
#[derive(Debug)]
pub struct DocSetArgs {
    pub document: String,
    pub node_id: Option<String>,
    pub document_level: bool,
    pub key: String,
    pub value: String,
}

/// Show the declared inputs of a component or template file.
#[derive(Debug)]
pub struct DocSchemaArgs {
    pub target: String,
}

/// The `component` commands.
#[derive(Debug)]
pub struct ComponentArgs {
    pub command: ComponentCommand,
}

/// The `component` subcommands.
#[derive(Debug)]
pub enum ComponentCommand {
    Schema { file: String },
    List { dir: String },
}

/// The `item` commands.
#[derive(Debug)]
pub struct ItemArgs {
    pub command: ItemCommand,
}

/// The `item` subcommands.
#[derive(Debug)]
pub enum ItemCommand {
    Load { dir: String },
    Validate { dir: String },
}

/// The `template` commands.
#[derive(Debug)]
pub struct TemplateArgs {
    pub command: TemplateCommand,
}

/// The `template` subcommands.
#[derive(Debug)]
pub enum TemplateCommand {
    Show { target: String },
}

/// The `image` commands.
#[derive(Debug)]
pub struct ImageArgs {
    pub command: ImageCommand,
}

/// The `image` subcommands.
#[derive(Debug)]
pub enum ImageCommand {
    Add { file: String, image: String },
}

/// The kind of an entry, as given on the command line.
#[derive(Debug, Clone, Copy, PartialEq, Eq, Structural)]
pub enum CliEntryKind {
    Component,
    Template,
}

impl CliEntryKind {
    /// The entry kind this names.
    pub fn entry_kind(self) -> (k: EntryKind)
        ensures
            (self == CliEntryKind::Component) == (k == EntryKind::Component),
    {
        match self {
            CliEntryKind::Component => EntryKind::Component,
            CliEntryKind::Template => EntryKind::Template,
        }
    }
}

/// An output format.
#[derive(Debug, Clone, Copy, PartialEq, Eq, Structural)]
pub enum CliFormat {
    Pdf,
    Svg,
    Png,
}

/// The file extension of a format.
pub open spec fn format_ext(f: CliFormat) -> Seq<char> {
    match f {
        CliFormat::Pdf => "pdf"@,
        CliFormat::Svg => "svg"@,
        CliFormat::Png => "png"@,
    }
}

/// The format a file extension names.
pub open spec fn format_of_ext(e: Seq<char>) -> Option<CliFormat> {
    if e == "pdf"@ {
        Some(CliFormat::Pdf)
    } else if e == "svg"@ {
        Some(CliFormat::Svg)
    } else if e == "png"@ {
        Some(CliFormat::Png)
    } else {
        None
    }
}

impl CliFormat {
    /// The file extension of this format.
    pub fn ext(self) -> (s: &'static str)
        ensures
            s@ == format_ext(self),
    {
        match self {
            CliFormat::Pdf => "pdf",
            CliFormat::Svg => "svg",
            CliFormat::Png => "png",
        }
    }

    /// The format a file extension names, if any.
    pub fn from_ext(ext: &str) -> (r: Option<CliFormat>)
        ensures
            r == format_of_ext(ext@),
    {
        let e = chars_of(ext);
        if chars_eq(e.as_slice(), chars_of("pdf").as_slice()) {
            Some(CliFormat::Pdf)
        } else if chars_eq(e.as_slice(), chars_of("svg").as_slice()) {
            Some(CliFormat::Svg)
        } else if chars_eq(e.as_slice(), chars_of("png").as_slice()) {
            Some(CliFormat::Png)
        } else {
            None
        }
    }
}

// ---------------------------------------------------------------------------
// Paths as text.
// ---------------------------------------------------------------------------

/// The last position of `c` in `s`.
pub open spec fn last_index(s: Seq<char>, c: char) -> Option<int>
    decreases s.len(),
{
    if s.len() == 0 {
        None
    } else if s.last() == c {
        Some(s.len() - 1)
    } else {
        last_index(s.drop_last(), c)
    }
}

/// A path without what `std::path` ignores at its end: trailing `/`
/// separators and trailing `.` components.
pub open spec fn strip_tail(p: Seq<char>) -> Seq<char>
    decreases p.len(),
{
    if p.len() > 0 && p.last() == '/' {
        strip_tail(p.drop_last())
    } else if p.len() >= 2 && p.last() == '.' && p[p.len() - 2] == '/' {
        strip_tail(p.drop_last())
    } else {
        p
    }
}

/// The text of the final component of a path, once its ignored end is
/// dropped (empty when only a root or nothing is left).
pub open spec fn last_component(p: Seq<char>) -> Seq<char> {
    let s = strip_tail(p);
    match last_index(s, '/') {
        Some(i) => s.subrange(i + 1, s.len() as int),
        None => s,
    }
}

/// The file name of a path, as `std::path::Path::file_name` gives it: its
/// final component, unless that is empty, `.` or `..`.
pub open spec fn file_name(p: Seq<char>) -> Option<Seq<char>> {
    let c = last_component(p);
    if c.len() == 0 || c == seq!['.'] || c == seq!['.', '.'] {
        None
    } else {
        Some(c)
    }
}

/// The extension of a file name: the text after its last `.`, when that
/// `.` does not start the name.
pub open spec fn name_extension(name: Seq<char>) -> Option<Seq<char>> {
    match last_index(name, '.') {
        Some(d) => if d == 0 {
            None
        } else {
            Some(name.subrange(d + 1, name.len() as int))
        },
        None => None,
    }
}

/// The extension of a path, as `std::path::Path::extension` gives it.
pub open spec fn path_extension(p: Seq<char>) -> Option<Seq<char>> {
    match file_name(p) {
        Some(n) => name_extension(n),
        None => None,
    }
}

/// The file name of a path without its extension, as
/// `std::path::Path::file_stem` gives it.
pub open spec fn file_stem(p: Seq<char>) -> Option<Seq<char>> {
    match file_name(p) {
        Some(n) => Some(
            match name_extension(n) {
                Some(e) => n.subrange(0, n.len() - e.len() - 1),
                None => n,
            },
        ),
        None => None,
    }
}

/// The path with its extension removed, as `Path::with_extension("")` gives
/// it: cut right after the file stem (dropping the ignored end); a path
/// without a file name stays as it is.
pub open spec fn path_stem(p: Seq<char>) -> Seq<char> {
    match file_name(p) {
        None => p,
        Some(n) => {
            let s = strip_tail(p);
            match name_extension(n) {
                Some(e) => s.subrange(0, s.len() - e.len() - 1),
                None => s,
            }
        },
    }
}

/// Dropping the ignored end leaves a prefix of the path.
pub proof fn lemma_strip_tail_prefix(p: Seq<char>)
    ensures
        strip_tail(p).len() <= p.len(),
        strip_tail(p) == p.subrange(0, strip_tail(p).len() as int),
    decreases p.len(),
{
    if (p.len() > 0 && p.last() == '/') || (p.len() >= 2 && p.last() == '.' && p[p.len() - 2] == '/') {
        lemma_strip_tail_prefix(p.drop_last());
        assert(strip_tail(p) == strip_tail(p.drop_last()));
        assert(p.drop_last().subrange(0, strip_tail(p).len() as int) =~= p.subrange(0, strip_tail(p).len() as int));
    } else {
        assert(p.subrange(0, p.len() as int) =~= p);
    }
}

/// How long the path is once its ignored end is dropped.
pub(crate) fn tail_len(p: &[char]) -> (n: usize)
    ensures
        n <= p@.len(),
        strip_tail(p@) == p@.subrange(0, n as int),
{
    let mut n = p.len();
    proof {
        assert(p@.subrange(0, n as int) =~= p@);
    }
    loop
        invariant
            n <= p@.len(),
            strip_tail(p@) == strip_tail(p@.subrange(0, n as int)),
        decreases n,
    {
        let ghost sub = p@.subrange(0, n as int);
        if n > 0 && p[n - 1] == '/' {
            proof {
                assert(sub.drop_last() =~= p@.subrange(0, n - 1));
            }
            n = n - 1;
        } else if n >= 2 && p[n - 1] == '.' && p[n - 2] == '/' {
            proof {
                assert(sub.drop_last() =~= p@.subrange(0, n - 1));
            }
            n = n - 1;
        } else {
            return n;
        }
    }
}

/// Where the final component of a path lies: from `r.0` to `r.1`, the end
/// of the path once its ignored end is dropped.
fn component_range(p: &[char]) -> (r: (usize, usize))
    ensures
        r.0 <= r.1 <= p@.len(),
        last_component(p@) == p@.subrange(r.0 as int, r.1 as int),
        strip_tail(p@) == p@.subrange(0, r.1 as int),
{
    let n = tail_len(p);
    let s = crate::text::slice_vec(p, 0, n);
    proof {
        lemma_last_index(s@, '/');
    }
    match last_index_exec(s.as_slice(), '/') {
        Some(i) => {
            proof {
                assert(s@.subrange(i + 1, s@.len() as int) =~= p@.subrange(i + 1, n as int));
            }
            (i + 1, n)
        },
        None => (0, n),
    }
}

/// The file name of a path, if it has one (see [`file_name`]).
fn file_name_range(p: &[char]) -> (r: Option<(usize, usize)>)
    ensures
        match r {
            Some((a, b)) => a <= b <= p@.len() && file_name(p@) == Some(p@.subrange(a as int, b as int))
                && strip_tail(p@) == p@.subrange(0, b as int),
            None => file_name(p@) is None,
        },
{
    let (a, b) = component_range(p);
    let c = crate::text::slice_vec(p, a, b);
    if c.len() == 0 || (c.len() == 1 && c[0] == '.') || (c.len() == 2 && c[0] == '.' && c[1] == '.') {
        proof {
            if c@.len() == 1 {
                assert(c@ =~= seq!['.']);
            }
            if c@.len() == 2 {
                assert(c@ =~= seq!['.', '.']);
            }
        }
        None
    } else {
        proof {
            if c@ == seq!['.'] {
                assert(c@.len() == 1);
            }
            if c@ == seq!['.', '.'] {
                assert(c@.len() == 2);
            }
        }
        Some((a, b))
    }
}

proof fn lemma_last_index(s: Seq<char>, c: char)
    ensures
        match last_index(s, c) {
            Some(i) => 0 <= i < s.len() && s[i] == c,
            None => true,
        },
    decreases s.len(),
{
    if s.len() > 0 && s.last() != c {
        lemma_last_index(s.drop_last(), c);
    }
}

pub fn last_index_exec(s: &[char], c: char) -> (r: Option<usize>)
    ensures
        match r {
            Some(i) => last_index(s@, c) == Some(i as int) && i < s@.len(),
            None => last_index(s@, c) is None,
        },
{
    let mut n = s.len();
    proof {
        assert(s@.subrange(0, n as int) =~= s@);
    }
    while n > 0
        invariant
            n <= s@.len(),
            last_index(s@, c) == last_index(s@.subrange(0, n as int), c),
        decreases n,
    {
        let ghost pre = s@.subrange(0, n as int);
        proof {
            assert(pre.drop_last() =~= s@.subrange(0, n - 1));
        }
        if s[n - 1] == c {
            return Some(n - 1);
        }
        n = n - 1;
    }
    None
}

/// The extension of a file name, if it has one (see [`name_extension`]).
fn name_extension_exec(name: &[char]) -> (r: Option<Vec<char>>)
    ensures
        match r {
            Some(e) => name_extension(name@) == Some(e@) && e@.len() + 1 <= name@.len(),
            None => name_extension(name@) is None,
        },
{
    proof {
        lemma_last_index(name@, '.');
    }
    assert(name@.len() == name.len());
    match last_index_exec(name, '.') {
        Some(d) => {
            if d == 0 {
                None
            } else {
                Some(crate::text::slice_vec(name, d + 1, name.len()))
            }
        },
        None => None,
    }
}

/// The extension of a path, if it has one (see [`path_extension`]).
pub fn extension_of(p: &[char]) -> (r: Option<Vec<char>>)
    ensures
        match r {
            Some(e) => path_extension(p@) == Some(e@),
            None => path_extension(p@) is None,
        },
{
    match file_name_range(p) {
        None => None,
        Some((a, b)) => {
            let name = crate::text::slice_vec(p, a, b);
            name_extension_exec(name.as_slice())
        },
    }
}

/// The output format: the one the output path's extension names, else the
/// one asked for, else PDF. An extension that names a format other than the
/// one asked for is refused.
pub open spec fn resolve_format_spec(output: Option<Seq<char>>, format: Option<CliFormat>) -> Result<CliFormat, Seq<char>> {
    let from_output = match output {
        Some(p) => match path_extension(p) {
            Some(e) => format_of_ext(e),
            None => None,
        },
        None => None,
    };
    match (from_output, format) {
        (Some(o), Some(f)) => if o != f {
            Err(
                "format conflict: output extension '."@ + format_ext(o) + "' disagrees with --format "@
                    + format_ext(f),
            )
        } else {
            Ok(o)
        },
        (Some(o), None) => Ok(o),
        (None, Some(f)) => Ok(f),
        (None, None) => Ok(CliFormat::Pdf),
    }
}

/// Pick the output format from the output path and the `--format` flag.
pub fn resolve_format(output: Option<&str>, format: Option<CliFormat>) -> (r: Result<CliFormat, String>)
    ensures
        match r {
            Ok(f) => resolve_format_spec(
                match output {
                    Some(p) => Some(p@),
                    None => None,
                },
                format,
            ) == Ok::<_, Seq<char>>(f),
            Err(m) => resolve_format_spec(
                match output {
                    Some(p) => Some(p@),
                    None => None,
                },
                format,
            ) == Err::<CliFormat, _>(m@),
        },
{
    let from_output = match output {
        Some(p) => {
            let pc = chars_of(p);
            match extension_of(pc.as_slice()) {
                Some(e) => {
                    let es = string_of(e.as_slice());
                    CliFormat::from_ext(es.as_str())
                },
                None => None,
            }
        },
        None => None,
    };
    match (from_output, format) {
        (Some(o), Some(f)) => {
            if o != f {
                let mut m = chars_of("format conflict: output extension '.");
                push_str(&mut m, o.ext());
                push_str(&mut m, "' disagrees with --format ");
                push_str(&mut m, f.ext());
                Err(string_of(m.as_slice()))
            } else {
                Ok(o)
            }
        },
        (Some(o), None) => Ok(o),
        (None, Some(f)) => Ok(f),
        (None, None) => Ok(CliFormat::Pdf),
    }
}

/// The path without its extension (see [`path_stem`]).
pub fn stem_of(path: &str) -> (r: String)
    ensures
        r@ == path_stem(path@),
{
    let p = chars_of(path);
    match file_name_range(p.as_slice()) {
        None => string_of(p.as_slice()),
        Some((a, b)) => {
            let name = crate::text::slice_vec(p.as_slice(), a, b);
            match name_extension_exec(name.as_slice()) {
                Some(e) => crate::text::slice_string(p.as_slice(), 0, b - e.len() - 1),
                None => crate::text::slice_string(p.as_slice(), 0, b),
            }
        },
    }
}

/// The file name of a path without its extension, or the empty text when
/// it has no file name (see [`file_stem`]).
pub fn file_stem_of(path: &str) -> (r: String)
    ensures
        r@ == match file_stem(path@) {
            Some(s) => s,
            None => seq![],
        },
{
    let p = chars_of(path);
    match file_name_range(p.as_slice()) {
        None => String::new(),
        Some((a, b)) => {
            let name = crate::text::slice_vec(p.as_slice(), a, b);
            match name_extension_exec(name.as_slice()) {
                Some(e) => crate::text::slice_string(name.as_slice(), 0, name.len() - e.len() - 1),
                None => string_of(name.as_slice()),
            }
        },
    }
}

/// The path of page `page` of a multi-page output: the output path without
/// its extension, `-{page}`, then `.{ext}`.
pub fn page_output_path(output_path: &str, page: usize, ext: &str) -> (r: String)
    ensures
        r@ == path_stem(output_path@) + seq!['-'] + decimal(page as nat) + seq!['.'] + ext@,
{
    let stem = stem_of(output_path);
    let mut out = chars_of(stem.as_str());
    out.push('-');
    let digits = decimal_exec(page);
    push_all(&mut out, digits.as_slice());
    out.push('.');
    push_str(&mut out, ext);
    string_of(out.as_slice())
}

/// The suffix of template files.
pub const TEMPLATE_SUFFIX: &'static str = ".ndoct.typ";

/// A template target as a path: used as is when it already ends in the
/// template suffix, otherwise the suffix is appended to the id.
pub fn resolve_template_path(target: &str) -> (r: String)
    ensures
        r@ == if crate::text::is_suffix(TEMPLATE_SUFFIX@, target@) {
            target@
        } else {
            target@ + TEMPLATE_SUFFIX@
        },
{
    let t = chars_of(target);
    let sfx = chars_of(TEMPLATE_SUFFIX);
    let mut out = crate::text::to_vec(t.as_slice());
    if !crate::text::ends_with(t.as_slice(), sfx.as_slice()) {
        push_all(&mut out, sfx.as_slice());
    }
    string_of(out.as_slice())
}

// ---------------------------------------------------------------------------
// Input values given on the command line.
// ---------------------------------------------------------------------------

/// An ASCII hexadecimal digit.
pub open spec fn is_hex_digit(c: char) -> bool {
    ('0' <= c && c <= '9') || ('a' <= c && c <= 'f') || ('A' <= c && c <= 'F')
}

/// A `#`-prefixed hex color of 3, 6 or 8 digits.
pub open spec fn is_hex_color_spec(s: Seq<char>) -> bool {
    &&& s.len() > 0 && s[0] == '#'
    &&& (s.len() == 4 || s.len() == 7 || s.len() == 9)
    &&& forall|i: int| 1 <= i < s.len() ==> is_hex_digit(#[trigger] s[i])
}

/// Whether `s` is a `#`-prefixed hex color of 3, 6, or 8 digits.
pub fn is_hex_color(s: &str) -> (b: bool)
    ensures
        b == is_hex_color_spec(s@),
{
    let c = chars_of(s);
    if c.len() == 0 || c[0] != '#' {
        return false;
    }
    if !(c.len() == 4 || c.len() == 7 || c.len() == 9) {
        return false;
    }
    let mut i: usize = 1;
    while i < c.len()
        invariant
            1 <= i <= c@.len(),
            c@ == s@,
            forall|k: int| 1 <= k < i ==> is_hex_digit(#[trigger] c@[k]),
        decreases c@.len() - i,
    {
        let d = c[i];
        if !(('0' <= d && d <= '9') || ('a' <= d && d <= 'f') || ('A' <= d && d <= 'F')) {
            proof {
                assert(!is_hex_digit(c@[i as int]));
            }
            return false;
        }
        i = i + 1;
    }
    true
}

/// The kind declared for `key` among `inputs` (the first declaration).
pub open spec fn declared_kind_spec(inputs: Seq<InputSchema>, key: Seq<char>) -> Option<InputKind>
    decreases inputs.len(),
{
    if inputs.len() == 0 {
        None
    } else if inputs[0].name@ == key {
        Some(inputs[0].kind)
    } else {
        declared_kind_spec(inputs.drop_first(), key)
    }
}

/// Find the declared kind for `key` among `inputs`, or `None` when no input
/// declares that name.
pub fn declared_kind(inputs: &[InputSchema], key: &str) -> (r: Option<InputKind>)
    ensures
        r == declared_kind_spec(inputs@, key@),
{
    let k = chars_of(key);
    let mut i: usize = 0;
    proof {
        assert(inputs@.subrange(0, inputs@.len() as int) =~= inputs@);
    }
    while i < inputs.len()
        invariant
            i <= inputs@.len(),
            k@ == key@,
            declared_kind_spec(inputs@, key@) == declared_kind_spec(inputs@.subrange(i as int, inputs@.len() as int), key@),
        decreases inputs@.len() - i,
    {
        let ghost rest = inputs@.subrange(i as int, inputs@.len() as int);
        proof {
            assert(rest[0] == inputs@[i as int]);
            assert(rest.drop_first() =~= inputs@.subrange(i + 1, inputs@.len() as int));
        }
        let name = chars_of(inputs[i].name.as_str());
        if chars_eq(name.as_slice(), k.as_slice()) {
            return Some(inputs[i].kind);
        }
        i = i + 1;
    }
    None
}

/// How a text reads as a floating-point number: not at all, as a value that
/// is not finite, or as a finite value with its JSON text.
#[derive(Debug)]
pub enum NumberParse {
    Invalid,
    NonFinite,
    Finite(String),
}

/// What [`coerce_value`] gives: the JSON value for `value` under `kind`, or
/// the message that rejects it.
pub open spec fn coerce_spec(kind: InputKind, value: Seq<char>, images: Seq<Seq<char>>, number: NumberParse) -> Result<JsonV, Seq<char>> {
    match kind {
        InputKind::String | InputKind::Content => Ok(JsonV::String(value)),
        InputKind::Number => match number {
            NumberParse::Invalid => Err("value '"@ + value + "' is not a valid number"@),
            NumberParse::NonFinite => Err("value '"@ + value + "' is not a finite number"@),
            NumberParse::Finite(text) => Ok(JsonV::Number(text@)),
        },
        InputKind::Boolean => if value == "true"@ {
            Ok(JsonV::Bool(true))
        } else if value == "false"@ {
            Ok(JsonV::Bool(false))
        } else {
            Err("value '"@ + value + "' is not a boolean (expected true or false)"@)
        },
        InputKind::Color => if is_hex_color_spec(value) {
            Ok(JsonV::String(value))
        } else {
            Err("value '"@ + value + "' is not a hex color (expected #rgb, #rrggbb, or #rrggbbaa)"@)
        },
        InputKind::Image => if images.contains(value) {
            Ok(JsonV::String(value))
        } else {
            Err(
                "image '"@ + value
                    + "' is not embedded in the document (embed it with `ndoc image add` first)"@,
            )
        },
    }
}

/// How a value given on the command line is converted by kind: text and
/// content are stored as the text; a color is accepted exactly when it is
/// `#` followed by 3, 6 or 8 ASCII hexadecimal digits, upper or lower case,
/// and is then stored as given; a boolean is only `true` or `false`; an
/// image must name an embedded image; a number is its finite reading.
pub proof fn law_coerce_by_kind(value: Seq<char>, images: Seq<Seq<char>>, number: NumberParse)
    ensures
        coerce_spec(InputKind::String, value, images, number) == Ok::<_, Seq<char>>(JsonV::String(value)),
        coerce_spec(InputKind::Content, value, images, number) == Ok::<_, Seq<char>>(JsonV::String(value)),
        ({
            let hex = value.len() > 0 && value[0] == '#' && (value.len() == 4 || value.len() == 7 || value.len() == 9)
                && forall|i: int|
                1 <= i < value.len() ==> ('0' <= #[trigger] value[i] <= '9' || 'a' <= value[i] <= 'f' || 'A'
                    <= value[i] <= 'F');
            &&& hex ==> coerce_spec(InputKind::Color, value, images, number) == Ok::<_, Seq<char>>(JsonV::String(value))
            &&& !hex ==> coerce_spec(InputKind::Color, value, images, number) is Err
        }),
        coerce_spec(InputKind::Boolean, value, images, number) is Ok <==> (value == "true"@ || value == "false"@),
        coerce_spec(InputKind::Image, value, images, number) is Ok <==> images.contains(value),
        coerce_spec(InputKind::Image, value, images, number) is Ok ==> coerce_spec(InputKind::Image, value, images, number)
            == Ok::<_, Seq<char>>(JsonV::String(value)),
        number matches NumberParse::Finite(t) ==> coerce_spec(InputKind::Number, value, images, number) == Ok::<
            _,
            Seq<char>,
        >(JsonV::Number(t@)),
        !(number is Finite) ==> coerce_spec(InputKind::Number, value, images, number) is Err,
{
}

/// The names held by a list of strings.
pub open spec fn names(v: Seq<String>) -> Seq<Seq<char>> {
    v.map_values(|s: String| s@)
}

/// `prefix`, `value`, then `suffix`, as a message.
fn quoted_message(prefix: &str, value: &str, suffix: &str) -> (m: String)
    ensures
        m@ == prefix@ + value@ + suffix@,
{
    let mut out = chars_of(prefix);
    push_str(&mut out, value);
    push_str(&mut out, suffix);
    string_of(out.as_slice())
}

/// Validate and coerce a raw `value` into a JSON value matching `kind`.
///
/// Numbers must read as a finite floating-point number (`number` is how the
/// text reads as one), booleans as `true`/`false`, colors as a hex color,
/// and an image must name an entry already embedded in the document
/// (`image_names`). `string` and `content` accept any text verbatim.
pub fn coerce_value(kind: InputKind, value: &str, image_names: &[String], number: NumberParse) -> (r: Result<JsonValue, String>)
    ensures
        match r {
            Ok(j) => coerce_spec(kind, value@, names(image_names@), number) == Ok::<_, Seq<char>>(crate::model::json_view(j)),
            Err(m) => coerce_spec(kind, value@, names(image_names@), number) == Err::<JsonV, _>(m@),
        },
{
    let v = chars_of(value);
    match kind {
        InputKind::String | InputKind::Content => Ok(JsonValue::String(string_of(v.as_slice()))),
        InputKind::Number => match number {
            NumberParse::Invalid => Err(quoted_message("value '", value, "' is not a valid number")),
            NumberParse::NonFinite => Err(quoted_message("value '", value, "' is not a finite number")),
            NumberParse::Finite(text) => Ok(JsonValue::Number(text)),
        },
        InputKind::Boolean => {
            if chars_eq(v.as_slice(), chars_of("true").as_slice()) {
                Ok(JsonValue::Bool(true))
            } else if chars_eq(v.as_slice(), chars_of("false").as_slice()) {
                Ok(JsonValue::Bool(false))
            } else {
                Err(quoted_message("value '", value, "' is not a boolean (expected true or false)"))
            }
        },
        InputKind::Color => {
            if is_hex_color(value) {
                Ok(JsonValue::String(string_of(v.as_slice())))
            } else {
                Err(
                    quoted_message(
                        "value '",
                        value,
                        "' is not a hex color (expected #rgb, #rrggbb, or #rrggbbaa)",
                    ),
                )
            }
        },
        InputKind::Image => {
            let mut i: usize = 0;
            while i < image_names.len()
                invariant
                    i <= image_names@.len(),
                    v@ == value@,
                    kind == InputKind::Image,
                    forall|k: int| 0 <= k < i ==> #[trigger] image_names@[k]@ != value@,
                decreases image_names@.len() - i,
            {
                let n = chars_of(image_names[i].as_str());
                if chars_eq(n.as_slice(), v.as_slice()) {
                    proof {
                        assert(names(image_names@)[i as int] == value@);
                        assert(names(image_names@).contains(value@));
                    }
                    return Ok(JsonValue::String(string_of(v.as_slice())));
                }
                i = i + 1;
            }
            proof {
                assert forall|k: int| 0 <= k < names(image_names@).len() implies #[trigger] names(image_names@)[k] != value@ by {
                    assert(names(image_names@)[k] == image_names@[k]@);
                }
            }
            Err(
                quoted_message(
                    "image '",
                    value,
                    "' is not embedded in the document (embed it with `ndoc image add` first)",
                ),
            )
        },
    }
}

/// What [`parse_seed_inputs`] gives: each `key=value` pair stored as a string
/// input (a later pair for the same key replaces an earlier one), or the
/// message for the first malformed pair.
pub open spec fn seed_spec(pairs: Seq<Seq<char>>, m: Seq<(Seq<char>, (InputKind, JsonV))>) -> Result<Seq<(Seq<char>, (InputKind, JsonV))>, Seq<char>>
    decreases pairs.len(),
{
    if pairs.len() == 0 {
        Ok(m)
    } else {
        let p = pairs[0];
        match find_char(p, '=') {
            None => Err("invalid --inputs entry '"@ + p + "': expected key=value"@),
            Some(i) => if i == 0 {
                Err("invalid --inputs entry '"@ + p + "': empty key"@)
            } else {
                seed_spec(
                    pairs.drop_first(),
                    map_insert(
                        m,
                        p.subrange(0, i),
                        (InputKind::String, JsonV::String(p.subrange(i + 1, p.len() as int))),
                    ),
                )
            },
        }
    }
}

/// Parse `key=value` seed inputs into string-kinded input values, sorted by
/// key. A pair without `=` or with an empty key is refused.
pub fn parse_seed_inputs(pairs: &[String]) -> (r: Result<Vec<(String, InputValue)>, String>)
    ensures
        match r {
            Ok(m) => seed_spec(names(pairs@), seq![]) == Ok::<_, Seq<char>>(entries(m@)),
            Err(msg) => seed_spec(names(pairs@), seq![]) == Err::<Seq<(Seq<char>, (InputKind, JsonV))>, _>(msg@),
        },
{
    let mut m: Vec<(String, InputValue)> = Vec::new();
    let ghost all = names(pairs@);
    proof {
        assert(entries(m@) =~= Seq::<(Seq<char>, (InputKind, JsonV))>::empty());
        assert(all.subrange(0, all.len() as int) =~= all);
    }
    let mut i: usize = 0;
    while i < pairs.len()
        invariant
            i <= pairs@.len(),
            all == names(pairs@),
            all.len() == pairs@.len(),
            seed_spec(all, seq![]) == seed_spec(all.subrange(i as int, all.len() as int), entries(m@)),
        decreases pairs@.len() - i,
    {
        let ghost rest = all.subrange(i as int, all.len() as int);
        let p = chars_of(pairs[i].as_str());
        let _plen = p.len();
        proof {
            assert(rest[0] == pairs@[i as int]@);
            assert(rest.drop_first() =~= all.subrange(i + 1, all.len() as int));
        }
        let eq = match crate::text::find_char_from(p.as_slice(), '=', 0) {
            None => {
                return Err(quoted_message("invalid --inputs entry '", pairs[i].as_str(), "': expected key=value"));
            },
            Some(eq) => eq,
        };
        if eq == 0 {
            return Err(quoted_message("invalid --inputs entry '", pairs[i].as_str(), "': empty key"));
        }
        proof {
            crate::text::lemma_find_from_sound(p@, seq!['='], 0);
            crate::text::lemma_occurs_char(p@, '=', eq as int);
        }
        let key = slice_string(p.as_slice(), 0, eq);
        let value = slice_string(p.as_slice(), eq + 1, p.len());
        insert_input(&mut m, key, InputValue { kind: InputKind::String, value: JsonValue::String(value) });
        i = i + 1;
    }
    proof {
        assert(all.subrange(all.len() as int, all.len() as int) =~= Seq::<Seq<char>>::empty());
    }
    Ok(m)
}

} // verus!
