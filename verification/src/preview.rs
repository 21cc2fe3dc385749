//! Component and document preview composition.
//!
//! A preview is the live Typst a document (or a single component) needs to
//! render: the TEMPLATE section (theme, the `image-or-placeholder` helper and
//! the component definitions) followed by the DOCUMENT section (the `doc`
//! state update and the component-invocation tree). The inert STATE and
//! IMAGES sections of a persisted document are not part of a preview.
use vstd::prelude::*;

use crate::error::Error;
use crate::inputs::map_get;
use crate::markdown::{gfm_xml, markdown_to_typst, render_document};
use crate::xml::document;
use crate::model::{
    input_view, json_view, lemma_node_views, node_view, node_views, InputKind, InputValue, JsonV, JsonValue, Node,
    NodeV,
};
use crate::schema::ComponentSchema;
use crate::text::{
    chars_of, find, find_exec, is_prefix, push_all, push_replaced, push_str, replace_char, slice_vec, starts_with,
    string_of, trim, trim_end, trim_end_len, trim_start, trim_start_pos, trim_start_set, trim_start_set_pos,
};

verus! {

/// `src` with a leading `/*--- … ---*/` frontmatter block and the first
/// `/*===IMAGES-START=== … ===IMAGES-END===*/` section removed, and the
/// line breaks that then open it. Leading whitespace goes first; a block
/// that is never closed stays.
pub open spec fn strip_frontmatter_spec(src: Seq<char>) -> Seq<char> {
    let t = trim_start(src);
    let body = if is_prefix("/*---"@, t) {
        match find(t.skip(5), "---*/"@) {
            Some(e) => t.skip(5).skip(e + 5),
            None => t,
        }
    } else {
        t
    };
    let cut = match find(body, "/*===IMAGES-START==="@) {
        Some(st) => match find(body.skip(st), "===IMAGES-END===*/"@) {
            Some(er) => body.take(st) + body.skip(st + er + 18),
            None => body,
        },
        None => body,
    };
    trim_start_set(cut, seq!['\r', '\n'])
}

/// Remove the frontmatter block and any embedded images section from a
/// theme or component source (see [`strip_frontmatter_spec`]).
pub fn strip_frontmatter(src: &str) -> (r: String)
    ensures
        r@ == strip_frontmatter_spec(src@),
{
    let cs = chars_of(src);
    let k = trim_start_pos(cs.as_slice());
    let t = slice_vec(cs.as_slice(), k, cs.len());
    let open = chars_of("/*---");
    let close = chars_of("---*/");
    let img_start = chars_of("/*===IMAGES-START===");
    let img_end = chars_of("===IMAGES-END===*/");
    proof {
        reveal_strlit("/*---");
        reveal_strlit("---*/");
        reveal_strlit("/*===IMAGES-START===");
        reveal_strlit("===IMAGES-END===*/");
    }
    let mut body = t.clone();
    proof {
        assert(body@ == t@);
    }
    if starts_with(t.as_slice(), open.as_slice()) {
        let rest = slice_vec(t.as_slice(), 5, t.len());
        proof {
            assert(rest@ =~= t@.skip(5));
        }
        if let Some(e) = find_exec(rest.as_slice(), close.as_slice()) {
            proof {
                crate::text::lemma_find_from_sound(rest@, close@, 0);
            }
            body = slice_vec(rest.as_slice(), e + 5, rest.len());
            proof {
                assert(body@ =~= t@.skip(5).skip(e + 5));
            }
        }
    }
    let ghost b0 = body@;
    let mut cut = body.clone();
    proof {
        assert(cut@ == b0);
    }
    if let Some(st) = find_exec(body.as_slice(), img_start.as_slice()) {
        proof {
            crate::text::lemma_find_from_sound(body@, img_start@, 0);
        }
        let tail = slice_vec(body.as_slice(), st, body.len());
        proof {
            assert(tail@ =~= b0.skip(st as int));
        }
        if let Some(er) = find_exec(tail.as_slice(), img_end.as_slice()) {
            proof {
                crate::text::lemma_find_from_sound(tail@, img_end@, 0);
            }
            let mut c = slice_vec(body.as_slice(), 0, st);
            let after = slice_vec(body.as_slice(), st + er + 18, body.len());
            push_all(&mut c, after.as_slice());
            proof {
                assert(c@ =~= b0.take(st as int) + b0.skip(st + er + 18));
            }
            cut = c;
        }
    }
    let breaks = vec!['\r', '\n'];
    let j = trim_start_set_pos(cut.as_slice(), breaks.as_slice());
    proof {
        assert(breaks@ =~= seq!['\r', '\n']);
    }
    slice_string_of(cut.as_slice(), j)
}

fn slice_string_of(s: &[char], from: usize) -> (r: String)
    requires
        from <= s@.len(),
    ensures
        r@ == s@.subrange(from as int, s@.len() as int),
{
    crate::text::slice_string(s, from, s.len())
}

/// `s` as a Typst string literal: in quotes, with each backslash doubled
/// and then each quote escaped.
pub open spec fn quoted_spec(s: Seq<char>) -> Seq<char> {
    seq!['"'] + replace_char(replace_char(s, '\\', "\\\\"@), '"', "\\\""@) + seq!['"']
}

/// Format a string as a quoted, backslash/quote-escaped Typst string literal.
pub fn format_string_value(s: &str) -> (r: String)
    ensures
        r@ == quoted_spec(s@),
{
    let cs = chars_of(s);
    let mut once: Vec<char> = Vec::new();
    let two = chars_of("\\\\");
    push_replaced(&mut once, cs.as_slice(), '\\', two.as_slice());
    let mut out: Vec<char> = Vec::new();
    out.push('"');
    let esc = chars_of("\\\"");
    push_replaced(&mut out, once.as_slice(), '"', esc.as_slice());
    out.push('"');
    proof {
        assert(once@ =~= replace_char(s@, '\\', "\\\\"@));
        assert(out@ =~= quoted_spec(s@));
    }
    string_of(out.as_slice())
}

/// The compact JSON text of a value, as `serde_json` writes it.
pub uninterp spec fn spec_json_text(v: JsonV) -> Seq<char>;

/// `serde_json`'s own value type, carried opaquely.
#[verifier::external_type_specification]
#[verifier::external_body]
pub struct ExJsonValue(serde_json::Value);

/// The `serde_json` value that a [`JsonValue`] stands for.
///
/// Trusted: converts variant by variant (a number from its text, which is
/// the text `serde_json` wrote for it); nothing is stated of the result,
/// which is used only by [`json_text`].
#[verifier::external_body]
fn serde_value(v: &JsonValue) -> serde_json::Value {
    match v {
        JsonValue::Null => serde_json::Value::Null,
        JsonValue::Bool(b) => serde_json::Value::Bool(*b),
        JsonValue::Number(n) => n.parse::<serde_json::Number>().map(serde_json::Value::Number).unwrap_or(serde_json::Value::Null),
        JsonValue::String(s) => serde_json::Value::String(s.clone()),
        JsonValue::Array(a) => serde_json::Value::Array(a.iter().map(serde_value).collect()),
        JsonValue::Object(o) => serde_json::Value::Object(o.iter().map(|(k, x)| (k.clone(), serde_value(x))).collect()),
    }
}

/// The compact JSON text of a value.
///
/// Trusted: calls `Display` of `serde_json::Value` (its `to_string`); the
/// contract names the text, a function of the value alone.
#[verifier::external_body]
pub(crate) fn json_text(v: &JsonValue) -> (r: String)
    ensures
        r@ == spec_json_text(json_view(*v)),
{
    serde_value(v).to_string()
}

/// The Typst a Markdown text converts to, or `None` when the conversion
/// fails (see [`markdown_to_typst`]).
pub open spec fn typst_of_markdown(md: Seq<char>) -> Option<Seq<char>> {
    if trim(md).len() == 0 {
        Some(seq![])
    } else {
        match document(gfm_xml(md)) {
            Some(d) => Some(trim_end(render_document(d))),
            None => None,
        }
    }
}

/// A content value as a Typst `[..]` block: `[]` for an empty text or an
/// empty conversion.
pub open spec fn content_value_spec(s: Seq<char>) -> Option<Seq<char>> {
    if s.len() == 0 {
        Some("[]"@)
    } else {
        match typst_of_markdown(s) {
            None => None,
            Some(t) => if t.len() == 0 {
                Some("[]"@)
            } else {
                Some(seq!['['] + t + seq![']'])
            },
        }
    }
}

/// Convert a Markdown content string to a Typst `[..]` content block.
pub fn format_content_value(s: &str) -> (r: Result<String, Error>)
    ensures
        match content_value_spec(s@) {
            Some(t) => r matches Ok(v) && v@ == t,
            None => r matches Err(e) && e is Markdown,
        },
{
    if chars_of(s).len() == 0 {
        return Ok(string_of(chars_of("[]").as_slice()));
    }
    let typst = markdown_to_typst(s)?;
    if chars_of(typst.as_str()).len() == 0 {
        Ok(string_of(chars_of("[]").as_slice()))
    } else {
        let mut out: Vec<char> = Vec::new();
        out.push('[');
        push_str(&mut out, typst.as_str());
        out.push(']');
        proof {
            assert(out@ =~= seq!['['] + typst@ + seq![']']);
        }
        Ok(string_of(out.as_slice()))
    }
}

/// A JSON input value as a Typst literal: `[]` or `none` for null (content
/// or not), `true`/`false`, the number's text, a content block for a content
/// string, a quoted string otherwise, and the quoted JSON text of an array
/// or object.
pub open spec fn value_spec(v: JsonV, is_content: bool) -> Option<Seq<char>> {
    match v {
        JsonV::Null => Some(if is_content { "[]"@ } else { "none"@ }),
        JsonV::Bool(b) => Some(if b { "true"@ } else { "false"@ }),
        JsonV::Number(n) => Some(n),
        JsonV::String(s) => if is_content {
            content_value_spec(s)
        } else {
            Some(quoted_spec(s))
        },
        _ => Some(quoted_spec(spec_json_text(v))),
    }
}

/// Format a JSON input value as a Typst literal (see [`value_spec`]).
pub fn format_value(value: &JsonValue, is_content: bool) -> (r: Result<String, Error>)
    ensures
        match value_spec(json_view(*value), is_content) {
            Some(t) => r matches Ok(v) && v@ == t,
            None => r matches Err(e) && e is Markdown,
        },
{
    match value {
        JsonValue::Null => if is_content {
            Ok(string_of(chars_of("[]").as_slice()))
        } else {
            Ok(string_of(chars_of("none").as_slice()))
        },
        JsonValue::Bool(b) => if *b {
            Ok(string_of(chars_of("true").as_slice()))
        } else {
            Ok(string_of(chars_of("false").as_slice()))
        },
        JsonValue::Number(n) => Ok(string_of(chars_of(n.as_str()).as_slice())),
        JsonValue::String(s) => if is_content {
            format_content_value(s.as_str())
        } else {
            Ok(format_string_value(s.as_str()))
        },
        _ => {
            let text = json_text(value);
            Ok(format_string_value(text.as_str()))
        },
    }
}


/// Component names and whether each takes a body, from the schemas.
pub open spec fn schema_bodies(s: Seq<(String, ComponentSchema)>) -> Seq<(Seq<char>, bool)> {
    s.map_values(|p: (String, ComponentSchema)| (p.0@, p.1.has_body))
}

/// Whether the component `c` takes a body: its schema says so.
pub open spec fn takes_body(bodies: Seq<(Seq<char>, bool)>, c: Seq<char>) -> bool {
    map_get(bodies, c) == Some(true)
}

/// The named arguments from the `i`-th on: `name: value`, separated by
/// `, `; content inputs are formatted as content.
pub open spec fn inputs_from(m: Seq<(Seq<char>, (InputKind, JsonV))>, i: int) -> Option<Seq<char>>
    decreases m.len() - i,
{
    if i < 0 || i >= m.len() {
        Some(seq![])
    } else {
        match value_spec(m[i].1.1, m[i].1.0 == InputKind::Content) {
            None => None,
            Some(f) => match inputs_from(m, i + 1) {
                None => None,
                Some(r) => Some((if i > 0 { ", "@ } else { seq![] }) + m[i].0 + ": "@ + f + r),
            },
        }
    }
}

/// One node as a `#component(args)` invocation on its own line, after the
/// indentation `prefix`; a component that takes a body gets `[]`, or its
/// children (indented two spaces more, separated by blank lines) in
/// brackets.
pub open spec fn node_text(n: NodeV, bodies: Seq<(Seq<char>, bool)>, prefix: Seq<char>) -> Option<Seq<char>>
    decreases n, 1int,
{
    match inputs_from(n.inputs, 0) {
        None => None,
        Some(args) => {
            let head = prefix + seq!['#'] + n.component + seq!['('] + args + seq![')'];
            if !takes_body(bodies, n.component) {
                Some(head + seq!['\n'])
            } else if n.children.len() == 0 {
                Some(head + "[]\n"@)
            } else {
                match nodes_text(n.children, bodies, prefix + "  "@, seq!['\n'], true) {
                    None => None,
                    Some(c) => Some(head + "[\n"@ + c + seq!['\n'] + prefix + "]\n"@),
                }
            }
        },
    }
}

/// The nodes one after another, `sep` between two of them (before the
/// first one too, unless `first`).
pub open spec fn nodes_text(
    ns: Seq<NodeV>,
    bodies: Seq<(Seq<char>, bool)>,
    prefix: Seq<char>,
    sep: Seq<char>,
    first: bool,
) -> Option<Seq<char>>
    decreases ns, 0int,
{
    if ns.len() == 0 {
        Some(seq![])
    } else {
        match node_text(ns[0], bodies, prefix) {
            None => None,
            Some(t) => match nodes_text(ns.drop_first(), bodies, prefix, sep, false) {
                None => None,
                Some(r) => Some((if first { seq![] } else { sep }) + t + r),
            },
        }
    }
}

fn takes_body_exec(schemas: &Vec<(String, ComponentSchema)>, c: &str) -> (b: bool)
    ensures
        b == takes_body(schema_bodies(schemas@), c@),
{
    let ghost bs = schema_bodies(schemas@);
    let target = chars_of(c);
    let mut i: usize = 0;
    proof {
        assert(bs.subrange(0, bs.len() as int) =~= bs);
    }
    while i < schemas.len()
        invariant
            i <= schemas@.len(),
            bs == schema_bodies(schemas@),
            bs.len() == schemas@.len(),
            target@ == c@,
            map_get(bs, c@) == map_get(bs.subrange(i as int, bs.len() as int), c@),
        decreases schemas@.len() - i,
    {
        let ghost rest = bs.subrange(i as int, bs.len() as int);
        proof {
            assert(rest[0] == (schemas@[i as int].0@, schemas@[i as int].1.has_body));
            assert(rest.drop_first() =~= bs.subrange(i + 1, bs.len() as int));
        }
        let name = chars_of(schemas[i].0.as_str());
        if crate::text::chars_eq(name.as_slice(), target.as_slice()) {
            return schemas[i].1.has_body;
        }
        i = i + 1;
    }
    false
}

/// `p` before the text, if there is one.
pub open spec fn prepend(p: Seq<char>, o: Option<Seq<char>>) -> Option<Seq<char>> {
    match o {
        Some(t) => Some(p + t),
        None => None,
    }
}

/// Emit the named-argument list for a component invocation.
pub fn append_inputs(out: &mut Vec<char>, inputs: &Vec<(String, InputValue)>) -> (r: Result<(), Error>)
    ensures
        match inputs_from(crate::model::input_entries(inputs@), 0) {
            Some(t) => r is Ok && final(out)@ == old(out)@ + t,
            None => r matches Err(e) && e is Markdown,
        },
{
    let ghost m = crate::model::input_entries(inputs@);
    let ghost start = out@;
    let mut i: usize = 0;
    while i < inputs.len()
        invariant
            i <= inputs@.len(),
            m == crate::model::input_entries(inputs@),
            m.len() == inputs@.len(),
            inputs_from(m, 0) == prepend(out@.subrange(start.len() as int, out@.len() as int), inputs_from(m, i as int)),
            out@.len() >= start.len(),
            out@.subrange(0, start.len() as int) == start,
            start == old(out)@,
        decreases inputs@.len() - i,
    {
        let ghost before = out@;
        proof {
            assert(m[i as int] == (inputs@[i as int].0@, input_view(inputs@[i as int].1)));
        }
        let is_content = inputs[i].1.kind == InputKind::Content;
        let f = format_value(&inputs[i].1.value, is_content)?;
        if i > 0 {
            push_str(out, ", ");
        }
        push_str(out, inputs[i].0.as_str());
        push_str(out, ": ");
        push_str(out, f.as_str());
        proof {
            let piece = (if i > 0 { ", "@ } else { seq![] }) + m[i as int].0 + ": "@ + f@;
            assert(out@ =~= before + piece);
            assert(out@.subrange(start.len() as int, out@.len() as int) =~= before.subrange(
                start.len() as int,
                before.len() as int,
            ) + piece);
            assert(out@.subrange(0, start.len() as int) =~= before.subrange(0, start.len() as int));
        }
        i = i + 1;
    }
    proof {
        assert(out@ =~= start + out@.subrange(start.len() as int, out@.len() as int));
    }
    Ok(())
}


/// Emit the nodes, each as a component invocation (see [`nodes_text`]).
#[verifier::spinoff_prover]
#[verifier::rlimit(60)]
fn nodes_out(
    out: &mut Vec<char>,
    nodes: &Vec<Node>,
    schemas: &Vec<(String, ComponentSchema)>,
    prefix: &Vec<char>,
    sep: &Vec<char>,
    first: bool,
) -> (r: Result<(), Error>)
    ensures
        match nodes_text(node_views(nodes@), schema_bodies(schemas@), prefix@, sep@, first) {
            Some(t) => r is Ok && final(out)@ == old(out)@ + t,
            None => r matches Err(e) && e is Markdown,
        },
    decreases nodes@,
{
    let ghost v = node_views(nodes@);
    let ghost bodies = schema_bodies(schemas@);
    let ghost start = out@;
    proof {
        lemma_node_views(nodes@);
        assert(v.subrange(0, v.len() as int) =~= v);
        assert(out@.subrange(start.len() as int, out@.len() as int) =~= Seq::<char>::empty());
    }
    let mut i: usize = 0;
    while i < nodes.len()
        invariant
            i <= nodes@.len(),
            v == node_views(nodes@),
            v.len() == nodes@.len(),
            forall|k: int| 0 <= k < nodes@.len() ==> #[trigger] v[k] == node_view(nodes@[k]),
            bodies == schema_bodies(schemas@),
            start == old(out)@,
            out@.len() >= start.len(),
            out@.subrange(0, start.len() as int) == start,
            nodes_text(v, bodies, prefix@, sep@, first) == prepend(
                out@.subrange(start.len() as int, out@.len() as int),
                nodes_text(v.subrange(i as int, v.len() as int), bodies, prefix@, sep@, if i == 0 { first } else { false }),
            ),
        decreases nodes@.len() - i,
    {
        let ghost rest = v.subrange(i as int, v.len() as int);
        let ghost before = out@;
        let ghost fi = if i == 0 { first } else { false };
        let node = &nodes[i];
        proof {
            assert(rest[0] == node_view(*node));
            assert(rest.drop_first() =~= v.subrange(i + 1, v.len() as int));
            assert(decreases_to!(nodes@ => nodes@[i as int]));
            assert(decreases_to!(nodes@[i as int] => nodes@[i as int].children));
        }
        if !(if i == 0 { first } else { false }) {
            push_all(out, sep.as_slice());
        }
        let ghost after_sep = out@;
        push_all(out, prefix.as_slice());
        out.push('#');
        push_str(out, node.component.as_str());
        out.push('(');
        match append_inputs(out, &node.inputs) {
            Err(e) => {
                proof {
                    assert(node_text(node_view(*node), bodies, prefix@) is None);
                    assert(nodes_text(rest, bodies, prefix@, sep@, fi) is None);
                }
                return Err(e);
            },
            Ok(()) => {},
        }
        out.push(')');
        let ghost after_head = out@;
        if !takes_body_exec(schemas, node.component.as_str()) {
            out.push('\n');
        } else if node.children.len() == 0 {
            push_str(out, "[]\n");
        } else {
            push_str(out, "[\n");
            let mut inner = prefix.clone();
            proof {
                assert(inner@ == prefix@);
            }
            push_str(&mut inner, "  ");
            let nl = vec!['\n'];
            proof {
                assert(nl@ =~= seq!['\n']);
            }
            match nodes_out(out, &node.children, schemas, &inner, &nl, true) {
                Err(e) => {
                    proof {
                        assert(inner@ == prefix@ + "  "@);
                        assert(node_text(node_view(*node), bodies, prefix@) is None);
                        assert(nodes_text(rest, bodies, prefix@, sep@, fi) is None);
                    }
                    return Err(e);
                },
                Ok(()) => {},
            }
            out.push('\n');
            push_all(out, prefix.as_slice());
            push_str(out, "]\n");
        }
        proof {
            let nv = node_view(*node);
            let args = inputs_from(nv.inputs, 0)->Some_0;
            let head = prefix@ + seq!['#'] + nv.component + seq!['('] + args + seq![')'];
            assert(after_head =~= after_sep + head);
            let t = node_text(nv, bodies, prefix@)->Some_0;
            let piece = (if fi { Seq::<char>::empty() } else { sep@ }) + t;
            assert(out@ =~= before + piece);
            assert(out@.subrange(start.len() as int, out@.len() as int) =~= before.subrange(
                start.len() as int,
                before.len() as int,
            ) + piece);
            assert(out@.subrange(0, start.len() as int) =~= before.subrange(0, start.len() as int));
        }
        i = i + 1;
    }
    proof {
        assert(v.subrange(i as int, v.len() as int) =~= Seq::<NodeV>::empty());
        assert(out@ =~= start + out@.subrange(start.len() as int, out@.len() as int));
    }
    Ok(())
}


/// The component-invocation tree: one top-level node after another with a
/// page break between two, trailing whitespace removed.
pub open spec fn typst_code_spec(nodes: Seq<NodeV>, bodies: Seq<(Seq<char>, bool)>) -> Option<Seq<char>> {
    match nodes_text(nodes, bodies, seq![], "\n#pagebreak()\n\n"@, true) {
        Some(t) => Some(trim_end(t)),
        None => None,
    }
}

/// Emit the component-invocation tree, one top-level node per page.
pub fn generate_typst_code(nodes: &Vec<Node>, component_schemas: &Vec<(String, ComponentSchema)>) -> (r: Result<String, Error>)
    ensures
        match typst_code_spec(node_views(nodes@), schema_bodies(component_schemas@)) {
            Some(t) => r matches Ok(s) && s@ == t,
            None => r matches Err(e) && e is Markdown,
        },
{
    let mut out: Vec<char> = Vec::new();
    let prefix: Vec<char> = Vec::new();
    let sep = chars_of("\n#pagebreak()\n\n");
    nodes_out(&mut out, nodes, component_schemas, &prefix, &sep, true)?;
    let n = trim_end_len(out.as_slice());
    proof {
        assert(prefix@ =~= Seq::<char>::empty());
    }
    Ok(crate::text::slice_string(out.as_slice(), 0, n))
}

/// The document inputs from the `i`-th on, one `  name: value,` line each;
/// values are formatted as scalars.
pub open spec fn state_lines(m: Seq<(Seq<char>, (InputKind, JsonV))>, i: int) -> Seq<char>
    decreases m.len() - i,
{
    if i < 0 || i >= m.len() {
        seq![]
    } else {
        "  "@ + m[i].0 + ": "@ + scalar_spec(m[i].1.1) + ",\n"@ + state_lines(m, i + 1)
    }
}

/// A value formatted as a scalar (never as content).
pub open spec fn scalar_spec(v: JsonV) -> Seq<char> {
    match value_spec(v, false) {
        Some(t) => t,
        None => seq![],
    }
}

/// The `#doc.update((..))` block that seeds the document inputs.
pub open spec fn document_state_spec(m: Seq<(Seq<char>, (InputKind, JsonV))>) -> Seq<char> {
    "// Document context\n#doc.update((\n"@ + state_lines(m, 0) + "))\n"@
}

/// Emit the `#doc.update((..))` block that seeds the document inputs.
pub fn generate_document_state(global_inputs: &Vec<(String, InputValue)>) -> (r: String)
    ensures
        r@ == document_state_spec(crate::model::input_entries(global_inputs@)),
{
    let ghost m = crate::model::input_entries(global_inputs@);
    let mut lines: Vec<char> = Vec::new();
    let mut i: usize = 0;
    while i < global_inputs.len()
        invariant
            i <= global_inputs@.len(),
            m == crate::model::input_entries(global_inputs@),
            m.len() == global_inputs@.len(),
            lines@ + state_lines(m, i as int) == state_lines(m, 0),
        decreases global_inputs@.len() - i,
    {
        let ghost before = lines@;
        proof {
            assert(m[i as int] == (global_inputs@[i as int].0@, input_view(global_inputs@[i as int].1)));
        }
        let f = match format_value(&global_inputs[i].1.value, false) {
            Ok(t) => t,
            Err(_) => {
                proof {
                    assert(false);
                }
                String::new()
            },
        };
        push_str(&mut lines, "  ");
        push_str(&mut lines, global_inputs[i].0.as_str());
        push_str(&mut lines, ": ");
        push_str(&mut lines, f.as_str());
        push_str(&mut lines, ",\n");
        proof {
            assert(lines@ + state_lines(m, i + 1) =~= before + state_lines(m, i as int));
        }
        i = i + 1;
    }
    let mut out = chars_of("// Document context\n#doc.update((\n");
    push_all(&mut out, lines.as_slice());
    push_str(&mut out, "))\n");
    proof {
        assert(lines@ + Seq::<char>::empty() =~= lines@);
        assert(out@ =~= document_state_spec(m));
    }
    string_of(out.as_slice())
}

/// Runtime helper that every composed preview carries: component authors
/// call `image-or-placeholder(name, ..)` unconditionally, and an empty or
/// `none` name renders a dashed placeholder instead of an image.
pub const IMAGE_HELPER: &'static str = "// --- Runtime helper: image-or-placeholder ---\n#let image-or-placeholder(\n  name,\n  width: auto,\n  height: auto,\n  placeholder-width: auto,\n  placeholder-height: auto,\n  ..args,\n) = {\n  if name == none or name == \"\" {\n    rect(\n      width: placeholder-width,\n      height: placeholder-height,\n      stroke: (dash: \"dashed\", paint: luma(180), thickness: 1pt),\n      radius: 12pt,\n    )[\n      #align(center + horizon)[\n        #text(size: 10pt, fill: luma(150))[Photo]\n      ]\n    ]\n  } else {\n    image(\"images/\" + name, width: width, height: height, ..args)\n  }\n}";

/// The theme used when a component preview supplies none: a frontmatter
/// header (stripped when composed) and the `theme` / `doc` states.
pub const MINIMAL_THEME: &'static str = "/*---\nthemeId: preview\nversion: \"0.0.0\"\n---*/\n\n#let theme = state(\"theme\", (:))\n#let doc = state(\"doc\", (:))";

/// The component definitions from the `i`-th on, each under a comment
/// naming it, frontmatter removed and trimmed.
pub open spec fn components_text(sources: Seq<(Seq<char>, Seq<char>)>, i: int) -> Seq<char>
    decreases sources.len() - i,
{
    if i < 0 || i >= sources.len() {
        seq![]
    } else {
        "\n// --- Component: "@ + sources[i].0 + " ---\n\n"@ + trim(strip_frontmatter_spec(sources[i].1)) + seq!['\n']
            + components_text(sources, i + 1)
    }
}

/// The pairs of a map of texts, as text.
pub open spec fn text_pairs(m: Seq<(String, String)>) -> Seq<(Seq<char>, Seq<char>)> {
    m.map_values(|p: (String, String)| (p.0@, p.1@))
}

/// The live TEMPLATE and DOCUMENT Typst of a preview: the theme, the
/// forward `doc` declaration, the image helper and every component
/// definition; then the `doc.update` of the document inputs and the
/// invocation tree. `None` when a content input does not convert.
pub open spec fn compose_spec(
    globals: Seq<(Seq<char>, (InputKind, JsonV))>,
    nodes: Seq<NodeV>,
    theme: Seq<char>,
    sources: Seq<(Seq<char>, Seq<char>)>,
    bodies: Seq<(Seq<char>, bool)>,
) -> Option<Seq<char>> {
    match typst_code_spec(nodes, bodies) {
        None => None,
        Some(code) => Some(
            "// ===TEMPLATE-START===\n\n// --- Theme ---\n\n"@ + trim(strip_frontmatter_spec(theme))
                + "\n\n// Forward-declare doc state so components can reference doc.get()\n#let doc = state(\"doc\", (:))\n\n"@
                + IMAGE_HELPER@ + seq!['\n'] + components_text(sources, 0)
                + "\n// ===TEMPLATE-END===\n\n// ===DOCUMENT-START===\n\n"@ + document_state_spec(globals)
                + "\n// --- Document tree ---\n\n"@ + code + seq!['\n'],
        ),
    }
}

/// Compose the live TEMPLATE + DOCUMENT Typst of a document preview (see
/// [`compose_spec`]); sources and schemas are keyed by component name.
pub fn compose_preview(
    state: &crate::model::Document,
    theme_code: &str,
    component_sources: &Vec<(String, String)>,
    component_schemas: &Vec<(String, ComponentSchema)>,
) -> (r: Result<String, Error>)
    ensures
        match compose_spec(
            crate::model::input_entries(state.inputs@),
            node_views(state.nodes@),
            theme_code@,
            text_pairs(component_sources@),
            schema_bodies(component_schemas@),
        ) {
            Some(t) => r matches Ok(s) && s@ == t,
            None => r matches Err(e) && e is Markdown,
        },
{
    let ghost srcs = text_pairs(component_sources@);
    let mut out = chars_of("// ===TEMPLATE-START===\n\n// --- Theme ---\n\n");
    let theme = strip_frontmatter(theme_code);
    let theme_t = crate::fatfile::composed::trim_chars(chars_of(theme.as_str()).as_slice());
    push_all(&mut out, theme_t.as_slice());
    push_str(&mut out, "\n\n// Forward-declare doc state so components can reference doc.get()\n#let doc = state(\"doc\", (:))\n\n");
    push_str(&mut out, IMAGE_HELPER);
    out.push('\n');
    let mut comps: Vec<char> = Vec::new();
    let mut i: usize = 0;
    while i < component_sources.len()
        invariant
            i <= component_sources@.len(),
            srcs == text_pairs(component_sources@),
            srcs.len() == component_sources@.len(),
            comps@ + components_text(srcs, i as int) == components_text(srcs, 0),
        decreases component_sources@.len() - i,
    {
        let ghost before = comps@;
        proof {
            assert(srcs[i as int] == (component_sources@[i as int].0@, component_sources@[i as int].1@));
        }
        push_str(&mut comps, "\n// --- Component: ");
        push_str(&mut comps, component_sources[i].0.as_str());
        push_str(&mut comps, " ---\n\n");
        let body = strip_frontmatter(component_sources[i].1.as_str());
        let body_t = crate::fatfile::composed::trim_chars(chars_of(body.as_str()).as_slice());
        push_all(&mut comps, body_t.as_slice());
        comps.push('\n');
        proof {
            assert(comps@ + components_text(srcs, i + 1) =~= before + components_text(srcs, i as int));
        }
        i = i + 1;
    }
    proof {
        assert(comps@ + Seq::<char>::empty() =~= comps@);
    }
    push_all(&mut out, comps.as_slice());
    push_str(&mut out, "\n// ===TEMPLATE-END===\n\n// ===DOCUMENT-START===\n\n");
    let doc_state = generate_document_state(&state.inputs);
    push_str(&mut out, doc_state.as_str());
    push_str(&mut out, "\n// --- Document tree ---\n\n");
    let code = generate_typst_code(&state.nodes, component_schemas)?;
    push_str(&mut out, code.as_str());
    out.push('\n');
    proof {
        assert(out@ =~= compose_spec(
            crate::model::input_entries(state.inputs@),
            node_views(state.nodes@),
            theme_code@,
            srcs,
            schema_bodies(component_schemas@),
        )->Some_0);
    }
    Ok(string_of(out.as_slice()))
}


/// The value an input of the given kind starts with when the author gave
/// none: an empty string, zero, `false`, or black.
pub open spec fn default_value(kind: InputKind) -> JsonV {
    match kind {
        InputKind::String | InputKind::Content | InputKind::Image => JsonV::String(seq![]),
        InputKind::Number => JsonV::Number("0"@),
        InputKind::Boolean => JsonV::Bool(false),
        InputKind::Color => JsonV::String("#000000"@),
    }
}

/// The default value for an input of the given kind (see [`default_value`]).
pub fn default_for_kind(kind: InputKind) -> (v: JsonValue)
    ensures
        json_view(v) == default_value(kind),
{
    match kind {
        InputKind::String | InputKind::Content | InputKind::Image => JsonValue::String(String::new()),
        InputKind::Number => JsonValue::Number(string_of(chars_of("0").as_slice())),
        InputKind::Boolean => JsonValue::Bool(false),
        InputKind::Color => JsonValue::String(string_of(chars_of("#000000").as_slice())),
    }
}

/// Every declared input of the first `n`, set to its kind's default, one
/// after another.
pub open spec fn with_defaults(ins: Seq<crate::schema::InputSchema>, n: int) -> Seq<(Seq<char>, (InputKind, JsonV))>
    decreases n,
{
    if n <= 0 {
        seq![]
    } else {
        crate::inputs::map_insert(
            with_defaults(ins, n - 1),
            ins[n - 1].name@,
            (ins[n - 1].kind, default_value(ins[n - 1].kind)),
        )
    }
}

/// The kind a supplied value takes: the declared kind of its name, or
/// `String` for a name the schema does not declare.
pub open spec fn supplied_kind(ins: Seq<crate::schema::InputSchema>, name: Seq<char>) -> InputKind {
    match crate::cli::declared_kind_spec(ins, name) {
        Some(k) => k,
        None => InputKind::String,
    }
}

/// `base` with the first `n` supplied values set over it, one after another.
pub open spec fn with_supplied(
    base: Seq<(Seq<char>, (InputKind, JsonV))>,
    ins: Seq<crate::schema::InputSchema>,
    vals: Seq<(Seq<char>, JsonV)>,
    n: int,
) -> Seq<(Seq<char>, (InputKind, JsonV))>
    decreases n,
{
    if n <= 0 {
        base
    } else {
        crate::inputs::map_insert(
            with_supplied(base, ins, vals, n - 1),
            vals[n - 1].0,
            (supplied_kind(ins, vals[n - 1].0), vals[n - 1].1),
        )
    }
}

/// The values supplied for a preview, as names and JSON values.
pub open spec fn supplied_views(vals: Seq<(String, JsonValue)>) -> Seq<(Seq<char>, JsonV)> {
    vals.map_values(|p: (String, JsonValue)| (p.0@, json_view(p.1)))
}

/// The inputs a component preview gives its one node: each declared input
/// at its default, then each supplied value over it.
pub open spec fn preview_inputs(
    ins: Seq<crate::schema::InputSchema>,
    vals: Seq<(Seq<char>, JsonV)>,
) -> Seq<(Seq<char>, (InputKind, JsonV))> {
    with_supplied(with_defaults(ins, ins.len() as int), ins, vals, vals.len() as int)
}

/// The one-node document a component preview renders.
pub open spec fn preview_node(schema: ComponentSchema, vals: Seq<(Seq<char>, JsonV)>) -> NodeV {
    NodeV {
        id: crate::model::mint_from(schema.name@, seq![], 0),
        component: schema.name@,
        inputs: preview_inputs(schema.inputs@, vals),
        children: seq![],
    }
}

/// The Typst a component preview compiles: its one node, against
/// `theme_code` (or the minimal theme), with the component's own source.
pub open spec fn component_preview_spec(
    source: Seq<char>,
    schema: ComponentSchema,
    vals: Seq<(Seq<char>, JsonV)>,
    theme: Option<Seq<char>>,
) -> Option<Seq<char>> {
    compose_spec(
        seq![],
        seq![preview_node(schema, vals)],
        match theme {
            Some(t) => t,
            None => MINIMAL_THEME@,
        },
        seq![(schema.name@, source)],
        seq![(schema.name@, schema.has_body)],
    )
}

/// Compose the preview of a single component (see
/// [`component_preview_spec`]): every declared input starts at its kind's
/// default and the supplied values are set over them.
pub fn compose_component_preview(
    component_source: &str,
    schema: &ComponentSchema,
    input_values: Vec<(String, JsonValue)>,
    theme_code: Option<&str>,
) -> (r: Result<String, Error>)
    ensures
        match component_preview_spec(
            component_source@,
            *schema,
            supplied_views(input_values@),
            match theme_code {
                Some(t) => Some(t@),
                None => None,
            },
        ) {
            Some(t) => r matches Ok(s) && s@ == t,
            None => r matches Err(e) && e is Markdown,
        },
{
    let ghost ins = schema.inputs@;
    let ghost vals = supplied_views(input_values@);
    let mut inputs: Vec<(String, InputValue)> = Vec::new();
    let mut i: usize = 0;
    while i < schema.inputs.len()
        invariant
            i <= schema.inputs@.len(),
            ins == schema.inputs@,
            crate::model::input_entries(inputs@) == with_defaults(ins, i as int),
        decreases schema.inputs@.len() - i,
    {
        let kind = schema.inputs[i].kind;
        let name = string_of(chars_of(schema.inputs[i].name.as_str()).as_slice());
        proof {
            assert(crate::model::input_entries(inputs@) =~= crate::inputs::entries(inputs@));
        }
        crate::inputs::insert_input(&mut inputs, name, InputValue { kind, value: default_for_kind(kind) });
        proof {
            assert(crate::model::input_entries(inputs@) =~= crate::inputs::entries(inputs@));
        }
        i = i + 1;
    }
    let ghost base = crate::model::input_entries(inputs@);
    let mut values = input_values;
    let ghost all = values@;
    let mut j: usize = 0;
    let n = values.len();
    while j < n
        invariant
            j <= n == all.len(),
            values@.len() == all.len() - j,
            forall|k: int| 0 <= k < values@.len() ==> #[trigger] values@[k] == all[j + k],
            vals == supplied_views(all),
            ins == schema.inputs@,
            base == with_defaults(ins, ins.len() as int),
            crate::model::input_entries(inputs@) == with_supplied(base, ins, vals, j as int),
        decreases n - j,
    {
        let (name, value) = values.remove(0);
        proof {
            assert(vals[j as int] == (name@, json_view(value)));
        }
        let kind = match crate::cli::declared_kind(schema.inputs.as_slice(), name.as_str()) {
            Some(k) => k,
            None => InputKind::String,
        };
        proof {
            assert(crate::model::input_entries(inputs@) =~= crate::inputs::entries(inputs@));
        }
        crate::inputs::insert_input(&mut inputs, name, InputValue { kind, value });
        proof {
            assert(crate::model::input_entries(inputs@) =~= crate::inputs::entries(inputs@));
            assert forall|k: int| 0 <= k < values@.len() implies #[trigger] values@[k] == all[j + 1 + k] by {
            }
        }
        j = j + 1;
    }
    let none: Vec<crate::model::NodeId> = Vec::new();
    proof {
        assert(crate::model::id_views(none@) =~= Seq::<Seq<char>>::empty());
    }
    let id = crate::model::NodeId::mint(schema.name.as_str(), none.as_slice());
    let node = Node {
        id,
        component: string_of(chars_of(schema.name.as_str()).as_slice()),
        inputs,
        children: Vec::new(),
    };
    proof {
        assert(vals.len() == n);
        assert(node_views(node.children@) =~= Seq::<NodeV>::empty());
        assert(node_view(node) == preview_node(*schema, vals));
    }
    let state = crate::model::Document {
        template: string_of(chars_of("preview").as_slice()),
        inputs: Vec::new(),
        nodes: vec![node],
        images: Vec::new(),
    };
    let sources = vec![
        (string_of(chars_of(schema.name.as_str()).as_slice()), string_of(chars_of(component_source).as_slice())),
    ];
    let schemas = vec![
        (
            string_of(chars_of(schema.name.as_str()).as_slice()),
            ComponentSchema {
                name: string_of(chars_of(schema.name.as_str()).as_slice()),
                inputs: Vec::new(),
                has_body: schema.has_body,
                allowed_children: Vec::new(),
            },
        ),
    ];
    let theme = match theme_code {
        Some(t) => t,
        None => MINIMAL_THEME,
    };
    proof {
        assert(node_views(state.nodes@) =~= seq![preview_node(*schema, vals)]) by {
            assert(node_views(state.nodes@.drop_first()) =~= Seq::<NodeV>::empty());
            assert(node_views(node.children@) =~= Seq::<NodeV>::empty());
        }
        assert(crate::model::input_entries(state.inputs@) =~= Seq::<(Seq<char>, (InputKind, JsonV))>::empty());
        assert(text_pairs(sources@) =~= seq![(schema.name@, component_source@)]);
        assert(schema_bodies(schemas@) =~= seq![(schema.name@, schema.has_body)]);
    }
    compose_preview(&state, theme, &sources, &schemas)
}


/// The position of the last supplied value named `k` among the first `n`.
pub open spec fn last_supplied(vals: Seq<(Seq<char>, JsonV)>, k: Seq<char>, n: int) -> Option<int>
    decreases n,
{
    if n <= 0 {
        None
    } else if vals[n - 1].0 == k {
        Some(n - 1)
    } else {
        last_supplied(vals, k, n - 1)
    }
}

proof fn lemma_with_supplied(
    base: Seq<(Seq<char>, (InputKind, JsonV))>,
    ins: Seq<crate::schema::InputSchema>,
    vals: Seq<(Seq<char>, JsonV)>,
    k: Seq<char>,
    n: int,
)
    requires
        0 <= n <= vals.len(),
    ensures
        map_get(with_supplied(base, ins, vals, n), k) == match last_supplied(vals, k, n) {
            Some(j) => Some((supplied_kind(ins, k), vals[j].1)),
            None => map_get(base, k),
        },
    decreases n,
{
    if n > 0 {
        lemma_with_supplied(base, ins, vals, k, n - 1);
        crate::inputs::law_get_after_insert(
            with_supplied(base, ins, vals, n - 1),
            vals[n - 1].0,
            (supplied_kind(ins, vals[n - 1].0), vals[n - 1].1),
            k,
        );
    }
}

/// A component preview gives each input the last value supplied for it,
/// with the kind its schema declares (`String` for an undeclared name);
/// an input with no supplied value keeps what the declarations seed.
pub proof fn law_supplied_value_wins(
    ins: Seq<crate::schema::InputSchema>,
    vals: Seq<(Seq<char>, JsonV)>,
    k: Seq<char>,
)
    ensures
        map_get(preview_inputs(ins, vals), k) == match last_supplied(vals, k, vals.len() as int) {
            Some(j) => Some((supplied_kind(ins, k), vals[j].1)),
            None => map_get(with_defaults(ins, ins.len() as int), k),
        },
{
    lemma_with_supplied(with_defaults(ins, ins.len() as int), ins, vals, k, vals.len() as int);
}

} // verus!
