//! Schema-based validation of documents.
//!
//! Validation never stops at the first problem: every violation found is
//! collected. Only `Error`-severity violations make a document invalid;
//! warnings are reported but do not fail validation.
use vstd::prelude::*;

use crate::error::{error_text, Error};
use crate::fatfile::composed::{
    doc_view, doc_views, extract_image_blobs, image_blobs_spec, is_composed_spec, lemma_doc_views, parse_state_spec,
    parse_state_with, state_view, DocNode, DocNodeV, DocState, ParsedInput, ParsedV, Prelude, YamlV,
};
use crate::inputs::{entries, map_get};
use crate::model::{kind_debug_name, InputKind};
use crate::schema::{component_index, template_index, Catalogue, ComponentSchema, ConstraintKind, DocumentConstraint, InputSchema};
use crate::fatfile::ndoc::{parse_spec, NdocDocument};
use crate::cli::{declared_kind, declared_kind_spec, names};
use crate::text::{chars_eq, chars_of, find, find_exec, is_prefix, join, push_all, push_str, slice_vec, starts_with, string_of, trim, views};

verus! {

/// The severity of a [`Violation`].
#[derive(Debug, Clone, Copy, PartialEq, Eq, Structural)]
pub enum Severity {
    Error,
    Warning,
}

/// A single issue found during validation.
#[derive(Debug, Clone, PartialEq)]
pub struct Violation {
    /// Whether this issue invalidates the document or is advisory.
    pub severity: Severity,
    /// Stable machine-readable code, e.g. `unknown-input`.
    pub code: String,
    /// The location of the problem (file path, node id, input name).
    pub location: String,
    /// Human-readable description of the violation.
    pub message: String,
}

/// A violation as a mathematical object.
pub struct ViolationV {
    pub severity: Severity,
    pub code: Seq<char>,
    pub location: Seq<char>,
    pub message: Seq<char>,
}

impl View for Violation {
    type V = ViolationV;

    open spec fn view(&self) -> ViolationV {
        ViolationV {
            severity: self.severity,
            code: self.code@,
            location: self.location@,
            message: self.message@,
        }
    }
}

/// The views of a list of violations.
pub open spec fn violation_views(v: Seq<Violation>) -> Seq<ViolationV> {
    v.map_values(|x: Violation| x@)
}

/// An error-severity violation.
pub open spec fn err_v(code: Seq<char>, location: Seq<char>, message: Seq<char>) -> ViolationV {
    ViolationV { severity: Severity::Error, code, location, message }
}

/// A warning-severity violation.
pub open spec fn warn_v(code: Seq<char>, location: Seq<char>, message: Seq<char>) -> ViolationV {
    ViolationV { severity: Severity::Warning, code, location, message }
}

impl Violation {
    /// An `Error`-severity violation.
    pub fn error(code: &str, location: &str, message: &str) -> (v: Violation)
        ensures
            v@ == err_v(code@, location@, message@),
    {
        Violation {
            severity: Severity::Error,
            code: crate::schema::owned(code),
            location: crate::schema::owned(location),
            message: crate::schema::owned(message),
        }
    }

    /// A `Warning`-severity violation.
    pub fn warning(code: &str, location: &str, message: &str) -> (v: Violation)
        ensures
            v@ == warn_v(code@, location@, message@),
    {
        Violation {
            severity: Severity::Warning,
            code: crate::schema::owned(code),
            location: crate::schema::owned(location),
            message: crate::schema::owned(message),
        }
    }
}

/// A summary of a composed document that was validated.
#[derive(Debug, Clone, PartialEq)]
pub struct ValidationSummary {
    pub template_id: String,
    pub template_version: String,
    pub theme_id: String,
    pub node_count: usize,
    pub global_input_count: usize,
}

/// The output of a validation run.
#[derive(Debug)]
pub struct ValidationResult {
    pub violations: Vec<Violation>,
    /// Present for composed documents.
    pub summary: Option<ValidationSummary>,
}

/// Some violation is an error.
pub open spec fn has_error(vs: Seq<ViolationV>) -> bool {
    exists|i: int| 0 <= i < vs.len() && #[trigger] vs[i].severity == Severity::Error
}

impl ValidationResult {
    /// No `Error`-severity violation was found; warnings do not invalidate a
    /// document.
    pub fn is_valid(&self) -> (b: bool)
        ensures
            b == !has_error(violation_views(self.violations@)),
    {
        let mut i: usize = 0;
        while i < self.violations.len()
            invariant
                i <= self.violations@.len(),
                forall|k: int| 0 <= k < i ==> #[trigger] self.violations@[k].severity != Severity::Error,
            decreases self.violations@.len() - i,
        {
            if self.violations[i].severity == Severity::Error {
                proof {
                    assert(violation_views(self.violations@)[i as int].severity == Severity::Error);
                }
                return false;
            }
            i = i + 1;
        }
        proof {
            let vs = violation_views(self.violations@);
            assert forall|k: int| 0 <= k < vs.len() implies #[trigger] vs[k].severity != Severity::Error by {
                assert(vs[k].severity == self.violations@[k].severity);
            }
        }
        true
    }
}

// ---------------------------------------------------------------------------
// Reading input values.
// ---------------------------------------------------------------------------

/// An ASCII digit.
pub open spec fn is_digit(c: char) -> bool {
    '0' <= c && c <= '9'
}

/// Every character is an ASCII digit.
pub open spec fn all_digits(s: Seq<char>) -> bool {
    forall|i: int| 0 <= i < s.len() ==> is_digit(#[trigger] s[i])
}

/// The character with ASCII letters lowered.
pub open spec fn ascii_lower(c: char) -> char {
    if 'A' <= c && c <= 'Z' {
        ((c as int) + 32) as char
    } else {
        c
    }
}

/// `a` and `b` are equal ignoring ASCII case.
pub open spec fn eq_ignore_ascii_case(a: Seq<char>, b: Seq<char>) -> bool {
    a.len() == b.len() && forall|i: int| 0 <= i < a.len() ==> ascii_lower(#[trigger] a[i]) == ascii_lower(b[i])
}

/// `s` without one leading `+` or `-`.
pub open spec fn drop_sign(s: Seq<char>) -> Seq<char> {
    if s.len() > 0 && (s[0] == '+' || s[0] == '-') {
        s.drop_first()
    } else {
        s
    }
}

/// The position of the first `e` or `E`.
pub open spec fn exp_index(s: Seq<char>) -> Option<int>
    decreases s.len(),
{
    if s.len() == 0 {
        None
    } else if s.last() == 'e' || s.last() == 'E' {
        match exp_index(s.drop_last()) {
            Some(i) => Some(i),
            None => Some(s.len() - 1),
        }
    } else {
        exp_index(s.drop_last())
    }
}

/// A decimal mantissa: digits with at most one `.`, and at least one digit.
pub open spec fn is_mantissa(m: Seq<char>) -> bool {
    &&& exists|i: int| 0 <= i < m.len() && is_digit(#[trigger] m[i])
    &&& forall|i: int| 0 <= i < m.len() ==> is_digit(#[trigger] m[i]) || m[i] == '.'
    &&& forall|i: int, j: int| 0 <= i < j < m.len() && #[trigger] m[i] == '.' ==> #[trigger] m[j] != '.'
}

/// A text that reads as a floating-point number, as the standard library's
/// `f64` parser accepts it: an optional sign, then `inf`, `infinity` or
/// `nan` in any case, or a mantissa with an optional exponent `e`/`E`,
/// optional sign and digits.
pub open spec fn is_float_text(s: Seq<char>) -> bool {
    let t = drop_sign(s);
    ||| eq_ignore_ascii_case(t, "inf"@)
    ||| eq_ignore_ascii_case(t, "infinity"@)
    ||| eq_ignore_ascii_case(t, "nan"@)
    ||| match exp_index(t) {
        None => is_mantissa(t),
        Some(e) => is_mantissa(t.subrange(0, e)) && drop_sign(t.subrange(e + 1, t.len() as int)).len()
            > 0 && all_digits(drop_sign(t.subrange(e + 1, t.len() as int))),
    }
}

fn ascii_lower_exec(c: char) -> (r: char)
    ensures
        r == ascii_lower(c),
{
    if 'A' <= c && c <= 'Z' {
        match c {
            'A' => 'a', 'B' => 'b', 'C' => 'c', 'D' => 'd', 'E' => 'e', 'F' => 'f', 'G' => 'g',
            'H' => 'h', 'I' => 'i', 'J' => 'j', 'K' => 'k', 'L' => 'l', 'M' => 'm', 'N' => 'n',
            'O' => 'o', 'P' => 'p', 'Q' => 'q', 'R' => 'r', 'S' => 's', 'T' => 't', 'U' => 'u',
            'V' => 'v', 'W' => 'w', 'X' => 'x', 'Y' => 'y', _ => 'z',
        }
    } else {
        c
    }
}

/// Whether `a` equals `b` ignoring ASCII case.
pub fn eq_ignore_case_exec(a: &[char], b: &str) -> (r: bool)
    ensures
        r == eq_ignore_ascii_case(a@, b@),
{
    let bc = chars_of(b);
    if a.len() != bc.len() {
        return false;
    }
    let mut i: usize = 0;
    while i < a.len()
        invariant
            i <= a@.len(),
            a@.len() == bc@.len(),
            bc@ == b@,
            forall|k: int| 0 <= k < i ==> ascii_lower(#[trigger] a@[k]) == ascii_lower(bc@[k]),
        decreases a@.len() - i,
    {
        if ascii_lower_exec(a[i]) != ascii_lower_exec(bc[i]) {
            return false;
        }
        i = i + 1;
    }
    true
}

fn is_mantissa_exec(m: &[char]) -> (r: bool)
    ensures
        r == is_mantissa(m@),
{
    let mut digit = false;
    let mut dot = false;
    let mut i: usize = 0;
    while i < m.len()
        invariant
            i <= m@.len(),
            digit == (exists|k: int| 0 <= k < i && is_digit(#[trigger] m@[k])),
            dot == (exists|k: int| 0 <= k < i && #[trigger] m@[k] == '.'),
            forall|k: int| 0 <= k < i ==> is_digit(#[trigger] m@[k]) || m@[k] == '.',
            forall|k: int, j: int| 0 <= k < j < i && #[trigger] m@[k] == '.' ==> #[trigger] m@[j] != '.',
        decreases m@.len() - i,
    {
        let c = m[i];
        if '0' <= c && c <= '9' {
            digit = true;
        } else if c == '.' {
            if dot {
                proof {
                    let k = choose|k: int| 0 <= k < i && #[trigger] m@[k] == '.';
                    assert(m@[k] == '.' && m@[i as int] == '.');
                }
                return false;
            }
            dot = true;
        } else {
            proof {
                assert(!(is_digit(m@[i as int]) || m@[i as int] == '.'));
            }
            return false;
        }
        i = i + 1;
    }
    digit
}

/// Whether `s` reads as a floating-point number (see [`is_float_text`]).
pub fn is_float_text_exec(s: &[char]) -> (r: bool)
    ensures
        r == is_float_text(s@),
{
    let tv = if s.len() > 0 && (s[0] == '+' || s[0] == '-') {
        crate::text::slice_vec(s, 1, s.len())
    } else {
        crate::text::to_vec(s)
    };
    let t = tv.as_slice();
    proof {
        assert(t@ =~= drop_sign(s@));
    }
    if eq_ignore_case_exec(t, "inf") || eq_ignore_case_exec(t, "infinity") || eq_ignore_case_exec(t, "nan") {
        return true;
    }
    let mut e: usize = 0;
    while e < t.len() && t[e] != 'e' && t[e] != 'E'
        invariant
            e <= t@.len(),
            forall|k: int| 0 <= k < e ==> t@[k] != 'e' && t@[k] != 'E',
        decreases t@.len() - e,
    {
        e = e + 1;
    }
    proof {
        lemma_exp_index(t@, e as int);
    }
    if e == t.len() {
        proof {
            assert(t@.subrange(0, e as int) =~= t@);
        }
        is_mantissa_exec(t)
    } else {
        let mv = crate::text::slice_vec(t, 0, e);
        let mant = mv.as_slice();
        let restv = crate::text::slice_vec(t, e + 1, t.len());
        let rest = restv.as_slice();
        let r2v = if rest.len() > 0 && (rest[0] == '+' || rest[0] == '-') {
            crate::text::slice_vec(rest, 1, rest.len())
        } else {
            crate::text::to_vec(rest)
        };
        let r2 = r2v.as_slice();
        proof {
            assert(r2@ =~= drop_sign(rest@));
        }
        if !is_mantissa_exec(mant) || r2.len() == 0 {
            return false;
        }
        let mut k: usize = 0;
        proof {
            assert(is_float_text(s@) == all_digits(r2@));
        }
        while k < r2.len()
            invariant
                k <= r2@.len(),
                is_float_text(s@) == all_digits(r2@),
                forall|j: int| 0 <= j < k ==> is_digit(#[trigger] r2@[j]),
            decreases r2@.len() - k,
        {
            if !('0' <= r2[k] && r2[k] <= '9') {
                proof {
                    assert(!is_digit(r2@[k as int]));
                }
                return false;
            }
            k = k + 1;
        }
        true
    }
}

/// The first `e`/`E` is the first position holding one.
proof fn lemma_exp_index(t: Seq<char>, e: int)
    requires
        0 <= e <= t.len(),
        forall|k: int| 0 <= k < e ==> t[k] != 'e' && t[k] != 'E',
        e < t.len() ==> (t[e] == 'e' || t[e] == 'E'),
    ensures
        exp_index(t) == if e == t.len() {
            None::<int>
        } else {
            Some(e)
        },
    decreases t.len(),
{
    if t.len() > 0 {
        let p = t.drop_last();
        if e == t.len() {
            lemma_exp_index(p, e - 1);
        } else if e == t.len() - 1 {
            lemma_exp_index(p, p.len() as int);
        } else {
            lemma_exp_index(p, e);
        }
    }
}

/// A parsed input value can be assigned to an input of kind `k`: text
/// satisfies the text-like kinds; numbers and booleans take either a native
/// scalar or a string that reads as one.
pub open spec fn input_matches_kind(v: ParsedV, k: InputKind) -> bool {
    match v {
        ParsedV::Content(_) => k == InputKind::String || k == InputKind::Content || k == InputKind::Color
            || k == InputKind::Image,
        ParsedV::Scalar(y) => match k {
            InputKind::Number => y.is_number || (y.text matches Some(t) && is_float_text(trim(t))),
            InputKind::Boolean => y.is_bool || (y.text matches Some(t) && (eq_ignore_ascii_case(
                trim(t),
                "true"@,
            ) || eq_ignore_ascii_case(trim(t), "false"@))),
            _ => y.text is Some,
        },
    }
}

/// Which values fit which kinds: markdown content fits exactly the text-like
/// kinds (string, content, color, image) and never a number or a boolean; a
/// scalar fits a text-like kind exactly when it has a text form; a native
/// number fits a number input and a native boolean a boolean input.
pub proof fn law_input_kinds(s: Seq<char>, y: YamlV, k: InputKind)
    ensures
        input_matches_kind(ParsedV::Content(s), InputKind::Content),
        input_matches_kind(ParsedV::Content(s), InputKind::String),
        input_matches_kind(ParsedV::Content(s), InputKind::Color),
        input_matches_kind(ParsedV::Content(s), InputKind::Image),
        !input_matches_kind(ParsedV::Content(s), InputKind::Number),
        !input_matches_kind(ParsedV::Content(s), InputKind::Boolean),
        (k == InputKind::String || k == InputKind::Content || k == InputKind::Color || k == InputKind::Image)
            ==> (input_matches_kind(ParsedV::Scalar(y), k) <==> y.text is Some),
        y.is_number ==> input_matches_kind(ParsedV::Scalar(y), InputKind::Number),
        y.is_bool ==> input_matches_kind(ParsedV::Scalar(y), InputKind::Boolean),
{
}

/// A markdown content value given for an input declared as content (or as
/// any other text-like kind) draws no violation from the input checks.
pub proof fn law_content_input_accepted(
    name: Seq<char>,
    s: Seq<char>,
    defs: Seq<InputSchema>,
    id: Seq<char>,
    ct: Seq<char>,
)
    requires
        declared_kind_spec(defs, name) matches Some(k) && (k == InputKind::Content || k == InputKind::String || k
            == InputKind::Color || k == InputKind::Image),
    ensures
        input_checks(seq![(name, ParsedV::Content(s))], defs, id, ct).len() == 0,
{
    let ins = seq![(name, ParsedV::Content(s))];
    assert(ins[0] == (name, ParsedV::Content(s)));
    assert(ins.drop_first() =~= Seq::<(Seq<char>, ParsedV)>::empty());
    assert(input_checks(ins.drop_first(), defs, id, ct) =~= Seq::<ViolationV>::empty());
    law_input_kinds(s, YamlV { is_number: false, is_bool: false, text: None, rendered: seq![] }, InputKind::Content);
}

/// How a parsed input value is named in a message.
pub open spec fn describe_input(v: ParsedV) -> Seq<char> {
    match v {
        ParsedV::Content(_) => "markdown content"@,
        ParsedV::Scalar(y) => seq!['\''] + trim(y.rendered) + seq!['\''],
    }
}

/// Whether a parsed input value can be assigned to an input of kind `kind`.
pub fn input_matches_kind_exec(value: &ParsedInput, kind: InputKind) -> (b: bool)
    ensures
        b == input_matches_kind(value@, kind),
{
    match value {
        ParsedInput::Content(_) => match kind {
            InputKind::String | InputKind::Content | InputKind::Color | InputKind::Image => true,
            _ => false,
        },
        ParsedInput::Scalar(y) => match kind {
            InputKind::Number => {
                if y.is_number {
                    true
                } else {
                    match &y.text {
                        Some(t) => {
                            let tc = chars_of(t.as_str());
                            let tt = crate::fatfile::composed::trim_chars(tc.as_slice());
                            is_float_text_exec(tt.as_slice())
                        },
                        None => false,
                    }
                }
            },
            InputKind::Boolean => {
                if y.is_bool {
                    true
                } else {
                    match &y.text {
                        Some(t) => {
                            let tc = chars_of(t.as_str());
                            let tt = crate::fatfile::composed::trim_chars(tc.as_slice());
                            eq_ignore_case_exec(tt.as_slice(), "true") || eq_ignore_case_exec(
                                tt.as_slice(),
                                "false",
                            )
                        },
                        None => false,
                    }
                }
            },
            _ => y.text.is_some(),
        },
    }
}

/// Append how a parsed input value is named in a message.
fn push_described(out: &mut Vec<char>, value: &ParsedInput)
    ensures
        final(out)@ == old(out)@ + describe_input(value@),
{
    match value {
        ParsedInput::Content(_) => {
            push_str(out, "markdown content");
        },
        ParsedInput::Scalar(y) => {
            out.push('\'');
            let r = chars_of(y.rendered.as_str());
            let t = crate::fatfile::composed::trim_chars(r.as_slice());
            push_all(out, t.as_slice());
            out.push('\'');
        },
    }
}

// ---------------------------------------------------------------------------
// Violations of a document tree.
// ---------------------------------------------------------------------------

/// The violations of the inputs of a node against its component's declared
/// inputs: undeclared names and values of the wrong kind.
pub open spec fn input_checks(ins: Seq<(Seq<char>, ParsedV)>, defs: Seq<InputSchema>, id: Seq<char>, ct: Seq<char>) -> Seq<ViolationV>
    decreases ins.len(),
{
    if ins.len() == 0 {
        seq![]
    } else {
        let (name, v) = ins[0];
        (match declared_kind_spec(defs, name) {
            None => seq![
                err_v(
                    "unknown-input"@,
                    id + seq![':'] + name,
                    "input '"@ + name + "' is not declared on component '"@ + ct + "'"@,
                ),
            ],
            Some(k) => if !input_matches_kind(v, k) {
                seq![
                    err_v(
                        "input-type-mismatch"@,
                        id + seq![':'] + name,
                        "input '"@ + name + "' on component '"@ + ct + "' expects "@ + kind_debug_name(k)
                            + " but received "@ + describe_input(v),
                    ),
                ]
            } else {
                seq![]
            },
        }) + input_checks(ins.drop_first(), defs, id, ct)
    }
}

/// The warnings for required inputs a node lacks.
pub open spec fn required_checks(defs: Seq<InputSchema>, ins: Seq<(Seq<char>, ParsedV)>, id: Seq<char>, ct: Seq<char>) -> Seq<ViolationV>
    decreases defs.len(),
{
    if defs.len() == 0 {
        seq![]
    } else {
        let d = defs[0];
        (if d.required && map_get(ins, d.name@) is None {
            seq![
                warn_v(
                    "required-input-missing"@,
                    id + seq![':'] + d.name@,
                    "required input '"@ + d.name@ + "' is missing on component '"@ + ct + "'"@,
                ),
            ]
        } else {
            seq![]
        }) + required_checks(defs.drop_first(), ins, id, ct)
    }
}

/// The violations of a node and its subtree against the catalogue.
pub open spec fn node_violations(n: DocNodeV, cat: Catalogue) -> Seq<ViolationV>
    decreases n, 1int,
{
    match component_index(cat.components@, n.component_type) {
        None => seq![
            err_v(
                "component-not-allowed"@,
                n.id,
                "no component schema found for '"@ + n.component_type + "' in the built-in catalogue"@,
            ),
        ],
        Some(ci) => {
            let schema = cat.components@[ci];
            (if !schema.has_body && n.children.len() > 0 {
                seq![
                    err_v(
                        "leaf-has-children"@,
                        n.id,
                        "component '"@ + n.component_type
                            + "' is declared hasBody: false and cannot carry child nodes"@,
                    ),
                ]
            } else {
                seq![]
            }) + input_checks(n.inputs, schema.inputs@, n.id, n.component_type) + required_checks(
                schema.inputs@,
                n.inputs,
                n.id,
                n.component_type,
            ) + child_violations(n.children, names(schema.allowed_children@), n.component_type, cat)
        },
    }
}

/// The violations of a node's children: each child outside a non-empty
/// allowed list, then the child's own violations.
pub open spec fn child_violations(cs: Seq<DocNodeV>, allowed: Seq<Seq<char>>, parent: Seq<char>, cat: Catalogue) -> Seq<ViolationV>
    decreases cs, 0int,
{
    if cs.len() == 0 {
        seq![]
    } else {
        let c = cs[0];
        (if allowed.len() > 0 && !allowed.contains(c.component_type) {
            seq![
                err_v(
                    "child-not-allowed"@,
                    c.id,
                    "component '"@ + c.component_type + "' is not an allowed child of '"@ + parent
                        + "' (allowed: "@ + join(allowed, ", "@) + ")"@,
                ),
            ]
        } else {
            seq![]
        }) + node_violations(c, cat) + child_violations(cs.drop_first(), allowed, parent, cat)
    }
}

/// The violations of a forest, in order.
pub open spec fn forest_violations(ns: Seq<DocNodeV>, cat: Catalogue) -> Seq<ViolationV>
    decreases ns.len(),
{
    if ns.len() == 0 {
        seq![]
    } else {
        node_violations(ns[0], cat) + forest_violations(ns.drop_first(), cat)
    }
}

/// The message of a missing required input.
pub open spec fn missing_input_message(name: Seq<char>, ct: Seq<char>) -> Seq<char> {
    "required input '"@ + name + "' is missing on component '"@ + ct + "'"@
}

/// A node's required-input checks report exactly its missing required
/// inputs: each report is a warning coded `required-input-missing` at
/// `{id}:{name}` for a declared required input that the node does not have,
/// and every such input is reported.
pub proof fn law_required_checks(defs: Seq<InputSchema>, ins: Seq<(Seq<char>, ParsedV)>, id: Seq<char>, ct: Seq<char>)
    ensures
        forall|v: ViolationV| #[trigger] required_checks(defs, ins, id, ct).contains(v) ==> v.severity == Severity::Warning
            && v.code == "required-input-missing"@ && exists|k: int|
            0 <= k < defs.len() && (#[trigger] defs[k]).required && map_get(ins, defs[k].name@) is None && v.location
                == id + seq![':'] + defs[k].name@ && v.message == missing_input_message(defs[k].name@, ct),
        forall|k: int|
            0 <= k < defs.len() && (#[trigger] defs[k]).required && map_get(ins, defs[k].name@) is None
                ==> required_checks(defs, ins, id, ct).contains(
                warn_v("required-input-missing"@, id + seq![':'] + defs[k].name@, missing_input_message(defs[k].name@, ct)),
            ),
    decreases defs.len(),
{
    if defs.len() > 0 {
        let d = defs[0];
        let rest = defs.drop_first();
        law_required_checks(rest, ins, id, ct);
        let head: Seq<ViolationV> = if d.required && map_get(ins, d.name@) is None {
            seq![warn_v("required-input-missing"@, id + seq![':'] + d.name@, missing_input_message(d.name@, ct))]
        } else {
            seq![]
        };
        let tail = required_checks(rest, ins, id, ct);
        let all = required_checks(defs, ins, id, ct);
        assert(all == head + tail);
        assert forall|v: ViolationV| #[trigger] all.contains(v) implies v.severity == Severity::Warning
            && v.code == "required-input-missing"@ && exists|k: int|
            0 <= k < defs.len() && (#[trigger] defs[k]).required && map_get(ins, defs[k].name@) is None && v.location
                == id + seq![':'] + defs[k].name@ && v.message == missing_input_message(defs[k].name@, ct) by {
            let j = choose|j: int| 0 <= j < all.len() && all[j] == v;
            if j < head.len() {
                assert(defs[0] == d);
            } else {
                assert(tail[j - head.len()] == v);
                assert(tail.contains(v));
                let k = choose|k: int|
                    0 <= k < rest.len() && (#[trigger] rest[k]).required && map_get(ins, rest[k].name@) is None
                        && v.location == id + seq![':'] + rest[k].name@ && v.message == missing_input_message(rest[k].name@, ct);
                assert(defs[k + 1] == rest[k]);
            }
        }
        assert forall|k: int|
            0 <= k < defs.len() && (#[trigger] defs[k]).required && map_get(ins, defs[k].name@) is None implies all.contains(
                warn_v("required-input-missing"@, id + seq![':'] + defs[k].name@, missing_input_message(defs[k].name@, ct)),
            ) by {
            let w = warn_v("required-input-missing"@, id + seq![':'] + defs[k].name@, missing_input_message(defs[k].name@, ct));
            if k == 0 {
                assert(all[0] == w);
            } else {
                assert(rest[k - 1] == defs[k]);
                assert(tail.contains(w));
                let j = choose|j: int| 0 <= j < tail.len() && tail[j] == w;
                assert(all[head.len() + j] == w);
            }
        }
    }
}

/// The error for a child outside a non-empty allowed list.
pub open spec fn child_not_allowed(c: DocNodeV, allowed: Seq<Seq<char>>, parent: Seq<char>) -> ViolationV {
    err_v(
        "child-not-allowed"@,
        c.id,
        "component '"@ + c.component_type + "' is not an allowed child of '"@ + parent + "' (allowed: "@ + join(
            allowed,
            ", "@,
        ) + ")"@,
    )
}

/// A node's children are checked against its allowed list: every child
/// whose type a non-empty list leaves out is reported as not allowed, and
/// when the list is empty or holds every child's type, no child is
/// rejected (only each child's own violations are reported).
pub proof fn law_child_checks(cs: Seq<DocNodeV>, allowed: Seq<Seq<char>>, parent: Seq<char>, cat: Catalogue)
    ensures
        forall|k: int|
            0 <= k < cs.len() && allowed.len() > 0 && !allowed.contains((#[trigger] cs[k]).component_type)
                ==> child_violations(cs, allowed, parent, cat).contains(child_not_allowed(cs[k], allowed, parent)),
        (allowed.len() == 0 || forall|k: int| 0 <= k < cs.len() ==> allowed.contains((#[trigger] cs[k]).component_type))
            ==> child_violations(cs, allowed, parent, cat) == forest_violations(cs, cat),
    decreases cs.len(),
{
    if cs.len() > 0 {
        let c = cs[0];
        let rest = cs.drop_first();
        law_child_checks(rest, allowed, parent, cat);
        let head: Seq<ViolationV> = if allowed.len() > 0 && !allowed.contains(c.component_type) {
            seq![child_not_allowed(c, allowed, parent)]
        } else {
            seq![]
        };
        let tail = child_violations(rest, allowed, parent, cat);
        let all = child_violations(cs, allowed, parent, cat);
        assert(all == head + node_violations(c, cat) + tail);
        assert forall|k: int|
            0 <= k < cs.len() && allowed.len() > 0 && !allowed.contains((#[trigger] cs[k]).component_type) implies all.contains(
                child_not_allowed(cs[k], allowed, parent),
            ) by {
            let w = child_not_allowed(cs[k], allowed, parent);
            if k == 0 {
                assert(all[0] == w);
            } else {
                assert(rest[k - 1] == cs[k]);
                assert(tail.contains(w));
                let j = choose|j: int| 0 <= j < tail.len() && tail[j] == w;
                assert(all[head.len() + node_violations(c, cat).len() + j] == w);
            }
        }
        if allowed.len() == 0 || forall|k: int| 0 <= k < cs.len() ==> allowed.contains((#[trigger] cs[k]).component_type) {
            if allowed.len() > 0 {
                assert(allowed.contains(cs[0].component_type));
                assert forall|k: int| 0 <= k < rest.len() implies allowed.contains((#[trigger] rest[k]).component_type) by {
                    assert(rest[k] == cs[k + 1]);
                }
            }
            assert(head.len() == 0);
            assert(all =~= node_violations(c, cat) + forest_violations(rest, cat));
        }
    }
}

/// Whether every violation coded `required-input-missing` in `vs` is a
/// warning.
pub open spec fn missing_inputs_only_warn(vs: Seq<ViolationV>) -> bool {
    forall|i: int| 0 <= i < vs.len() && (#[trigger] vs[i]).code == "required-input-missing"@ ==> vs[i].severity == Severity::Warning
}

proof fn lemma_only_warn_cat(a: Seq<ViolationV>, b: Seq<ViolationV>)
    requires
        missing_inputs_only_warn(a),
        missing_inputs_only_warn(b),
    ensures
        missing_inputs_only_warn(a + b),
{
    assert forall|i: int| 0 <= i < (a + b).len() && (#[trigger] (a + b)[i]).code == "required-input-missing"@ implies (a + b)[i].severity == Severity::Warning by {
        if i >= a.len() {
            assert((a + b)[i] == b[i - a.len()]);
        }
    }
}

proof fn lemma_codes_differ()
    ensures
        "unknown-input"@ != "required-input-missing"@,
        "input-type-mismatch"@ != "required-input-missing"@,
        "component-not-allowed"@ != "required-input-missing"@,
        "leaf-has-children"@ != "required-input-missing"@,
        "child-not-allowed"@ != "required-input-missing"@,
{
    reveal_strlit("unknown-input");
    reveal_strlit("input-type-mismatch");
    reveal_strlit("component-not-allowed");
    reveal_strlit("leaf-has-children");
    reveal_strlit("child-not-allowed");
    reveal_strlit("required-input-missing");
    assert("unknown-input"@.len() != "required-input-missing"@.len());
    assert("input-type-mismatch"@.len() != "required-input-missing"@.len());
    assert("component-not-allowed"@.len() != "required-input-missing"@.len());
    assert("leaf-has-children"@.len() != "required-input-missing"@.len());
    assert("child-not-allowed"@.len() != "required-input-missing"@.len());
}

proof fn lemma_input_checks_warn(ins: Seq<(Seq<char>, ParsedV)>, defs: Seq<InputSchema>, id: Seq<char>, ct: Seq<char>)
    ensures
        missing_inputs_only_warn(input_checks(ins, defs, id, ct)),
    decreases ins.len(),
{
    if ins.len() > 0 {
        lemma_codes_differ();
        lemma_input_checks_warn(ins.drop_first(), defs, id, ct);
        let all = input_checks(ins, defs, id, ct);
        let tail = input_checks(ins.drop_first(), defs, id, ct);
        let head = all.subrange(0, all.len() - tail.len());
        assert(all =~= head + tail);
        assert(missing_inputs_only_warn(head));
        lemma_only_warn_cat(head, tail);
    }
}

proof fn lemma_required_checks_warn(defs: Seq<InputSchema>, ins: Seq<(Seq<char>, ParsedV)>, id: Seq<char>, ct: Seq<char>)
    ensures
        missing_inputs_only_warn(required_checks(defs, ins, id, ct)),
{
    law_required_checks(defs, ins, id, ct);
    let all = required_checks(defs, ins, id, ct);
    assert forall|i: int| 0 <= i < all.len() && (#[trigger] all[i]).code == "required-input-missing"@ implies all[i].severity == Severity::Warning by {
        assert(all.contains(all[i]));
    }
}

proof fn lemma_children_warn(cs: Seq<DocNodeV>, allowed: Seq<Seq<char>>, parent: Seq<char>, cat: Catalogue)
    ensures
        missing_inputs_only_warn(child_violations(cs, allowed, parent, cat)),
    decreases cs, 0int,
{
    if cs.len() > 0 {
        lemma_codes_differ();
        let c = cs[0];
        let head: Seq<ViolationV> = if allowed.len() > 0 && !allowed.contains(c.component_type) {
            seq![child_not_allowed(c, allowed, parent)]
        } else {
            seq![]
        };
        assert(missing_inputs_only_warn(head));
        law_missing_inputs_only_warn(c, cat);
        assert(decreases_to!(cs => cs.drop_first()));
        lemma_children_warn(cs.drop_first(), allowed, parent, cat);
        lemma_only_warn_cat(head, node_violations(c, cat));
        lemma_only_warn_cat(head + node_violations(c, cat), child_violations(cs.drop_first(), allowed, parent, cat));
        assert(child_violations(cs, allowed, parent, cat) == head + node_violations(c, cat) + child_violations(
            cs.drop_first(),
            allowed,
            parent,
            cat,
        ));
    }
}

/// A missing required input is only ever a warning: no violation that
/// validating a node and its subtree reports under the code
/// `required-input-missing` is an error.
pub proof fn law_missing_inputs_only_warn(n: DocNodeV, cat: Catalogue)
    ensures
        missing_inputs_only_warn(node_violations(n, cat)),
    decreases n, 1int,
{
    lemma_codes_differ();
    match component_index(cat.components@, n.component_type) {
        None => {},
        Some(ci) => {
            let schema = cat.components@[ci];
            let leaf: Seq<ViolationV> = if !schema.has_body && n.children.len() > 0 {
                seq![
                    err_v(
                        "leaf-has-children"@,
                        n.id,
                        "component '"@ + n.component_type
                            + "' is declared hasBody: false and cannot carry child nodes"@,
                    ),
                ]
            } else {
                seq![]
            };
            assert(missing_inputs_only_warn(leaf));
            let a = input_checks(n.inputs, schema.inputs@, n.id, n.component_type);
            let b = required_checks(schema.inputs@, n.inputs, n.id, n.component_type);
            let c = child_violations(n.children, names(schema.allowed_children@), n.component_type, cat);
            lemma_input_checks_warn(n.inputs, schema.inputs@, n.id, n.component_type);
            lemma_required_checks_warn(schema.inputs@, n.inputs, n.id, n.component_type);
            lemma_children_warn(n.children, names(schema.allowed_children@), n.component_type, cat);
            lemma_only_warn_cat(leaf, a);
            lemma_only_warn_cat(leaf + a, b);
            lemma_only_warn_cat(leaf + a + b, c);
        },
    }
}

/// Whether `allowed` holds `name`.
fn contains_name(allowed: &Vec<String>, name: &[char]) -> (b: bool)
    ensures
        b == names(allowed@).contains(name@),
{
    let mut i: usize = 0;
    while i < allowed.len()
        invariant
            i <= allowed@.len(),
            forall|k: int| 0 <= k < i ==> #[trigger] allowed@[k]@ != name@,
        decreases allowed@.len() - i,
    {
        let a = chars_of(allowed[i].as_str());
        if chars_eq(a.as_slice(), name) {
            proof {
                assert(names(allowed@)[i as int] == name@);
            }
            return true;
        }
        i = i + 1;
    }
    proof {
        assert forall|k: int| 0 <= k < names(allowed@).len() implies #[trigger] names(allowed@)[k] != name@ by {
            assert(names(allowed@)[k] == allowed@[k]@);
        }
    }
    false
}

/// The names of `allowed`, joined with `", "`.
fn joined_names(allowed: &Vec<String>) -> (r: Vec<char>)
    ensures
        r@ == join(names(allowed@), ", "@),
{
    let mut parts: Vec<Vec<char>> = Vec::new();
    let mut i: usize = 0;
    while i < allowed.len()
        invariant
            i <= allowed@.len(),
            views(parts@) == names(allowed@).take(i as int),
        decreases allowed@.len() - i,
    {
        let ghost before = views(parts@);
        parts.push(chars_of(allowed[i].as_str()));
        proof {
            assert(views(parts@) =~= before.push(allowed@[i as int]@));
            assert(names(allowed@).take(i + 1) =~= names(allowed@).take(i as int).push(allowed@[i as int]@));
        }
        i = i + 1;
    }
    proof {
        assert(names(allowed@).take(allowed@.len() as int) =~= names(allowed@));
    }
    let sep = chars_of(", ");
    crate::text::join_exec(parts.as_slice(), sep.as_slice())
}

fn input_checks_exec(ins: &Vec<(String, ParsedInput)>, defs: &Vec<InputSchema>, id: &str, ct: &str, out: &mut Vec<Violation>)
    ensures
        violation_views(final(out)@) == violation_views(old(out)@) + input_checks(entries(ins@), defs@, id@, ct@),
{
    let ghost e = entries(ins@);
    proof {
        assert(e.subrange(0, e.len() as int) =~= e);
    }
    let mut i: usize = 0;
    while i < ins.len()
        invariant
            i <= ins@.len(),
            e == entries(ins@),
            violation_views(out@) + input_checks(e.subrange(i as int, e.len() as int), defs@, id@, ct@)
                == violation_views(old(out)@) + input_checks(e, defs@, id@, ct@),
        decreases ins@.len() - i,
    {
        let ghost rest = e.subrange(i as int, e.len() as int);
        let ghost before = violation_views(out@);
        let name = ins[i].0.as_str();
        let value = &ins[i].1;
        proof {
            assert(rest[0] == (ins@[i as int].0@, ins@[i as int].1@));
            assert(rest.drop_first() =~= e.subrange(i + 1, e.len() as int));
        }
        let mut loc = chars_of(id);
        loc.push(':');
        push_str(&mut loc, name);
        match declared_kind(defs.as_slice(), name) {
            None => {
                let mut m = chars_of("input '");
                push_str(&mut m, name);
                push_str(&mut m, "' is not declared on component '");
                push_str(&mut m, ct);
                push_str(&mut m, "'");
                let v = Violation::error("unknown-input", string_of(loc.as_slice()).as_str(), string_of(m.as_slice()).as_str());
                out.push(v);
                proof {
                    assert(violation_views(out@) =~= before + seq![v@]);
                    assert(loc@ =~= id@ + seq![':'] + name@);
                }
            },
            Some(k) => {
                if !input_matches_kind_exec(value, k) {
                    let mut m = chars_of("input '");
                    push_str(&mut m, name);
                    push_str(&mut m, "' on component '");
                    push_str(&mut m, ct);
                    push_str(&mut m, "' expects ");
                    push_str(&mut m, k.debug_name());
                    push_str(&mut m, " but received ");
                    push_described(&mut m, value);
                    let v = Violation::error("input-type-mismatch", string_of(loc.as_slice()).as_str(), string_of(m.as_slice()).as_str());
                    out.push(v);
                    proof {
                        assert(violation_views(out@) =~= before + seq![v@]);
                        assert(loc@ =~= id@ + seq![':'] + name@);
                    }
                } else {
                    proof {
                        assert(violation_views(out@) =~= before);
                    }
                }
            },
        }
        proof {
            assert(violation_views(out@) + input_checks(rest.drop_first(), defs@, id@, ct@) =~= before
                + input_checks(rest, defs@, id@, ct@));
        }
        i = i + 1;
    }
    proof {
        assert(e.subrange(e.len() as int, e.len() as int) =~= Seq::<(Seq<char>, ParsedV)>::empty());
        assert(violation_views(out@) + Seq::<ViolationV>::empty() =~= violation_views(out@));
    }
}

fn required_checks_exec(defs: &Vec<InputSchema>, ins: &Vec<(String, ParsedInput)>, id: &str, ct: &str, out: &mut Vec<Violation>)
    ensures
        violation_views(final(out)@) == violation_views(old(out)@) + required_checks(defs@, entries(ins@), id@, ct@),
{
    proof {
        assert(defs@.subrange(0, defs@.len() as int) =~= defs@);
    }
    let mut i: usize = 0;
    while i < defs.len()
        invariant
            i <= defs@.len(),
            violation_views(out@) + required_checks(defs@.subrange(i as int, defs@.len() as int), entries(ins@), id@, ct@)
                == violation_views(old(out)@) + required_checks(defs@, entries(ins@), id@, ct@),
        decreases defs@.len() - i,
    {
        let ghost rest = defs@.subrange(i as int, defs@.len() as int);
        let ghost before = violation_views(out@);
        let d = &defs[i];
        proof {
            assert(rest[0] == *d);
            assert(rest.drop_first() =~= defs@.subrange(i + 1, defs@.len() as int));
        }
        if d.required {
            let dn = chars_of(d.name.as_str());
            if crate::fatfile::composed::find_key(ins, dn.as_slice()).is_none() {
                let mut loc = chars_of(id);
                loc.push(':');
                push_str(&mut loc, d.name.as_str());
                let mut m = chars_of("required input '");
                push_str(&mut m, d.name.as_str());
                push_str(&mut m, "' is missing on component '");
                push_str(&mut m, ct);
                push_str(&mut m, "'");
                let v = Violation::warning("required-input-missing", string_of(loc.as_slice()).as_str(), string_of(m.as_slice()).as_str());
                out.push(v);
                proof {
                    assert(violation_views(out@) =~= before + seq![v@]);
                    assert(loc@ =~= id@ + seq![':'] + d.name@);
                }
            }
        }
        proof {
            assert(violation_views(out@) + required_checks(rest.drop_first(), entries(ins@), id@, ct@) =~= before
                + required_checks(rest, entries(ins@), id@, ct@));
        }
        i = i + 1;
    }
    proof {
        assert(defs@.subrange(defs@.len() as int, defs@.len() as int) =~= Seq::<InputSchema>::empty());
        assert(violation_views(out@) + Seq::<ViolationV>::empty() =~= violation_views(out@));
    }
}

/// Validate one node and its subtree against the component schemas,
/// appending the violations found.
pub fn validate_node(node: &DocNode, catalogue: &Catalogue, violations: &mut Vec<Violation>)
    ensures
        violation_views(final(violations)@) == violation_views(old(violations)@) + node_violations(
            doc_view(*node),
            *catalogue,
        ),
    decreases *node, 1int,
{
    let ghost n = doc_view(*node);
    let ghost before = violation_views(violations@);
    let schema = match catalogue.component(node.component_type.as_str()) {
        None => {
            let mut m = chars_of("no component schema found for '");
            push_str(&mut m, node.component_type.as_str());
            push_str(&mut m, "' in the built-in catalogue");
            let v = Violation::error("component-not-allowed", node.id.as_str(), string_of(m.as_slice()).as_str());
            violations.push(v);
            proof {
                assert(violation_views(violations@) =~= before + seq![v@]);
            }
            return;
        },
        Some(s) => s,
    };
    if !schema.has_body && node.children.len() > 0 {
        let mut m = chars_of("component '");
        push_str(&mut m, node.component_type.as_str());
        push_str(&mut m, "' is declared hasBody: false and cannot carry child nodes");
        let v = Violation::error("leaf-has-children", node.id.as_str(), string_of(m.as_slice()).as_str());
        violations.push(v);
        proof {
            assert(violation_views(violations@) =~= before + seq![v@]);
        }
    } else {
        proof {
            assert(violation_views(violations@) =~= before + Seq::<ViolationV>::empty());
        }
    }
    let ghost after_leaf = violation_views(violations@);
    input_checks_exec(&node.inputs, &schema.inputs, node.id.as_str(), node.component_type.as_str(), violations);
    required_checks_exec(&schema.inputs, &node.inputs, node.id.as_str(), node.component_type.as_str(), violations);
    let ghost after_inputs = violation_views(violations@);
    let allowed_text = joined_names(&schema.allowed_children);
    let ghost cs = doc_views(node.children@);
    let ghost allowed = names(schema.allowed_children@);
    proof {
        lemma_doc_views(node.children@);
        assert(cs.subrange(0, cs.len() as int) =~= cs);
    }
    let mut i: usize = 0;
    while i < node.children.len()
        invariant
            i <= node.children@.len(),
            cs == doc_views(node.children@),
            cs.len() == node.children@.len(),
            allowed == names(schema.allowed_children@),
            allowed_text@ == join(allowed, ", "@),
            forall|k: int| 0 <= k < node.children@.len() ==> #[trigger] cs[k] == doc_view(node.children@[k]),
            violation_views(violations@) + child_violations(cs.subrange(i as int, cs.len() as int), allowed, node.component_type@, *catalogue)
                == after_inputs + child_violations(cs, allowed, node.component_type@, *catalogue),
        decreases node.children@.len() - i,
    {
        let ghost rest = cs.subrange(i as int, cs.len() as int);
        let ghost b = violation_views(violations@);
        let child = &node.children[i];
        proof {
            assert(rest[0] == doc_view(*child));
            assert(rest.drop_first() =~= cs.subrange(i + 1, cs.len() as int));
            assert(decreases_to!(*node => node.children));
            assert(decreases_to!(node.children@ => node.children@[i as int]));
        }
        let cct = chars_of(child.component_type.as_str());
        if schema.allowed_children.len() > 0 && !contains_name(&schema.allowed_children, cct.as_slice()) {
            let mut m = chars_of("component '");
            push_str(&mut m, child.component_type.as_str());
            push_str(&mut m, "' is not an allowed child of '");
            push_str(&mut m, node.component_type.as_str());
            push_str(&mut m, "' (allowed: ");
            push_all(&mut m, allowed_text.as_slice());
            push_str(&mut m, ")");
            let v = Violation::error("child-not-allowed", child.id.as_str(), string_of(m.as_slice()).as_str());
            violations.push(v);
            proof {
                assert(violation_views(violations@) =~= b + seq![v@]);
            }
        }
        let ghost b2 = violation_views(violations@);
        validate_node(child, catalogue, violations);
        proof {
            assert(violation_views(violations@) + child_violations(rest.drop_first(), allowed, node.component_type@, *catalogue)
                =~= b + child_violations(rest, allowed, node.component_type@, *catalogue));
        }
        i = i + 1;
    }
    proof {
        assert(cs.subrange(cs.len() as int, cs.len() as int) =~= Seq::<DocNodeV>::empty());
        assert(violation_views(violations@) =~= before + node_violations(n, *catalogue));
    }
}

/// The violations of the global inputs against a template's document
/// inputs.
pub open spec fn global_checks(g: Seq<(Seq<char>, ParsedV)>, defs: Seq<InputSchema>, loc: Seq<char>, tid: Seq<char>) -> Seq<ViolationV>
    decreases g.len(),
{
    if g.len() == 0 {
        seq![]
    } else {
        let (name, v) = g[0];
        (match declared_kind_spec(defs, name) {
            None => seq![
                err_v(
                    "unknown-input"@,
                    loc + seq![':'] + name,
                    "global input '"@ + name + "' is not defined on template '"@ + tid + "'"@,
                ),
            ],
            Some(k) => if !input_matches_kind(v, k) {
                seq![
                    err_v(
                        "input-type-mismatch"@,
                        loc + seq![':'] + name,
                        "global input '"@ + name + "' expects "@ + kind_debug_name(k) + " but received "@
                            + describe_input(v),
                    ),
                ]
            } else {
                seq![]
            },
        }) + global_checks(g.drop_first(), defs, loc, tid)
    }
}

/// The top-level nodes whose component a non-empty allowed list lacks.
pub open spec fn top_allowed(ns: Seq<DocNodeV>, allowed: Seq<Seq<char>>) -> Seq<ViolationV>
    decreases ns.len(),
{
    if ns.len() == 0 {
        seq![]
    } else {
        (if allowed.len() > 0 && !allowed.contains(ns[0].component_type) {
            seq![
                err_v(
                    "component-not-allowed"@,
                    ns[0].id,
                    "component '"@ + ns[0].component_type
                        + "' is not in the template's allowed components ("@ + join(allowed, ", "@)
                        + ")"@,
                ),
            ]
        } else {
            seq![]
        }) + top_allowed(ns.drop_first(), allowed)
    }
}

/// The violations of a parsed STATE section against the catalogue: the
/// template and its inputs and allowed components, then every node.
pub open spec fn state_violations(tid: Seq<char>, g: Seq<(Seq<char>, ParsedV)>, ns: Seq<DocNodeV>, cat: Catalogue, loc: Seq<char>) -> Seq<ViolationV> {
    (match template_index(cat.templates@, tid) {
        None => seq![
            err_v(
                "template-not-found"@,
                loc,
                "template '"@ + tid + "' is not in the built-in catalogue"@,
            ),
        ],
        Some(ti) => global_checks(g, cat.templates@[ti].document_inputs@, loc, tid) + top_allowed(
            ns,
            names(cat.templates@[ti].allowed_components@),
        ),
    }) + forest_violations(ns, cat)
}

/// Validate a parsed STATE section against the catalogue's template and
/// component schemas: unknown and mistyped inputs, components the template
/// or the parent does not allow, leaves with children (errors), and missing
/// required inputs (warnings). `loc` names the document in locations.
#[verifier::spinoff_prover]
pub fn validate_state_against_catalogue(state: &DocState, catalogue: &Catalogue, loc: &str) -> (r: Vec<Violation>)
    ensures
        violation_views(r@) == state_violations(
            state.template_id@,
            entries(state.global_inputs@),
            doc_views(state.nodes@),
            *catalogue,
            loc@,
        ),
{
    let mut out: Vec<Violation> = Vec::new();
    let ghost g = entries(state.global_inputs@);
    let ghost ns = doc_views(state.nodes@);
    let tid = state.template_id.as_str();
    proof {
        lemma_doc_views(state.nodes@);
        assert(violation_views(out@) =~= Seq::<ViolationV>::empty());
    }
    match catalogue.template(tid) {
        None => {
            let mut m = chars_of("template '");
            push_str(&mut m, tid);
            push_str(&mut m, "' is not in the built-in catalogue");
            let v = Violation::error("template-not-found", loc, string_of(m.as_slice()).as_str());
            out.push(v);
            proof {
                assert(violation_views(out@) =~= seq![v@]);
            }
        },
        Some(t) => {
            proof {
                assert(g.subrange(0, g.len() as int) =~= g);
            }
            let mut i: usize = 0;
            while i < state.global_inputs.len()
                invariant
                    i <= state.global_inputs@.len(),
                    g == entries(state.global_inputs@),
                    violation_views(out@) + global_checks(g.subrange(i as int, g.len() as int), t.document_inputs@, loc@, tid@)
                        == global_checks(g, t.document_inputs@, loc@, tid@),
                decreases state.global_inputs@.len() - i,
            {
                let ghost rest = g.subrange(i as int, g.len() as int);
                let ghost before = violation_views(out@);
                let name = state.global_inputs[i].0.as_str();
                let value = &state.global_inputs[i].1;
                proof {
                    assert(rest[0] == (state.global_inputs@[i as int].0@, state.global_inputs@[i as int].1@));
                    assert(rest.drop_first() =~= g.subrange(i + 1, g.len() as int));
                }
                let mut l = chars_of(loc);
                l.push(':');
                push_str(&mut l, name);
                match declared_kind(t.document_inputs.as_slice(), name) {
                    None => {
                        let mut m = chars_of("global input '");
                        push_str(&mut m, name);
                        push_str(&mut m, "' is not defined on template '");
                        push_str(&mut m, tid);
                        push_str(&mut m, "'");
                        let v = Violation::error("unknown-input", string_of(l.as_slice()).as_str(), string_of(m.as_slice()).as_str());
                        out.push(v);
                        proof {
                            assert(violation_views(out@) =~= before + seq![v@]);
                            assert(l@ =~= loc@ + seq![':'] + name@);
                        }
                    },
                    Some(k) => {
                        if !input_matches_kind_exec(value, k) {
                            let mut m = chars_of("global input '");
                            push_str(&mut m, name);
                            push_str(&mut m, "' expects ");
                            push_str(&mut m, k.debug_name());
                            push_str(&mut m, " but received ");
                            push_described(&mut m, value);
                            let v = Violation::error("input-type-mismatch", string_of(l.as_slice()).as_str(), string_of(m.as_slice()).as_str());
                            out.push(v);
                            proof {
                                assert(violation_views(out@) =~= before + seq![v@]);
                                assert(l@ =~= loc@ + seq![':'] + name@);
                            }
                        } else {
                            proof {
                                assert(violation_views(out@) =~= before);
                            }
                        }
                    },
                }
                proof {
                    assert(violation_views(out@) + global_checks(rest.drop_first(), t.document_inputs@, loc@, tid@)
                        =~= before + global_checks(rest, t.document_inputs@, loc@, tid@));
                }
                i = i + 1;
            }
            proof {
                assert(g.subrange(g.len() as int, g.len() as int) =~= Seq::<(Seq<char>, ParsedV)>::empty());
                assert(violation_views(out@) + Seq::<ViolationV>::empty() =~= violation_views(out@));
            }
            let ghost after_globals = violation_views(out@);
            let allowed_text = joined_names(&t.allowed_components);
            let ghost allowed = names(t.allowed_components@);
            proof {
                assert(ns.subrange(0, ns.len() as int) =~= ns);
            }
            let mut j: usize = 0;
            while j < state.nodes.len()
                invariant
                    j <= state.nodes@.len(),
                    ns == doc_views(state.nodes@),
                    ns.len() == state.nodes@.len(),
                    allowed == names(t.allowed_components@),
                    allowed_text@ == join(allowed, ", "@),
                    forall|k: int| 0 <= k < state.nodes@.len() ==> #[trigger] ns[k] == doc_view(state.nodes@[k]),
                    violation_views(out@) + top_allowed(ns.subrange(j as int, ns.len() as int), allowed)
                        == after_globals + top_allowed(ns, allowed),
                decreases state.nodes@.len() - j,
            {
                let ghost rest = ns.subrange(j as int, ns.len() as int);
                let ghost before = violation_views(out@);
                let node = &state.nodes[j];
                proof {
                    assert(rest[0] == doc_view(*node));
                    assert(rest.drop_first() =~= ns.subrange(j + 1, ns.len() as int));
                }
                let ct = chars_of(node.component_type.as_str());
                if t.allowed_components.len() > 0 && !contains_name(&t.allowed_components, ct.as_slice()) {
                    let mut m = chars_of("component '");
                    push_str(&mut m, node.component_type.as_str());
                    push_str(&mut m, "' is not in the template's allowed components (");
                    push_all(&mut m, allowed_text.as_slice());
                    push_str(&mut m, ")");
                    let v = Violation::error("component-not-allowed", node.id.as_str(), string_of(m.as_slice()).as_str());
                    out.push(v);
                    proof {
                        assert(violation_views(out@) =~= before + seq![v@]);
                    }
                }
                proof {
                    assert(violation_views(out@) + top_allowed(rest.drop_first(), allowed) =~= before + top_allowed(rest, allowed));
                }
                j = j + 1;
            }
            proof {
                assert(ns.subrange(ns.len() as int, ns.len() as int) =~= Seq::<DocNodeV>::empty());
                assert(violation_views(out@) + Seq::<ViolationV>::empty() =~= violation_views(out@));
            }
        },
    }
    let ghost head = violation_views(out@);
    proof {
        assert(ns.subrange(0, ns.len() as int) =~= ns);
    }
    let mut k: usize = 0;
    while k < state.nodes.len()
        invariant
            k <= state.nodes@.len(),
            ns == doc_views(state.nodes@),
            ns.len() == state.nodes@.len(),
            forall|q: int| 0 <= q < state.nodes@.len() ==> #[trigger] ns[q] == doc_view(state.nodes@[q]),
            violation_views(out@) + forest_violations(ns.subrange(k as int, ns.len() as int), *catalogue)
                == head + forest_violations(ns, *catalogue),
        decreases state.nodes@.len() - k,
    {
        let ghost rest = ns.subrange(k as int, ns.len() as int);
        let ghost before = violation_views(out@);
        proof {
            assert(rest[0] == doc_view(state.nodes@[k as int]));
            assert(rest.drop_first() =~= ns.subrange(k + 1, ns.len() as int));
        }
        validate_node(&state.nodes[k], catalogue, &mut out);
        proof {
            assert(violation_views(out@) + forest_violations(rest.drop_first(), *catalogue) =~= before
                + forest_violations(rest, *catalogue));
        }
        k = k + 1;
    }
    proof {
        assert(ns.subrange(ns.len() as int, ns.len() as int) =~= Seq::<DocNodeV>::empty());
        assert(violation_views(out@) =~= head + forest_violations(ns, *catalogue));
    }
    out
}

/// The number of nodes of a forest, children included.
pub open spec fn node_count(ns: Seq<DocNodeV>) -> nat
    decreases ns,
{
    if ns.len() == 0 {
        0
    } else {
        1 + node_count(ns[0].children) + node_count(ns.drop_first())
    }
}

/// Count every node in the tree, including nested children; the count
/// saturates at the largest `usize`.
pub fn count_nodes(nodes: &Vec<DocNode>) -> (n: usize)
    ensures
        n == if node_count(doc_views(nodes@)) <= usize::MAX {
            node_count(doc_views(nodes@))
        } else {
            usize::MAX as nat
        },
    decreases nodes@,
{
    let ghost ns = doc_views(nodes@);
    proof {
        lemma_doc_views(nodes@);
        assert(ns.subrange(0, ns.len() as int) =~= ns);
    }
    let mut total: usize = 0;
    let mut i: usize = 0;
    while i < nodes.len()
        invariant
            i <= nodes@.len(),
            ns == doc_views(nodes@),
            ns.len() == nodes@.len(),
            forall|q: int| 0 <= q < nodes@.len() ==> #[trigger] ns[q] == doc_view(nodes@[q]),
            node_count(ns) <= usize::MAX ==> total + node_count(ns.subrange(i as int, ns.len() as int)) == node_count(ns),
            node_count(ns) > usize::MAX ==> total == usize::MAX || total + node_count(ns.subrange(i as int, ns.len() as int)) >= node_count(ns),
        decreases nodes@.len() - i,
    {
        let ghost rest = ns.subrange(i as int, ns.len() as int);
        proof {
            assert(rest[0] == doc_view(nodes@[i as int]));
            assert(rest.drop_first() =~= ns.subrange(i + 1, ns.len() as int));
            assert(decreases_to!(nodes@ => nodes@[i as int]));
            assert(decreases_to!(nodes@[i as int] => nodes@[i as int].children));
        }
        let sub = count_nodes(&nodes[i].children);
        total = total.saturating_add(1).saturating_add(sub);
        i = i + 1;
    }
    proof {
        assert(ns.subrange(ns.len() as int, ns.len() as int) =~= Seq::<DocNodeV>::empty());
    }
    total
}

/// The violations and summary validation gives for a composed document:
/// an unreadable prelude, a malformed IMAGES section and an unparseable
/// STATE section are reported; a parsed STATE section is checked against
/// the catalogue and summarised.
pub open spec fn composed_violations(src: Seq<char>, path: Seq<char>, prelude: Result<Prelude, Error>, cat: Catalogue) -> Seq<ViolationV> {
    (match prelude {
        Err(e) => seq![err_v("invalid-state-prelude"@, path, error_text(e))],
        Ok(_) => seq![],
    }) + (match image_blobs_spec(src) {
        Err(m) => seq![err_v("invalid-images-section"@, path + ":images"@, "fat-file error: "@ + m)],
        Ok(_) => seq![],
    }) + (match prelude {
        Err(e) => seq![err_v("invalid-state-section"@, path, error_text(e))],
        Ok(p) => match parse_state_spec(src, p) {
            Err(m) => seq![err_v("invalid-state-section"@, path, "fat-file error: "@ + m)],
            Ok(st) => state_violations(st.0, st.3, st.4, cat, path),
        },
    })
}

/// Validating a composed document reports, in this order, an unreadable
/// prelude, a malformed IMAGES section and an unreadable STATE section; any
/// of them makes the document invalid, and when all three read, what is
/// reported is exactly what checking the parsed state against the catalogue
/// reports.
pub proof fn law_composed_report(src: Seq<char>, path: Seq<char>, prelude: Result<Prelude, Error>, cat: Catalogue)
    ensures
        prelude is Err ==> composed_violations(src, path, prelude, cat)[0].code == "invalid-state-prelude"@,
        prelude is Ok && image_blobs_spec(src) is Err ==> composed_violations(src, path, prelude, cat)[0].code
            == "invalid-images-section"@,
        (prelude is Err || image_blobs_spec(src) is Err || (prelude is Ok && parse_state_spec(src, prelude->Ok_0) is Err))
            ==> has_error(composed_violations(src, path, prelude, cat)),
        match prelude {
            Ok(p) => match parse_state_spec(src, p) {
                Ok(st) => image_blobs_spec(src) is Ok ==> composed_violations(src, path, prelude, cat)
                    == state_violations(st.0, st.3, st.4, cat, path),
                Err(_) => true,
            },
            Err(_) => true,
        },
{
    let all = composed_violations(src, path, prelude, cat);
    let a: Seq<ViolationV> = match prelude {
        Err(e) => seq![err_v("invalid-state-prelude"@, path, error_text(e))],
        Ok(_) => seq![],
    };
    let b: Seq<ViolationV> = match image_blobs_spec(src) {
        Err(m) => seq![err_v("invalid-images-section"@, path + ":images"@, "fat-file error: "@ + m)],
        Ok(_) => seq![],
    };
    let c: Seq<ViolationV> = match prelude {
        Err(e) => seq![err_v("invalid-state-section"@, path, error_text(e))],
        Ok(p) => match parse_state_spec(src, p) {
            Err(m) => seq![err_v("invalid-state-section"@, path, "fat-file error: "@ + m)],
            Ok(st) => state_violations(st.0, st.3, st.4, cat, path),
        },
    };
    assert(all == a + b + c);
    if prelude is Err {
        assert(all[0] == a[0]);
        assert(all[0].severity == Severity::Error);
    } else if image_blobs_spec(src) is Err {
        assert(a.len() == 0);
        assert(all[0] == b[0]);
        assert(all[0].severity == Severity::Error);
    } else if parse_state_spec(src, prelude->Ok_0) is Err {
        assert(a.len() == 0 && b.len() == 0);
        assert(all[0] == c[0]);
        assert(all[0].severity == Severity::Error);
    } else {
        assert(a.len() == 0 && b.len() == 0);
        assert(all =~= c);
    }
}

/// The summary of a parsed STATE section, as a mathematical object.
pub open spec fn summary_of(st: (Seq<char>, Seq<char>, Seq<char>, Seq<(Seq<char>, ParsedV)>, Seq<DocNodeV>)) -> (Seq<char>, Seq<char>, Seq<char>, nat, nat) {
    (
        st.1,
        st.0,
        st.2,
        if node_count(st.4) <= usize::MAX {
            node_count(st.4)
        } else {
            usize::MAX as nat
        },
        st.3.len(),
    )
}

/// A summary as (template version, template id, theme id, node count,
/// global input count).
pub open spec fn summary_view(s: ValidationSummary) -> (Seq<char>, Seq<char>, Seq<char>, nat, nat) {
    (s.template_version@, s.template_id@, s.theme_id@, s.node_count as nat, s.global_input_count as nat)
}

fn fat_text(e: &Error) -> (s: String)
    ensures
        s@ == error_text(*e),
{
    e.to_string()
}

/// Validate a composed document: the integrity of its STATE prelude
/// (`prelude`, as the program read it) and IMAGES section, then the schema
/// conformance of its node tree and inputs against `catalogue`. `path`
/// names the document in locations.
pub fn validate_composed(src: &str, path: &str, prelude: Result<Prelude, Error>, catalogue: &Catalogue) -> (r: ValidationResult)
    ensures
        violation_views(r.violations@) == composed_violations(src@, path@, prelude, *catalogue),
        match prelude {
            Err(_) => r.summary is None,
            Ok(p) => match parse_state_spec(src@, p) {
                Err(_) => r.summary is None,
                Ok(st) => r.summary matches Some(s) && summary_view(s) == summary_of(st),
            },
        },
{
    let mut violations: Vec<Violation> = Vec::new();
    proof {
        assert(violation_views(violations@) =~= Seq::<ViolationV>::empty());
    }
    match &prelude {
        Err(e) => {
            let v = Violation::error("invalid-state-prelude", path, fat_text(e).as_str());
            violations.push(v);
            proof {
                assert(violation_views(violations@) =~= seq![v@]);
            }
        },
        Ok(_) => {},
    }
    let ghost a = violation_views(violations@);
    match extract_image_blobs(src) {
        Err(e) => {
            let mut l = chars_of(path);
            push_str(&mut l, ":images");
            let v = Violation::error("invalid-images-section", string_of(l.as_slice()).as_str(), fat_text(&e).as_str());
            violations.push(v);
            proof {
                assert(violation_views(violations@) =~= a + seq![v@]);
            }
        },
        Ok(_) => {
            proof {
                assert(violation_views(violations@) =~= a + Seq::<ViolationV>::empty());
            }
        },
    }
    let ghost b = violation_views(violations@);
    let summary = match &prelude {
        Err(e) => {
            let v = Violation::error("invalid-state-section", path, fat_text(e).as_str());
            violations.push(v);
            proof {
                assert(violation_views(violations@) =~= b + seq![v@]);
            }
            None
        },
        Ok(p) => match parse_state_with(src, p) {
            Err(e) => {
                let v = Violation::error("invalid-state-section", path, fat_text(&e).as_str());
                violations.push(v);
                proof {
                    assert(violation_views(violations@) =~= b + seq![v@]);
                }
                None
            },
            Ok(state) => {
                let found = validate_state_against_catalogue(&state, catalogue, path);
                let mut found = found;
                let ghost fv = violation_views(found@);
                let ghost fseq = found@;
                let ghost before = violations@;
                violations.append(&mut found);
                proof {
                    assert(violations@ =~= before + fseq);
                    assert(violation_views(violations@) =~= b + fv);
                }
                let node_count = count_nodes(&state.nodes);
                Some(ValidationSummary {
                    node_count,
                    global_input_count: state.global_inputs.len(),
                    template_id: state.template_id,
                    template_version: state.template_version,
                    theme_id: state.theme_id,
                })
            },
        },
    };
    ValidationResult { violations, summary }
}

/// The duplicate-name violations of the entry names from `i` on: each name
/// that an earlier entry already has.
pub open spec fn duplicate_checks(names: Seq<Seq<char>>, i: int, path: Seq<char>, desc: Seq<char>) -> Seq<ViolationV>
    decreases names.len() - i,
{
    if i < 0 || i >= names.len() {
        seq![]
    } else {
        (if names.take(i).contains(names[i]) {
            seq![
                err_v(
                    "duplicate-entry-name"@,
                    path + seq![':'] + names[i],
                    "duplicate entry name '"@ + names[i] + "': "@ + desc,
                ),
            ]
        } else {
            seq![]
        }) + duplicate_checks(names, i + 1, path, desc)
    }
}

#[verifier::spinoff_prover]
proof fn lemma_duplicate_checks(names: Seq<Seq<char>>, i: int, path: Seq<char>, desc: Seq<char>)
    requires
        0 <= i,
    ensures
        forall|q: int|
            i <= q < names.len() && (exists|j: int| 0 <= j < q && names[j] == #[trigger] names[q])
                ==> duplicate_checks(names, i, path, desc).contains(
                err_v(
                    "duplicate-entry-name"@,
                    path + seq![':'] + names[q],
                    "duplicate entry name '"@ + names[q] + "': "@ + desc,
                ),
            ),
        forall|k: int|
            0 <= k < duplicate_checks(names, i, path, desc).len() ==> exists|q: int, j: int|
                i <= q < names.len() && 0 <= j < q && names[j] == names[q] && #[trigger] duplicate_checks(
                    names,
                    i,
                    path,
                    desc,
                )[k] == err_v(
                    "duplicate-entry-name"@,
                    path + seq![':'] + names[q],
                    "duplicate entry name '"@ + names[q] + "': "@ + desc,
                ),
    decreases names.len() - i,
{
    if i < names.len() {
        lemma_duplicate_checks(names, i + 1, path, desc);
        let v = err_v("duplicate-entry-name"@, path + seq![':'] + names[i], "duplicate entry name '"@ + names[i] + "': "@ + desc);
        let head: Seq<ViolationV> = if names.take(i).contains(names[i]) {
            seq![v]
        } else {
            seq![]
        };
        let tail = duplicate_checks(names, i + 1, path, desc);
        let all = duplicate_checks(names, i, path, desc);
        assert(all == head + tail);
        assert forall|q: int|
            i <= q < names.len() && (exists|j: int| 0 <= j < q && names[j] == #[trigger] names[q]) implies all.contains(
            err_v(
                "duplicate-entry-name"@,
                path + seq![':'] + names[q],
                "duplicate entry name '"@ + names[q] + "': "@ + desc,
            ),
        ) by {
            if q == i {
                let j = choose|j: int| 0 <= j < q && names[j] == names[q];
                assert(names.take(i)[j] == names[i]);
                assert(all[0] == v);
            } else {
                let w = err_v(
                    "duplicate-entry-name"@,
                    path + seq![':'] + names[q],
                    "duplicate entry name '"@ + names[q] + "': "@ + desc,
                );
                assert(tail.contains(w));
                let t = choose|t: int| 0 <= t < tail.len() && tail[t] == w;
                assert(all[head.len() + t] == w);
            }
        }
        assert forall|k: int| 0 <= k < all.len() implies exists|q: int, j: int|
            i <= q < names.len() && 0 <= j < q && names[j] == names[q] && #[trigger] all[k] == err_v(
                "duplicate-entry-name"@,
                path + seq![':'] + names[q],
                "duplicate entry name '"@ + names[q] + "': "@ + desc,
            ) by {
            if k < head.len() {
                let t = choose|t: int| 0 <= t < names.take(i).len() && names.take(i)[t] == names[i];
                assert(names[t] == names[i]);
                assert(all[k] == v);
            } else {
                assert(all[k] == tail[k - head.len()]);
            }
        }
    } else {
        assert(duplicate_checks(names, i, path, desc) =~= Seq::<ViolationV>::empty());
    }
}

/// The error reported for a name an earlier entry already has.
pub open spec fn duplicate_v(names: Seq<Seq<char>>, q: int, path: Seq<char>, desc: Seq<char>) -> ViolationV {
    err_v("duplicate-entry-name"@, path + seq![':'] + names[q], "duplicate entry name '"@ + names[q] + "': "@ + desc)
}

proof fn lemma_dup_complete(names: Seq<Seq<char>>, path: Seq<char>, desc: Seq<char>, q: int, j: int)
    requires
        0 <= j < q < names.len(),
        names[j] == names[q],
    ensures
        duplicate_checks(names, 0, path, desc).contains(duplicate_v(names, q, path, desc)),
{
    lemma_duplicate_checks(names, 0, path, desc);
    assert(exists|j2: int| 0 <= j2 < q && names[j2] == #[trigger] names[q]);
}

#[verifier::spinoff_prover]
proof fn lemma_dup_sound(names: Seq<Seq<char>>, path: Seq<char>, desc: Seq<char>, k: int)
    requires
        0 <= k < duplicate_checks(names, 0, path, desc).len(),
    ensures
        exists|q: int, j: int|
            0 <= j < q < names.len() && names[j] == names[q] && duplicate_checks(names, 0, path, desc)[k]
                == duplicate_v(names, q, path, desc),
{
    lemma_duplicate_checks(names, 0, path, desc);
    let all = duplicate_checks(names, 0, path, desc);
    assert(all[k] == all[k]);
    let (q, j) = choose|q: int, j: int|
        0 <= q < names.len() && 0 <= j < q && names[j] == names[q] && #[trigger] all[k] == err_v(
            "duplicate-entry-name"@,
            path + seq![':'] + names[q],
            "duplicate entry name '"@ + names[q] + "': "@ + desc,
        );
    assert(all[k] == duplicate_v(names, q, path, desc));
}

/// Entry names are checked for uniqueness against every earlier entry, not
/// only the one before: each entry whose name some earlier entry already
/// has is reported as a `duplicate-entry-name` error at `{path}:{name}`,
/// nothing else is reported, and the report is empty exactly when the names
/// are pairwise distinct.
#[verifier::spinoff_prover]
#[verifier::rlimit(30)]
pub proof fn law_duplicate_names_reported(names: Seq<Seq<char>>, path: Seq<char>, desc: Seq<char>)
    ensures
        forall|q: int, j: int|
            0 <= j < q < names.len() && #[trigger] names[j] == #[trigger] names[q] ==> duplicate_checks(
                names,
                0,
                path,
                desc,
            ).contains(
                err_v(
                    "duplicate-entry-name"@,
                    path + seq![':'] + names[q],
                    "duplicate entry name '"@ + names[q] + "': "@ + desc,
                ),
            ),
        forall|k: int|
            0 <= k < duplicate_checks(names, 0, path, desc).len() ==> (#[trigger] duplicate_checks(names, 0, path, desc)[k]).severity
                == Severity::Error && duplicate_checks(names, 0, path, desc)[k].code == "duplicate-entry-name"@
                && exists|q: int, j: int|
                0 <= j < q < names.len() && names[j] == names[q] && duplicate_checks(names, 0, path, desc)[k].location
                    == path + seq![':'] + names[q],
        names.no_duplicates() <==> duplicate_checks(names, 0, path, desc).len() == 0,
        !names.no_duplicates() ==> has_error(duplicate_checks(names, 0, path, desc)),
{
    let all = duplicate_checks(names, 0, path, desc);
    assert forall|q: int, j: int|
        0 <= j < q < names.len() && #[trigger] names[j] == #[trigger] names[q] implies all.contains(
        err_v(
            "duplicate-entry-name"@,
            path + seq![':'] + names[q],
            "duplicate entry name '"@ + names[q] + "': "@ + desc,
        ),
    ) by {
        lemma_dup_complete(names, path, desc, q, j);
    }
    assert forall|k: int| 0 <= k < all.len() implies (#[trigger] all[k]).severity == Severity::Error && all[k].code
        == "duplicate-entry-name"@ && exists|q: int, j: int|
        0 <= j < q < names.len() && names[j] == names[q] && all[k].location == path + seq![':'] + names[q] by {
        lemma_dup_sound(names, path, desc, k);
    }
    if !names.no_duplicates() {
        let (a, b) = choose|a: int, b: int|
            0 <= a < names.len() && 0 <= b < names.len() && a != b && #[trigger] names[a] == #[trigger] names[b];
        let (j, q) = if a < b {
            (a, b)
        } else {
            (b, a)
        };
        lemma_dup_complete(names, path, desc, q, j);
        let w = duplicate_v(names, q, path, desc);
        let t = choose|t: int| 0 <= t < all.len() && all[t] == w;
        assert(all[t].severity == Severity::Error);
    } else if all.len() != 0 {
        lemma_dup_sound(names, path, desc, 0);
    }
}

/// The violations of the structural rules for an entry document's names:
/// only the name-uniqueness rule applies once the document has parsed.
pub open spec fn rule_checks(rules: Seq<DocumentConstraint>, names: Seq<Seq<char>>, path: Seq<char>) -> Seq<ViolationV>
    decreases rules.len(),
{
    if rules.len() == 0 {
        seq![]
    } else {
        (if rules[0].kind == ConstraintKind::EntryNameUniqueness {
            duplicate_checks(names, 0, path, rules[0].description@)
        } else {
            seq![]
        }) + rule_checks(rules.drop_first(), names, path)
    }
}

proof fn lemma_dup_outcome(names: Seq<Seq<char>>, path: Seq<char>, desc: Seq<char>)
    ensures
        names.no_duplicates() ==> duplicate_checks(names, 0, path, desc).len() == 0,
        !names.no_duplicates() ==> has_error(duplicate_checks(names, 0, path, desc)),
{
    law_duplicate_names_reported(names, path, desc);
}

/// Under the entry-name uniqueness rule an entry document whose names are
/// not pairwise distinct has an error, and the rules report nothing for one
/// whose names are.
#[verifier::spinoff_prover]
pub proof fn law_entry_names_rule(rules: Seq<DocumentConstraint>, names: Seq<Seq<char>>, path: Seq<char>)
    ensures
        names.no_duplicates() ==> rule_checks(rules, names, path).len() == 0,
        (exists|r: int| 0 <= r < rules.len() && (#[trigger] rules[r]).kind == ConstraintKind::EntryNameUniqueness)
            && !names.no_duplicates() ==> has_error(rule_checks(rules, names, path)),
    decreases rules.len(),
{
    if rules.len() > 0 {
        law_entry_names_rule(rules.drop_first(), names, path);
        lemma_dup_outcome(names, path, rules[0].description@);
        let head: Seq<ViolationV> = if rules[0].kind == ConstraintKind::EntryNameUniqueness {
            duplicate_checks(names, 0, path, rules[0].description@)
        } else {
            seq![]
        };
        let tail = rule_checks(rules.drop_first(), names, path);
        let all = rule_checks(rules, names, path);
        assert(all == head + tail);
        if (exists|r: int| 0 <= r < rules.len() && (#[trigger] rules[r]).kind == ConstraintKind::EntryNameUniqueness)
            && !names.no_duplicates() {
            if rules[0].kind == ConstraintKind::EntryNameUniqueness {
                let i = choose|i: int| 0 <= i < head.len() && #[trigger] head[i].severity == Severity::Error;
                assert(all[i] == head[i]);
            } else {
                let r = choose|r: int| 0 <= r < rules.len() && (#[trigger] rules[r]).kind == ConstraintKind::EntryNameUniqueness;
                assert(rules.drop_first()[r - 1] == rules[r]);
                let i = choose|i: int| 0 <= i < tail.len() && #[trigger] tail[i].severity == Severity::Error;
                assert(all[head.len() + i] == tail[i]);
            }
        }
    }
}

/// What validation gives for an entry document: the parse error, or the
/// rule violations of its entry names.
pub open spec fn entry_doc_violations(src: Seq<char>, path: Seq<char>, cat: Catalogue) -> Seq<ViolationV> {
    match parse_spec(src) {
        Err(m) => seq![err_v("invalid-document"@, path, "fat-file error: "@ + m)],
        Ok(es) => rule_checks(
            cat.document_constraints.rules@,
            es.map_values(|e: (Seq<char>, crate::fatfile::ndoc::EntryKind, Seq<char>, Seq<char>)| e.0),
            path,
        ),
    }
}

fn duplicate_checks_exec(doc: &NdocDocument, path: &str, desc: &str, out: &mut Vec<Violation>)
    ensures
        violation_views(final(out)@) == violation_views(old(out)@) + duplicate_checks(
            doc@.map_values(|e: (Seq<char>, crate::fatfile::ndoc::EntryKind, Seq<char>, Seq<char>)| e.0),
            0,
            path@,
            desc@,
        ),
{
    let ghost names = doc@.map_values(|e: (Seq<char>, crate::fatfile::ndoc::EntryKind, Seq<char>, Seq<char>)| e.0);
    let mut i: usize = 0;
    while i < doc.entries.len()
        invariant
            i <= doc.entries@.len(),
            names == doc@.map_values(|e: (Seq<char>, crate::fatfile::ndoc::EntryKind, Seq<char>, Seq<char>)| e.0),
            names.len() == doc.entries@.len(),
            violation_views(out@) + duplicate_checks(names, i as int, path@, desc@) == violation_views(old(out)@)
                + duplicate_checks(names, 0, path@, desc@),
        decreases doc.entries@.len() - i,
    {
        let ghost before = violation_views(out@);
        let name = chars_of(doc.entries[i].name.as_str());
        proof {
            assert(names[i as int] == doc.entries@[i as int].name@);
        }
        let mut seen = false;
        let mut j: usize = 0;
        while j < i
            invariant
                j <= i < doc.entries@.len(),
                names == doc@.map_values(|e: (Seq<char>, crate::fatfile::ndoc::EntryKind, Seq<char>, Seq<char>)| e.0),
                names.len() == doc.entries@.len(),
                name@ == names[i as int],
                seen == names.take(j as int).contains(names[i as int]),
            decreases i - j,
        {
            let other = chars_of(doc.entries[j].name.as_str());
            proof {
                assert(names[j as int] == doc.entries@[j as int].name@);
                assert(names.take(j + 1) =~= names.take(j as int).push(names[j as int]));
                assert(names.take(j + 1)[j as int] == names[j as int]);
                if names.take(j as int).contains(names[i as int]) {
                    let w = choose|w: int| #![trigger names.take(j as int)[w]] 0 <= w < j && names.take(j as int)[w] == names[i as int];
                    assert(names.take(j + 1)[w] == names[i as int]);
                }
                if names.take(j + 1).contains(names[i as int]) && !names.take(j as int).contains(names[i as int]) {
                    let w = choose|w: int| #![trigger names.take(j + 1)[w]] 0 <= w < j + 1 && names.take(j + 1)[w] == names[i as int];
                    if w < j {
                        assert(names.take(j as int)[w] == names[i as int]);
                    }
                }
            }
            if chars_eq(other.as_slice(), name.as_slice()) {
                seen = true;
            }
            j = j + 1;
        }
        proof {
            assert(j == i);
            assert(seen == names.take(i as int).contains(names[i as int]));
        }
        if seen {
            let mut l = chars_of(path);
            l.push(':');
            push_all(&mut l, name.as_slice());
            let mut m = chars_of("duplicate entry name '");
            push_all(&mut m, name.as_slice());
            push_str(&mut m, "': ");
            push_str(&mut m, desc);
            proof {
                assert(l@ =~= path@ + seq![':'] + names[i as int]);
                assert(m@ =~= "duplicate entry name '"@ + names[i as int] + "': "@ + desc@);
            }
            let v = Violation::error("duplicate-entry-name", string_of(l.as_slice()).as_str(), string_of(m.as_slice()).as_str());
            out.push(v);
            proof {
                assert(violation_views(out@) =~= before + seq![v@]);
                assert(v@ == err_v(
                    "duplicate-entry-name"@,
                    path@ + seq![':'] + names[i as int],
                    "duplicate entry name '"@ + names[i as int] + "': "@ + desc@,
                ));
            }
        }
        proof {
            let dup = duplicate_checks(names, i as int, path@, desc@);
            if seen {
                assert(dup == seq![err_v(
                    "duplicate-entry-name"@,
                    path@ + seq![':'] + names[i as int],
                    "duplicate entry name '"@ + names[i as int] + "': "@ + desc@,
                )] + duplicate_checks(names, i + 1, path@, desc@));
            } else {
                assert(dup == Seq::<ViolationV>::empty() + duplicate_checks(names, i + 1, path@, desc@));
            }
            assert(violation_views(out@) + duplicate_checks(names, i + 1, path@, desc@) =~= before
                + duplicate_checks(names, i as int, path@, desc@));
        }
        i = i + 1;
    }
}

/// Validate an entry document against the structural rules of
/// `catalogue`: a text that does not parse is one `invalid-document`
/// violation; otherwise every repeated entry name is reported.
pub fn validate_entry_document(src: &str, path: &str, catalogue: &Catalogue) -> (r: ValidationResult)
    ensures
        violation_views(r.violations@) == entry_doc_violations(src@, path@, *catalogue),
        r.summary is None,
{
    let mut violations: Vec<Violation> = Vec::new();
    proof {
        assert(violation_views(violations@) =~= Seq::<ViolationV>::empty());
    }
    let doc = match NdocDocument::parse(src) {
        Err(e) => {
            let v = Violation::error("invalid-document", path, e.to_string().as_str());
            violations.push(v);
            proof {
                assert(violation_views(violations@) =~= seq![v@]);
            }
            return ValidationResult { violations, summary: None };
        },
        Ok(d) => d,
    };
    let rules = &catalogue.document_constraints.rules;
    let ghost names = doc@.map_values(|e: (Seq<char>, crate::fatfile::ndoc::EntryKind, Seq<char>, Seq<char>)| e.0);
    proof {
        assert(rules@.subrange(0, rules@.len() as int) =~= rules@);
    }
    let mut i: usize = 0;
    while i < rules.len()
        invariant
            i <= rules@.len(),
            names == doc@.map_values(|e: (Seq<char>, crate::fatfile::ndoc::EntryKind, Seq<char>, Seq<char>)| e.0),
            violation_views(violations@) + rule_checks(rules@.subrange(i as int, rules@.len() as int), names, path@)
                == rule_checks(rules@, names, path@),
        decreases rules@.len() - i,
    {
        let ghost rest = rules@.subrange(i as int, rules@.len() as int);
        let ghost before = violation_views(violations@);
        proof {
            assert(rest[0] == rules@[i as int]);
            assert(rest.drop_first() =~= rules@.subrange(i + 1, rules@.len() as int));
        }
        if rules[i].kind == ConstraintKind::EntryNameUniqueness {
            duplicate_checks_exec(&doc, path, rules[i].description.as_str(), &mut violations);
        }
        proof {
            assert(violation_views(violations@) + rule_checks(rest.drop_first(), names, path@) =~= before
                + rule_checks(rest, names, path@));
        }
        i = i + 1;
    }
    proof {
        assert(rules@.subrange(rules@.len() as int, rules@.len() as int) =~= Seq::<DocumentConstraint>::empty());
        assert(violation_views(violations@) + Seq::<ViolationV>::empty() =~= violation_views(violations@));
    }
    ValidationResult { violations, summary: None }
}


/// A validation result for a document of either format: a composed
/// document (see [`validate_composed`]) or an entry document (see
/// [`validate_entry_document`]).
pub fn validate_ndoc_source(src: &str, path: &str, prelude: Result<Prelude, Error>, catalogue: &Catalogue) -> (r: ValidationResult)
    ensures
        is_composed_spec(src@) ==> violation_views(r.violations@) == composed_violations(src@, path@, prelude, *catalogue),
        is_composed_spec(src@) ==> match prelude {
            Err(_) => r.summary is None,
            Ok(p) => match parse_state_spec(src@, p) {
                Err(_) => r.summary is None,
                Ok(st) => r.summary matches Some(s) && summary_view(s) == summary_of(st),
            },
        },
        !is_composed_spec(src@) ==> violation_views(r.violations@) == entry_doc_violations(src@, path@, *catalogue)
            && r.summary is None,
{
    if crate::fatfile::composed::is_composed(src) {
        validate_composed(src, path, prelude, catalogue)
    } else {
        validate_entry_document(src, path, catalogue)
    }
}

/// The YAML between a leading `---` fence and the next `---` line: the
/// text after `---\n` (or `---\r\n`) up to the first `\n---\n`, else
/// the first `\n---\r\n`, else the first `\n---`. `None` when the text
/// does not open with a fence or the fence is never closed.
pub open spec fn frontmatter_of(src: Seq<char>) -> Option<Seq<char>> {
    let body = if is_prefix("---\n"@, src) {
        Some(src.skip(4))
    } else if is_prefix("---\r\n"@, src) {
        Some(src.skip(5))
    } else {
        None
    };
    match body {
        None => None,
        Some(b) => match find(b, "\n---\n"@) {
            Some(p) => Some(b.take(p)),
            None => match find(b, "\n---\r\n"@) {
                Some(p) => Some(b.take(p)),
                None => match find(b, "\n---"@) {
                    Some(p) => Some(b.take(p)),
                    None => None,
                },
            },
        },
    }
}

fn frontmatter_exec(src: &[char]) -> (r: Option<Vec<char>>)
    ensures
        match r {
            Some(f) => frontmatter_of(src@) == Some(f@),
            None => frontmatter_of(src@) is None,
        },
{
    let open_lf = chars_of("---\n");
    let open_crlf = chars_of("---\r\n");
    proof {
        reveal_strlit("---\n");
        reveal_strlit("---\r\n");
    }
    let start: usize = if starts_with(src, open_lf.as_slice()) {
        4
    } else if starts_with(src, open_crlf.as_slice()) {
        5
    } else {
        return None;
    };
    let body = slice_vec(src, start, src.len());
    proof {
        assert(body@ =~= src@.skip(start as int));
    }
    let close_lf = chars_of("\n---\n");
    let close_crlf = chars_of("\n---\r\n");
    let close = chars_of("\n---");
    let end = match find_exec(body.as_slice(), close_lf.as_slice()) {
        Some(p) => p,
        None => match find_exec(body.as_slice(), close_crlf.as_slice()) {
            Some(p) => p,
            None => match find_exec(body.as_slice(), close.as_slice()) {
                Some(p) => p,
                None => {
                    return None;
                },
            },
        },
    };
    proof {
        crate::text::lemma_find_from_sound(body@, close_lf@, 0);
        crate::text::lemma_find_from_sound(body@, close_crlf@, 0);
        crate::text::lemma_find_from_sound(body@, close@, 0);
    }
    let f = slice_vec(body.as_slice(), 0, end);
    proof {
        assert(f@ =~= body@.take(end as int));
    }
    Some(f)
}

/// The message the YAML parser gives for a text that is not well-formed
/// YAML, or `None` when it parses.
pub uninterp spec fn spec_yaml_error(yaml: Seq<char>) -> Option<Seq<char>>;

/// Whether a text is well-formed YAML, and if not, why.
///
/// Trusted: calls `serde_yaml_ng::from_str::<serde_yaml_ng::Value>` and keeps
/// the error's message. The contract names the outcome, a function of the
/// text alone.
#[verifier::external_body]
fn yaml_error(yaml: &str) -> (r: Option<String>)
    ensures
        match r {
            Some(m) => spec_yaml_error(yaml@) == Some(m@),
            None => spec_yaml_error(yaml@) is None,
        },
{
    match serde_yaml_ng::from_str::<serde_yaml_ng::Value>(yaml) {
        Ok(_) => None,
        Err(e) => Some(e.to_string()),
    }
}

/// Whether `path` names a Markdown file: its extension is `md`.
pub fn is_markdown_path(path: &str) -> (b: bool)
    ensures
        b == (crate::cli::path_extension(path@) == Some("md"@)),
{
    let p = chars_of(path);
    let md = chars_of("md");
    match crate::cli::extension_of(p.as_slice()) {
        Some(e) => chars_eq(e.as_slice(), md.as_slice()),
        None => false,
    }
}

/// Whether the rules hold one of the given kind.
pub open spec fn has_rule(rules: Seq<DocumentConstraint>, kind: ConstraintKind) -> bool {
    exists|k: int| 0 <= k < rules.len() && #[trigger] rules[k].kind == kind
}

/// What validation gives for a Markdown file at `path` whose text is
/// `src`: a path that is not `.md` is one `unsupported-file-type`
/// violation; otherwise, where the catalogue asks for it, frontmatter that
/// is not well-formed YAML is one `invalid-frontmatter` violation.
pub open spec fn markdown_violations(path: Seq<char>, src: Seq<char>, cat: Catalogue) -> Seq<ViolationV> {
    if crate::cli::path_extension(path) != Some("md"@) {
        seq![
            err_v(
                "unsupported-file-type"@,
                path,
                "unsupported file type '"@ + path + "': expected a '.ndoc.typ' or '.md' file"@,
            ),
        ]
    } else if has_rule(cat.document_constraints.rules@, ConstraintKind::MarkdownFrontmatterValid) {
        match frontmatter_of(src) {
            Some(fm) => match spec_yaml_error(fm) {
                Some(e) => seq![err_v("invalid-frontmatter"@, path + ":frontmatter"@, "invalid YAML frontmatter: "@ + e)],
                None => seq![],
            },
            None => seq![],
        }
    } else {
        seq![]
    }
}

/// Validate a Markdown file at `path` whose text is `src` (the text is not
/// read when the path is not a Markdown file; see [`is_markdown_path`]).
pub fn validate_markdown_source(path: &str, src: &str, catalogue: &Catalogue) -> (r: ValidationResult)
    ensures
        violation_views(r.violations@) == markdown_violations(path@, src@, *catalogue),
        r.summary is None,
{
    let mut violations: Vec<Violation> = Vec::new();
    if !is_markdown_path(path) {
        let mut m = chars_of("unsupported file type '");
        push_str(&mut m, path);
        push_str(&mut m, "': expected a '.ndoc.typ' or '.md' file");
        let v = Violation::error("unsupported-file-type", path, string_of(m.as_slice()).as_str());
        violations.push(v);
        proof {
            assert(violation_views(violations@) =~= markdown_violations(path@, src@, *catalogue));
        }
        return ValidationResult { violations, summary: None };
    }
    let rules = &catalogue.document_constraints.rules;
    let mut wanted = false;
    let mut i: usize = 0;
    while i < rules.len()
        invariant
            i <= rules@.len(),
            wanted == exists|k: int| 0 <= k < i && #[trigger] rules@[k].kind == ConstraintKind::MarkdownFrontmatterValid,
        decreases rules@.len() - i,
    {
        if rules[i].kind == ConstraintKind::MarkdownFrontmatterValid {
            wanted = true;
        }
        i = i + 1;
    }
    if wanted {
        let cs = chars_of(src);
        if let Some(fm) = frontmatter_exec(cs.as_slice()) {
            if let Some(e) = yaml_error(string_of(fm.as_slice()).as_str()) {
                let mut l = chars_of(path);
                push_str(&mut l, ":frontmatter");
                let mut m = chars_of("invalid YAML frontmatter: ");
                push_str(&mut m, e.as_str());
                let v = Violation::error("invalid-frontmatter", string_of(l.as_slice()).as_str(), string_of(m.as_slice()).as_str());
                violations.push(v);
            }
        }
    }
    proof {
        assert(violation_views(violations@) =~= markdown_violations(path@, src@, *catalogue));
    }
    ValidationResult { violations, summary: None }
}

} // verus!
