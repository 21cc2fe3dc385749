//! A reader for the CommonMark XML form of a Markdown syntax tree.
//!
//! The Markdown parser hands its syntax tree over as CommonMark XML: one
//! element per node, attributes for node data (`level`, `destination`,
//! `label`, ...), and the literal text of `text`, `code`, `code_block` and
//! HTML nodes as escaped character data of elements marked
//! `xml:space="preserve"`. This module reads that text back into a tree.
use vstd::prelude::*;

use crate::text::{find, find_from, find_from_exec, find_exec, occurs_at, matches_at, slice_vec, chars_of};

verus! {

/// One element of the tree: its tag, attributes (values unescaped), literal
/// text (for `xml:space="preserve"` elements) and child elements.
pub struct XmlTree {
    pub tag: Seq<char>,
    pub attrs: Seq<(Seq<char>, Seq<char>)>,
    pub text: Seq<char>,
    pub children: Seq<XmlTree>,
}

/// The executable form of [`XmlTree`].
pub struct XmlNode {
    pub tag: Vec<char>,
    pub attrs: Vec<(Vec<char>, Vec<char>)>,
    pub text: Vec<char>,
    pub children: Vec<XmlNode>,
}

/// The attribute pairs held by vectors.
pub open spec fn attr_views(a: Seq<(Vec<char>, Vec<char>)>) -> Seq<(Seq<char>, Seq<char>)> {
    a.map_values(|p: (Vec<char>, Vec<char>)| (p.0@, p.1@))
}

/// The tree an executable node holds.
pub open spec fn tree_of(n: XmlNode) -> XmlTree
    decreases n, 1int,
{
    XmlTree { tag: n.tag@, attrs: attr_views(n.attrs@), text: n.text@, children: trees_of(n.children@) }
}

/// The trees executable nodes hold.
pub open spec fn trees_of(ns: Seq<XmlNode>) -> Seq<XmlTree>
    decreases ns, 0int,
{
    if ns.len() == 0 {
        seq![]
    } else {
        seq![tree_of(ns[0])] + trees_of(ns.drop_first())
    }
}

/// The trees of nodes, element by element.
pub proof fn lemma_trees_of(ns: Seq<XmlNode>)
    ensures
        trees_of(ns).len() == ns.len(),
        forall|i: int| 0 <= i < ns.len() ==> #[trigger] trees_of(ns)[i] == tree_of(ns[i]),
    decreases ns.len(),
{
    if ns.len() > 0 {
        lemma_trees_of(ns.drop_first());
        assert forall|i: int| 0 <= i < ns.len() implies #[trigger] trees_of(ns)[i] == tree_of(
            ns[i],
        ) by {
            if i > 0 {
                assert(trees_of(ns)[i] == trees_of(ns.drop_first())[i - 1]);
            }
        }
    }
}

/// Whitespace between elements.
pub open spec fn is_space(c: char) -> bool {
    c == ' ' || c == '\n' || c == '\r' || c == '\t'
}

/// The first position at or after `i` that is not whitespace.
pub open spec fn skip_ws(s: Seq<char>, i: int) -> int
    decreases s.len() - i,
{
    if 0 <= i < s.len() && is_space(s[i]) {
        skip_ws(s, i + 1)
    } else {
        i
    }
}

/// A character that ends a tag or attribute name.
pub open spec fn ends_name(c: char) -> bool {
    is_space(c) || c == '/' || c == '>' || c == '='
}

/// The end of the name that starts at `i`.
pub open spec fn name_end(s: Seq<char>, i: int) -> int
    decreases s.len() - i,
{
    if 0 <= i < s.len() && !ends_name(s[i]) {
        name_end(s, i + 1)
    } else {
        i
    }
}

/// Character data with its entities (`&amp;`, `&lt;`, `&gt;`, `&quot;`)
/// resolved.
pub open spec fn unescape(t: Seq<char>) -> Seq<char>
    decreases t.len(),
{
    if t.len() == 0 {
        seq![]
    } else if t.len() >= 5 && t.subrange(0, 5) == "&amp;"@ {
        seq!['&'] + unescape(t.subrange(5, t.len() as int))
    } else if t.len() >= 4 && t.subrange(0, 4) == "&lt;"@ {
        seq!['<'] + unescape(t.subrange(4, t.len() as int))
    } else if t.len() >= 4 && t.subrange(0, 4) == "&gt;"@ {
        seq!['>'] + unescape(t.subrange(4, t.len() as int))
    } else if t.len() >= 6 && t.subrange(0, 6) == "&quot;"@ {
        seq!['"'] + unescape(t.subrange(6, t.len() as int))
    } else {
        seq![t[0]] + unescape(t.subrange(1, t.len() as int))
    }
}

/// The attributes from position `i` up to the `>` or `/>` that closes the
/// tag, and that position.
pub open spec fn attr_list(s: Seq<char>, i: int) -> Option<(Seq<(Seq<char>, Seq<char>)>, int)>
    decreases s.len() - i,
{
    let j = skip_ws(s, i);
    if !(i <= j < s.len()) {
        None
    } else if s[j] == '/' || s[j] == '>' {
        Some((seq![], j))
    } else {
        let e = name_end(s, j);
        if !(j < e && e < s.len() && e + 1 < s.len() && s[e] == '=' && s[e + 1] == '"') {
            None
        } else {
            match find_from(s, seq!['"'], e + 2) {
                None => None,
                Some(q) => if q + 1 <= i || q >= s.len() {
                    None
                } else {
                    match attr_list(s, q + 1) {
                        None => None,
                        Some((rest, k)) => Some(
                            (seq![(s.subrange(j, e), unescape(s.subrange(e + 2, q)))] + rest, k),
                        ),
                    }
                },
            }
        }
    }
}

/// Where the info string of a code block ends. The writer puts a code
/// block's info string between the quotes unescaped, so it may itself hold
/// quotes; it ends at the first quote followed by the attribute the writer
/// always puts next (` xml:space="`, or ` math_style="` for `math`).
pub open spec fn raw_info_end(s: Seq<char>, from: int) -> Option<int> {
    match (find_from(s, "\" xml:space=\""@, from), find_from(s, "\" math_style=\""@, from)) {
        (None, None) => None,
        (Some(a), None) => Some(a),
        (None, Some(b)) => Some(b),
        (Some(a), Some(b)) => Some(if a <= b { a } else { b }),
    }
}

/// The attributes of the tag `tag` whose name ends at `e`: a code block's
/// leading `info` attribute is read raw (see [`raw_info_end`]); the others
/// as [`attr_list`] reads them.
pub open spec fn head_attrs(s: Seq<char>, tag: Seq<char>, e: int) -> Option<(Seq<(Seq<char>, Seq<char>)>, int)> {
    if tag == "code_block"@ && occurs_at(s, " info=\""@, e) {
        match raw_info_end(s, e + 7) {
            None => None,
            Some(k) => match attr_list(s, k + 1) {
                None => None,
                Some((rest, j)) => Some((seq![("info"@, s.subrange(e + 7, k))] + rest, j)),
            },
        }
    } else {
        attr_list(s, e)
    }
}

/// [`attr_list`] ends at or after where it starts.
proof fn lemma_attr_list_from(s: Seq<char>, i: int)
    ensures
        match attr_list(s, i) {
            Some((_, k)) => i <= k,
            None => true,
        },
    decreases s.len() - i,
{
    let j = skip_ws(s, i);
    if i <= j < s.len() && !(s[j] == '/' || s[j] == '>') {
        let e = name_end(s, j);
        if j < e && e < s.len() && e + 1 < s.len() && s[e] == '=' && s[e + 1] == '"' {
            match find_from(s, seq!['"'], e + 2) {
                None => {},
                Some(q) => if !(q + 1 <= i || q >= s.len()) {
                    lemma_attr_list_from(s, q + 1);
                },
            }
        }
    }
}

/// The value of the first attribute named `name`.
pub open spec fn attr(attrs: Seq<(Seq<char>, Seq<char>)>, name: Seq<char>) -> Option<Seq<char>>
    decreases attrs.len(),
{
    if attrs.len() == 0 {
        None
    } else if attrs[0].0 == name {
        Some(attrs[0].1)
    } else {
        attr(attrs.drop_first(), name)
    }
}

/// An element whose content is literal character data.
pub open spec fn is_literal(attrs: Seq<(Seq<char>, Seq<char>)>) -> bool {
    attr(attrs, "xml:space"@) == Some("preserve"@)
}

/// The closing tag of `tag`.
pub open spec fn close_tag(tag: Seq<char>) -> Seq<char> {
    "</"@ + tag + ">"@
}

/// The element that starts at `i` (with its `<`) and the position after it.
pub open spec fn element(s: Seq<char>, i: int) -> Option<(XmlTree, int)>
    decreases s.len() - i, 0int,
{
    if !(0 <= i < s.len() && s[i] == '<') {
        None
    } else {
        let e = name_end(s, i + 1);
        let tag = s.subrange(i + 1, e);
        if tag.len() == 0 {
            None
        } else {
            match head_attrs(s, tag, e) {
                None => None,
                Some((attrs, j)) => {
                    if occurs_at(s, "/>"@, j) {
                        Some((XmlTree { tag, attrs, text: seq![], children: seq![] }, j + 2))
                    } else if !(j < s.len() && s[j] == '>') || j < i {
                        None
                    } else if is_literal(attrs) {
                        match find_from(s, "</"@, j + 1) {
                            None => None,
                            Some(k) => if occurs_at(s, close_tag(tag), k) {
                                Some(
                                    (
                                        XmlTree {
                                            tag,
                                            attrs,
                                            text: unescape(s.subrange(j + 1, k)),
                                            children: seq![],
                                        },
                                        k + close_tag(tag).len(),
                                    ),
                                )
                            } else {
                                None
                            },
                        }
                    } else {
                        match children(s, j + 1) {
                            None => None,
                            Some((kids, k)) => if occurs_at(s, close_tag(tag), k) {
                                Some(
                                    (
                                        XmlTree { tag, attrs, text: seq![], children: kids },
                                        k + close_tag(tag).len(),
                                    ),
                                )
                            } else {
                                None
                            },
                        }
                    }
                },
            }
        }
    }
}

/// The elements from position `i` up to the closing tag of their parent,
/// and the position of that closing tag.
pub open spec fn children(s: Seq<char>, i: int) -> Option<(Seq<XmlTree>, int)>
    decreases s.len() - i, 1int,
{
    let j = skip_ws(s, i);
    if !(i <= j < s.len()) {
        None
    } else if occurs_at(s, "</"@, j) {
        Some((seq![], j))
    } else {
        match element(s, j) {
            None => None,
            Some((t, k)) => if k <= j || k > s.len() {
                None
            } else {
                match children(s, k) {
                    None => None,
                    Some((rest, m)) => Some((seq![t] + rest, m)),
                }
            },
        }
    }
}

/// The `document` element of a CommonMark XML text.
pub open spec fn document(s: Seq<char>) -> Option<XmlTree> {
    match find(s, "<document"@) {
        None => None,
        Some(i) => match element(s, i) {
            Some((t, _)) => Some(t),
            None => None,
        },
    }
}

// ---------------------------------------------------------------------------
// Reading.
// ---------------------------------------------------------------------------

fn is_space_exec(c: char) -> (b: bool)
    ensures
        b == is_space(c),
{
    c == ' ' || c == '\n' || c == '\r' || c == '\t'
}

fn skip_ws_exec(s: &[char], i: usize) -> (r: usize)
    requires
        i <= s@.len(),
    ensures
        r == skip_ws(s@, i as int),
        i <= r <= s@.len(),
{
    let mut j = i;
    while j < s.len() && is_space_exec(s[j])
        invariant
            i <= j <= s@.len(),
            skip_ws(s@, i as int) == skip_ws(s@, j as int),
        decreases s@.len() - j,
    {
        j = j + 1;
    }
    j
}

fn name_end_exec(s: &[char], i: usize) -> (r: usize)
    requires
        i <= s@.len(),
    ensures
        r == name_end(s@, i as int),
        i <= r <= s@.len(),
{
    let mut j = i;
    while j < s.len() && !(is_space_exec(s[j]) || s[j] == '/' || s[j] == '>' || s[j] == '=')
        invariant
            i <= j <= s@.len(),
            name_end(s@, i as int) == name_end(s@, j as int),
        decreases s@.len() - j,
    {
        j = j + 1;
    }
    j
}

/// `s[from..to]` with its entities resolved.
pub fn unescape_exec(s: &[char], from: usize, to: usize) -> (r: Vec<char>)
    requires
        from <= to <= s@.len(),
    ensures
        r@ == unescape(s@.subrange(from as int, to as int)),
{
    let amp = chars_of("&amp;");
    let lt = chars_of("&lt;");
    let gt = chars_of("&gt;");
    let quot = chars_of("&quot;");
    proof {
        reveal_strlit("&amp;");
        reveal_strlit("&lt;");
        reveal_strlit("&gt;");
        reveal_strlit("&quot;");
    }
    let mut out: Vec<char> = Vec::new();
    let mut i = from;
    while i < to
        invariant
            from <= i <= to <= s@.len(),
            amp@ == "&amp;"@,
            lt@ == "&lt;"@,
            gt@ == "&gt;"@,
            quot@ == "&quot;"@,
            out@ + unescape(s@.subrange(i as int, to as int)) == unescape(
                s@.subrange(from as int, to as int),
            ),
        decreases to - i,
    {
        let ghost t = s@.subrange(i as int, to as int);
        let ghost before = out@;
        let n = to - i;
        let step: usize;
        if n >= 5 && crate::text::range_eq(s, i, i + 5, amp.as_slice()) {
            out.push('&');
            step = 5;
        } else if n >= 4 && crate::text::range_eq(s, i, i + 4, lt.as_slice()) {
            out.push('<');
            step = 4;
        } else if n >= 4 && crate::text::range_eq(s, i, i + 4, gt.as_slice()) {
            out.push('>');
            step = 4;
        } else if n >= 6 && crate::text::range_eq(s, i, i + 6, quot.as_slice()) {
            out.push('"');
            step = 6;
        } else {
            out.push(s[i]);
            step = 1;
        }
        proof {
            assert(t.subrange(step as int, t.len() as int) =~= s@.subrange(i + step, to as int));
            if n >= 5 {
                assert(t.subrange(0, 5) =~= s@.subrange(i as int, i + 5));
            }
            if n >= 4 {
                assert(t.subrange(0, 4) =~= s@.subrange(i as int, i + 4));
            }
            if n >= 6 {
                assert(t.subrange(0, 6) =~= s@.subrange(i as int, i + 6));
            }
            assert(t[0] == s@[i as int]);
            assert(out@ + unescape(s@.subrange(i + step, to as int)) =~= before + unescape(t));
        }
        i = i + step;
    }
    proof {
        assert(unescape(s@.subrange(to as int, to as int)) =~= Seq::<char>::empty());
        assert(out@ + Seq::<char>::empty() =~= out@);
    }
    out
}

fn attr_list_exec(s: &[char], i: usize) -> (r: Option<(Vec<(Vec<char>, Vec<char>)>, usize)>)
    requires
        i <= s@.len(),
    ensures
        match r {
            Some((a, k)) => attr_list(s@, i as int) == Some((attr_views(a@), k as int)) && k
                <= s@.len(),
            None => attr_list(s@, i as int) is None,
        },
    decreases s@.len() - i,
{
    let j = skip_ws_exec(s, i);
    if j >= s.len() {
        return None;
    }
    if s[j] == '/' || s[j] == '>' {
        proof {
            assert(attr_views(Seq::<(Vec<char>, Vec<char>)>::empty()) =~= Seq::<
                (Seq<char>, Seq<char>),
            >::empty());
        }
        return Some((Vec::new(), j));
    }
    let e = name_end_exec(s, j);
    if !(j < e && e < s.len() && e + 1 < s.len() && s[e] == '=' && s[e + 1] == '"') {
        return None;
    }
    let q = match crate::text::find_char_from(s, '"', e + 2) {
        None => {
            return None;
        },
        Some(q) => q,
    };
    proof {
        crate::text::lemma_find_from_sound(s@, seq!['"'], e + 2);
        crate::text::lemma_occurs_char(s@, '"', q as int);
    }
    if q + 1 <= i || q >= s.len() {
        return None;
    }
    match attr_list_exec(s, q + 1) {
        None => None,
        Some((rest, k)) => {
            let name = slice_vec(s, j, e);
            let value = unescape_exec(s, e + 2, q);
            let mut all: Vec<(Vec<char>, Vec<char>)> = Vec::new();
            all.push((name, value));
            let mut rest = rest;
            let ghost rv = attr_views(rest@);
            all.append(&mut rest);
            proof {
                assert(attr_views(all@) =~= seq![(s@.subrange(j as int, e as int), unescape(s@.subrange(e + 2, q as int)))] + rv);
            }
            Some((all, k))
        },
    }
}

fn head_attrs_exec(s: &[char], tag: &[char], e: usize) -> (r: Option<(Vec<(Vec<char>, Vec<char>)>, usize)>)
    requires
        e <= s@.len(),
    ensures
        match r {
            Some((a, k)) => head_attrs(s@, tag@, e as int) == Some((attr_views(a@), k as int)) && e <= k
                <= s@.len(),
            None => head_attrs(s@, tag@, e as int) is None,
        },
{
    let cb = chars_of("code_block");
    let lead = chars_of(" info=\"");
    proof {
        reveal_strlit("code_block");
        reveal_strlit(" info=\"");
        reveal_strlit("\" xml:space=\"");
        reveal_strlit("\" math_style=\"");
    }
    if !(crate::text::chars_eq(tag, cb.as_slice()) && matches_at(s, lead.as_slice(), e)) {
        let r = attr_list_exec(s, e);
        proof {
            lemma_attr_list_from(s@, e as int);
        }
        return r;
    }
    assert(lead@.len() == 7);
    assert(s@.len() == s.len());
    assert(e + 7 <= s@.len());
    let space = chars_of("\" xml:space=\"");
    let math = chars_of("\" math_style=\"");
    assert(space@.len() == 13 && math@.len() == 14);
    let a = find_from_exec(s, space.as_slice(), e + 7);
    let b = find_from_exec(s, math.as_slice(), e + 7);
    proof {
        crate::text::lemma_find_from_sound(s@, space@, e + 7);
        crate::text::lemma_find_from_sound(s@, math@, e + 7);
    }
    let k = match (a, b) {
        (None, None) => {
            return None;
        },
        (Some(a), None) => a,
        (None, Some(b)) => b,
        (Some(a), Some(b)) => if a <= b {
            a
        } else {
            b
        },
    };
    match attr_list_exec(s, k + 1) {
        None => None,
        Some((rest, j)) => {
            proof {
                lemma_attr_list_from(s@, k + 1);
            }
            let mut all: Vec<(Vec<char>, Vec<char>)> = Vec::new();
            all.push((chars_of("info"), slice_vec(s, e + 7, k)));
            let mut rest = rest;
            let ghost rv = attr_views(rest@);
            all.append(&mut rest);
            proof {
                reveal_strlit("info");
                assert(attr_views(all@) =~= seq![("info"@, s@.subrange(e + 7, k as int))] + rv);
            }
            Some((all, j))
        },
    }
}

/// The value of the first attribute named `name`.
pub fn attr_exec<'a>(attrs: &'a Vec<(Vec<char>, Vec<char>)>, name: &[char]) -> (r: Option<&'a Vec<char>>)
    ensures
        match r {
            Some(v) => attr(attr_views(attrs@), name@) == Some(v@),
            None => attr(attr_views(attrs@), name@) is None,
        },
{
    let mut i: usize = 0;
    proof {
        assert(attr_views(attrs@).subrange(0, attrs@.len() as int) =~= attr_views(attrs@));
    }
    while i < attrs.len()
        invariant
            i <= attrs@.len(),
            attr(attr_views(attrs@), name@) == attr(attr_views(attrs@).subrange(i as int, attrs@.len() as int), name@),
        decreases attrs@.len() - i,
    {
        let ghost rest = attr_views(attrs@).subrange(i as int, attrs@.len() as int);
        proof {
            assert(rest[0] == (attrs@[i as int].0@, attrs@[i as int].1@));
            assert(rest.drop_first() =~= attr_views(attrs@).subrange(i + 1, attrs@.len() as int));
        }
        if crate::text::chars_eq(attrs[i].0.as_slice(), name) {
            return Some(&attrs[i].1);
        }
        i = i + 1;
    }
    None
}

fn is_literal_exec(attrs: &Vec<(Vec<char>, Vec<char>)>) -> (b: bool)
    ensures
        b == is_literal(attr_views(attrs@)),
{
    let key = chars_of("xml:space");
    let preserve = chars_of("preserve");
    match attr_exec(attrs, key.as_slice()) {
        Some(v) => crate::text::chars_eq(v.as_slice(), preserve.as_slice()),
        None => false,
    }
}

/// The close tag of `tag`.
fn close_tag_exec(tag: &[char]) -> (r: Vec<char>)
    ensures
        r@ == close_tag(tag@),
{
    let mut r = chars_of("</");
    crate::text::push_all(&mut r, tag);
    crate::text::push_str(&mut r, ">");
    r
}

fn element_exec(s: &[char], i: usize) -> (r: Option<(XmlNode, usize)>)
    requires
        i <= s@.len(),
    ensures
        match r {
            Some((n, k)) => element(s@, i as int) == Some((tree_of(n), k as int)) && k <= s@.len(),
            None => element(s@, i as int) is None,
        },
    decreases s@.len() - i, 0int,
{
    if !(i < s.len() && s[i] == '<') {
        return None;
    }
    let e = name_end_exec(s, i + 1);
    if e == i + 1 {
        return None;
    }
    let tag = slice_vec(s, i + 1, e);
    let (attrs, j) = match head_attrs_exec(s, tag.as_slice(), e) {
        None => {
            return None;
        },
        Some(p) => p,
    };
    let self_close = chars_of("/>");
    let slash_gt = matches_at(s, self_close.as_slice(), j);
    proof {
        reveal_strlit("/>");
        reveal_strlit("</");
        reveal_strlit(">");
        assert(trees_of(Seq::<XmlNode>::empty()) =~= Seq::<XmlTree>::empty());
    }
    if slash_gt {
        let n = XmlNode { tag, attrs, text: Vec::new(), children: Vec::new() };
        return Some((n, j + 2));
    }
    if !(j < s.len() && s[j] == '>') || j < i {
        return None;
    }
    let close = close_tag_exec(tag.as_slice());
    if is_literal_exec(&attrs) {
        let open_close = chars_of("</");
        let k = match find_from_exec(s, open_close.as_slice(), j + 1) {
            None => {
                return None;
            },
            Some(k) => k,
        };
        proof {
            crate::text::lemma_find_from_sound(s@, open_close@, j + 1);
        }
        if matches_at(s, close.as_slice(), k) {
            let text = unescape_exec(s, j + 1, k);
            let n = XmlNode { tag, attrs, text, children: Vec::new() };
            Some((n, k + close.len()))
        } else {
            None
        }
    } else {
        match children_exec(s, j + 1) {
            None => None,
            Some((kids, k)) => {
                if matches_at(s, close.as_slice(), k) {
                    let n = XmlNode { tag, attrs, text: Vec::new(), children: kids };
                    Some((n, k + close.len()))
                } else {
                    None
                }
            },
        }
    }
}

fn children_exec(s: &[char], i: usize) -> (r: Option<(Vec<XmlNode>, usize)>)
    requires
        i <= s@.len(),
    ensures
        match r {
            Some((ns, k)) => children(s@, i as int) == Some((trees_of(ns@), k as int)) && k
                <= s@.len(),
            None => children(s@, i as int) is None,
        },
    decreases s@.len() - i, 1int,
{
    let j = skip_ws_exec(s, i);
    if j >= s.len() {
        return None;
    }
    let open_close = chars_of("</");
    if matches_at(s, open_close.as_slice(), j) {
        proof {
            assert(trees_of(Seq::<XmlNode>::empty()) =~= Seq::<XmlTree>::empty());
        }
        return Some((Vec::new(), j));
    }
    match element_exec(s, j) {
        None => None,
        Some((t, k)) => {
            if k <= j || k > s.len() {
                return None;
            }
            match children_exec(s, k) {
                None => None,
                Some((rest, m)) => {
                    let mut all: Vec<XmlNode> = Vec::new();
                    all.push(t);
                    let mut rest = rest;
                    let ghost rv = rest@;
                    all.append(&mut rest);
                    proof {
                        assert(all@ =~= seq![all@[0]] + rv);
                        assert(all@.drop_first() =~= rv);
                    }
                    Some((all, m))
                },
            }
        },
    }
}

/// Read the `document` element of a CommonMark XML text.
pub fn read_document(s: &[char]) -> (r: Option<XmlNode>)
    ensures
        match r {
            Some(n) => document(s@) == Some(tree_of(n)),
            None => document(s@) is None,
        },
{
    let open = chars_of("<document");
    match find_exec(s, open.as_slice()) {
        None => None,
        Some(i) => {
            proof {
                crate::text::lemma_find_from_sound(s@, open@, 0);
            }
            match element_exec(s, i) {
                Some((t, _)) => Some(t),
                None => None,
            }
        },
    }
}

} // verus!
