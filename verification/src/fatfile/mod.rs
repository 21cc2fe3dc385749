//! The self-contained `.ndoc.typ` fat file and the `ndoc` document format.
//!
//! Three formats share the `.ndoc.typ` extension:
//!
//! - the **four-section** authoring file (this module): STATE / TEMPLATE /
//!   DOCUMENT / IMAGES, each opened by a `// === NAME ===` marker line;
//! - the **entry** document ([`ndoc`]): a header line followed by named
//!   entries;
//! - the **composed** document ([`composed`]): block-comment STATE and IMAGES
//!   sections followed by live Typst.
//!
//! They are told apart by their first non-empty line.
pub mod composed;
pub mod images;
pub mod markers;
pub mod ndoc;

use std::hash::BuildHasher;

use vstd::prelude::*;

use crate::error::Error;
use crate::text::{
    chars_of, is_ws, join, join_range, lemma_join_split_lf, lemma_lines_cat, lemma_split_lf_last,
    lemma_split_lf_no_lf, lines, lines_of, push_str, range_eq, split_lf, string_of, strip_cr,
    trim_end, trim_end_len, views,
};

verus! {

/// The four logical sections of a fat file, kept as raw strings.
#[derive(Debug, Default, Clone, PartialEq, Eq)]
pub struct FatFileSections {
    pub state: String,
    pub template: String,
    pub document: String,
    pub images: String,
}

impl View for FatFileSections {
    type V = (Seq<char>, Seq<char>, Seq<char>, Seq<char>);

    open spec fn view(&self) -> Self::V {
        (self.state@, self.template@, self.document@, self.images@)
    }
}

/// The text [`compose`] produces for the four section bodies.
pub open spec fn compose_spec(st: Seq<char>, tp: Seq<char>, dc: Seq<char>, im: Seq<char>) -> Seq<
    char,
> {
    markers::STATE@ + seq!['\n'] + st + seq!['\n', '\n'] + markers::TEMPLATE@ + seq!['\n'] + tp
        + seq!['\n', '\n'] + markers::DOCUMENT@ + seq!['\n'] + dc + seq!['\n', '\n']
        + markers::IMAGES@ + seq!['\n'] + im + seq!['\n']
}

/// Compose the four sections into a single `.ndoc.typ` source string.
///
/// Each section follows its marker line; a blank line separates a section
/// from the next marker, and the text ends with a newline.
pub fn compose(sections: &FatFileSections) -> (r: Result<String, Error>)
    ensures
        r matches Ok(s) && s@ == compose_spec(
            sections.state@,
            sections.template@,
            sections.document@,
            sections.images@,
        ),
{
    let mut out: Vec<char> = Vec::new();
    push_str(&mut out, markers::STATE);
    out.push('\n');
    push_str(&mut out, sections.state.as_str());
    out.push('\n');
    out.push('\n');
    push_str(&mut out, markers::TEMPLATE);
    out.push('\n');
    push_str(&mut out, sections.template.as_str());
    out.push('\n');
    out.push('\n');
    push_str(&mut out, markers::DOCUMENT);
    out.push('\n');
    push_str(&mut out, sections.document.as_str());
    out.push('\n');
    out.push('\n');
    push_str(&mut out, markers::IMAGES);
    out.push('\n');
    push_str(&mut out, sections.images.as_str());
    out.push('\n');
    assert(out@ =~= compose_spec(
        sections.state@,
        sections.template@,
        sections.document@,
        sections.images@,
    ));
    Ok(string_of(out.as_slice()))
}

/// The first line of `ls` at or after `from` that is non-empty once trailing
/// whitespace is removed, trimmed.
pub open spec fn first_nonblank(ls: Seq<Seq<char>>, from: int) -> Option<Seq<char>>
    decreases ls.len() - from,
{
    if from < 0 || from >= ls.len() {
        None
    } else if trim_end(ls[from]).len() != 0 {
        Some(trim_end(ls[from]))
    } else {
        first_nonblank(ls, from + 1)
    }
}

/// The first non-blank line of `src` (trailing whitespace removed) is the
/// STATE marker.
pub open spec fn is_four_section_spec(src: Seq<char>) -> bool {
    first_nonblank(lines(src), 0) == Some(markers::STATE@)
}

/// Whether `src` is a four-section authoring fat file: its first non-empty
/// line is the `// === STATE ===` marker.
pub fn is_four_section(src: &str) -> (b: bool)
    ensures
        b == is_four_section_spec(src@),
{
    let cs = chars_of(src);
    let ls = lines_of(cs.as_slice());
    let state = chars_of(markers::STATE);
    let mut i: usize = 0;
    while i < ls.len()
        invariant
            i <= ls@.len(),
            views(ls@) == lines(src@),
            state@ == markers::STATE@,
            first_nonblank(views(ls@), 0) == first_nonblank(views(ls@), i as int),
        decreases ls@.len() - i,
    {
        let n = trim_end_len(ls[i].as_slice());
        if n != 0 {
            proof {
                assert(views(ls@)[i as int] == ls@[i as int]@);
            }
            return range_eq(ls[i].as_slice(), 0, n, state.as_slice());
        }
        proof {
            assert(views(ls@)[i as int] == ls@[i as int]@);
        }
        i = i + 1;
    }
    false
}

/// The index of the first line at or after `from` that equals `m` once
/// trailing whitespace is removed.
pub open spec fn marker_index(ls: Seq<Seq<char>>, m: Seq<char>, from: int) -> Option<int>
    decreases ls.len() - from,
{
    if from < 0 || from >= ls.len() {
        None
    } else if trim_end(ls[from]) == m {
        Some(from)
    } else {
        marker_index(ls, m, from + 1)
    }
}

/// The lines strictly between marker lines `a` and `b`, without the single
/// blank separator line that precedes the next marker.
pub open spec fn section_lines(ls: Seq<Seq<char>>, a: int, b: int) -> Seq<Seq<char>> {
    let sec = ls.subrange(a + 1, b);
    if sec.len() > 0 && sec.last().len() == 0 {
        sec.drop_last()
    } else {
        sec
    }
}

/// A section body: its lines joined with `\n`.
pub open spec fn section_body(ls: Seq<Seq<char>>, a: int, b: int) -> Seq<char> {
    join(section_lines(ls, a, b), seq!['\n'])
}

/// The body of the last section, after marker line `d`: every remaining
/// line joined with `\n`. No separator line follows it; the newline that
/// ends the text only ends its last line.
pub open spec fn last_section_body(ls: Seq<Seq<char>>, d: int) -> Seq<char> {
    join(ls.subrange(d + 1, ls.len() as int), seq!['\n'])
}

/// What [`extract`] yields for `src`: the four bodies, or the first marker
/// that is missing (or out of order).
pub open spec fn extract_spec(src: Seq<char>) -> Result<
    (Seq<char>, Seq<char>, Seq<char>, Seq<char>),
    Seq<char>,
> {
    let ls = lines(src);
    match marker_index(ls, markers::STATE@, 0) {
        None => Err(markers::STATE@),
        Some(a) => match marker_index(ls, markers::TEMPLATE@, a + 1) {
            None => Err(markers::TEMPLATE@),
            Some(b) => match marker_index(ls, markers::DOCUMENT@, b + 1) {
                None => Err(markers::DOCUMENT@),
                Some(c) => match marker_index(ls, markers::IMAGES@, c + 1) {
                    None => Err(markers::IMAGES@),
                    Some(d) => Ok(
                        (
                            section_body(ls, a, b),
                            section_body(ls, b, c),
                            section_body(ls, c, d),
                            last_section_body(ls, d),
                        ),
                    ),
                },
            },
        },
    }
}

/// The message reported when marker `m` is missing or out of order.
pub open spec fn missing_marker_message(m: Seq<char>) -> Seq<char> {
    "missing or out-of-order section marker: \""@ + m + "\""@
}

/// Find the first line at or after `from` whose trimmed text is `m`.
fn find_marker(ls: &Vec<Vec<char>>, m: &[char], from: usize) -> (r: Option<usize>)
    ensures
        match r {
            Some(i) => marker_index(views(ls@), m@, from as int) == Some(i as int) && i
                < ls@.len(),
            None => marker_index(views(ls@), m@, from as int) is None,
        },
{
    let mut i = from;
    while i < ls.len()
        invariant
            from <= i,
            marker_index(views(ls@), m@, from as int) == marker_index(views(ls@), m@, i as int),
        decreases ls@.len() - i,
    {
        let n = trim_end_len(ls[i].as_slice());
        proof {
            assert(views(ls@)[i as int] == ls@[i as int]@);
        }
        if range_eq(ls[i].as_slice(), 0, n, m) {
            return Some(i);
        }
        i = i + 1;
    }
    None
}

/// The body of the section between marker lines `a` and `b`.
fn section_body_exec(ls: &Vec<Vec<char>>, a: usize, b: usize) -> (r: String)
    requires
        a < b <= ls@.len(),
    ensures
        r@ == section_body(views(ls@), a as int, b as int),
{
    let mut end = b;
    if end > a + 1 && ls[end - 1].len() == 0 {
        end = end - 1;
    }
    let nl: Vec<char> = vec!['\n'];
    assert(nl@ =~= seq!['\n']);
    let joined = join_range(ls.as_slice(), a + 1, end, nl.as_slice());
    proof {
        let sec = views(ls@).subrange(a + 1, b as int);
        if sec.len() > 0 && sec.last().len() == 0 {
            assert(sec.drop_last() =~= views(ls@.subrange(a + 1, end as int)));
        } else {
            assert(sec =~= views(ls@.subrange(a + 1, end as int)));
        }
    }
    string_of(joined.as_slice())
}

/// The body of the last section, after marker line `d`.
fn last_section_body_exec(ls: &Vec<Vec<char>>, d: usize) -> (r: String)
    requires
        d < ls@.len(),
    ensures
        r@ == last_section_body(views(ls@), d as int),
{
    let nl: Vec<char> = vec!['\n'];
    assert(nl@ =~= seq!['\n']);
    assert(ls@.len() == ls.len());
    let joined = join_range(ls.as_slice(), d + 1, ls.len(), nl.as_slice());
    proof {
        assert(views(ls@).subrange(d + 1, ls@.len() as int) =~= views(ls@.subrange(d + 1, ls@.len() as int)));
    }
    string_of(joined.as_slice())
}

/// The error reported when marker `m` is missing or out of order.
fn missing_marker(m: &str) -> (e: Error)
    ensures
        e matches Error::FatFile(msg) && msg@ == missing_marker_message(m@),
{
    let mut out = chars_of("missing or out-of-order section marker: \"");
    push_str(&mut out, m);
    push_str(&mut out, "\"");
    Error::FatFile(string_of(out.as_slice()))
}

/// Extract the four logical sections from a composed fat file.
///
/// Section bodies are the lines between consecutive markers, without the
/// single blank separator line that [`compose`] emits before the next
/// marker; the last section (IMAGES) is every line after its marker, since
/// [`compose`] writes no separator after it. So `compose` followed by
/// `extract` gives the sections back. Markers must appear in the order
/// STATE, TEMPLATE, DOCUMENT, IMAGES.
pub fn extract(src: &str) -> (r: Result<FatFileSections, Error>)
    ensures
        match extract_spec(src@) {
            Ok(bodies) => r matches Ok(sections) && sections@ == bodies,
            Err(m) => r matches Err(Error::FatFile(msg)) && msg@ == missing_marker_message(m),
        },
{
    let cs = chars_of(src);
    let ls = lines_of(cs.as_slice());
    let m_state = chars_of(markers::STATE);
    let m_template = chars_of(markers::TEMPLATE);
    let m_document = chars_of(markers::DOCUMENT);
    let m_images = chars_of(markers::IMAGES);
    let a = match find_marker(&ls, m_state.as_slice(), 0) {
        Some(a) => a,
        None => return Err(missing_marker(markers::STATE)),
    };
    let b = match find_marker(&ls, m_template.as_slice(), a + 1) {
        Some(b) => b,
        None => return Err(missing_marker(markers::TEMPLATE)),
    };
    let c = match find_marker(&ls, m_document.as_slice(), b + 1) {
        Some(c) => c,
        None => return Err(missing_marker(markers::DOCUMENT)),
    };
    let d = match find_marker(&ls, m_images.as_slice(), c + 1) {
        Some(d) => d,
        None => return Err(missing_marker(markers::IMAGES)),
    };
    proof {
        lemma_marker_index_ge(views(ls@), m_template@, a + 1);
        lemma_marker_index_ge(views(ls@), m_document@, b + 1);
        lemma_marker_index_ge(views(ls@), m_images@, c + 1);
    }
    Ok(
        FatFileSections {
            state: section_body_exec(&ls, a, b),
            template: section_body_exec(&ls, b, c),
            document: section_body_exec(&ls, c, d),
            images: last_section_body_exec(&ls, d),
        },
    )
}

/// A marker index found from `from` lies at or after `from`.
pub proof fn lemma_marker_index_ge(ls: Seq<Seq<char>>, m: Seq<char>, from: int)
    ensures
        marker_index(ls, m, from) matches Some(i) ==> from <= i < ls.len(),
    decreases ls.len() - from,
{
    if from < 0 || from >= ls.len() {
    } else if trim_end(ls[from]) == m {
    } else {
        lemma_marker_index_ge(ls, m, from + 1);
    }
}

/// The name for the standard library's default hash of a string.
pub uninterp spec fn spec_content_hash(composed: Seq<char>) -> u64;

/// A stable content hash of the composed fat file, used for change detection.
///
/// Trusted: calls `BuildHasher::hash_one` with the standard library's
/// `DefaultHasher` (fixed keys); the contract only names the result, which
/// depends on the text alone.
#[verifier::external_body]
pub fn content_hash(composed: &str) -> (h: u64)
    ensures
        h == spec_content_hash(composed@),
{
    std::hash::BuildHasherDefault::<std::collections::hash_map::DefaultHasher>::default().hash_one(
        composed,
    )
}


// ---------------------------------------------------------------------------
// compose / extract round trip
// ---------------------------------------------------------------------------

/// No line of `x` ends in a carriage return that a line split would drop.
pub open spec fn keeps_line_ends(x: Seq<char>) -> bool {
    forall|i: int| 0 <= i < split_lf(x).len() ==> strip_cr(#[trigger] split_lf(x)[i]) == split_lf(x)[i]
}

/// No line of `x` reads as the marker `m` once trailing whitespace is removed.
pub open spec fn has_no_marker_line(x: Seq<char>, m: Seq<char>) -> bool {
    forall|i: int| 0 <= i < split_lf(x).len() ==> trim_end(#[trigger] split_lf(x)[i]) != m
}

/// The pieces of `x` with the line-end carriage return of each dropped.
pub open spec fn pieces(x: Seq<char>) -> Seq<Seq<char>> {
    split_lf(x).map_values(|p: Seq<char>| strip_cr(p))
}

/// A marker literal is one line, unchanged by trimming.
proof fn lemma_marker_line(m: Seq<char>)
    requires
        m.len() > 0,
        forall|i: int| 0 <= i < m.len() ==> m[i] != '\n' && m[i] != '\r',
        !is_ws(m.last()),
    ensures
        pieces(m) == seq![m],
        trim_end(m) == m,
        strip_cr(m) == m,
{
    lemma_split_lf_no_lf(m);
    assert(pieces(m) =~= seq![strip_cr(m)]);
}

/// The marker literals are single lines that trimming leaves alone.
proof fn lemma_markers()
    ensures
        pieces(markers::STATE@) == seq![markers::STATE@],
        pieces(markers::TEMPLATE@) == seq![markers::TEMPLATE@],
        pieces(markers::DOCUMENT@) == seq![markers::DOCUMENT@],
        pieces(markers::IMAGES@) == seq![markers::IMAGES@],
        trim_end(markers::STATE@) == markers::STATE@,
        trim_end(markers::TEMPLATE@) == markers::TEMPLATE@,
        trim_end(markers::DOCUMENT@) == markers::DOCUMENT@,
        trim_end(markers::IMAGES@) == markers::IMAGES@,
        markers::STATE@.len() > 0,
        markers::TEMPLATE@.len() > 0,
        markers::DOCUMENT@.len() > 0,
        markers::IMAGES@.len() > 0,
{
    reveal_strlit("// === STATE ===");
    reveal_strlit("// === TEMPLATE ===");
    reveal_strlit("// === DOCUMENT ===");
    reveal_strlit("// === IMAGES ===");
    lemma_marker_line(markers::STATE@);
    lemma_marker_line(markers::TEMPLATE@);
    lemma_marker_line(markers::DOCUMENT@);
    lemma_marker_line(markers::IMAGES@);
}

/// Skipping lines that are not the marker does not change the search.
proof fn lemma_marker_skip(ls: Seq<Seq<char>>, m: Seq<char>, from: int, to: int)
    requires
        0 <= from <= to <= ls.len(),
        forall|k: int| from <= k < to ==> trim_end(#[trigger] ls[k]) != m,
    ensures
        marker_index(ls, m, from) == marker_index(ls, m, to),
    decreases to - from,
{
    if from < to {
        lemma_marker_skip(ls, m, from + 1, to);
    }
}

/// The lines of a composed file: each marker, the lines of its section, and
/// a blank separator before the next marker.
#[verifier::rlimit(60)]
proof fn lemma_lines_compose(st: Seq<char>, tp: Seq<char>, dc: Seq<char>, im: Seq<char>)
    ensures
        lines(compose_spec(st, tp, dc, im)) == seq![markers::STATE@] + pieces(st) + seq![
            Seq::<char>::empty(),
        ] + seq![markers::TEMPLATE@] + pieces(tp) + seq![Seq::<char>::empty()] + seq![
            markers::DOCUMENT@,
        ] + pieces(dc) + seq![Seq::<char>::empty()] + seq![markers::IMAGES@] + pieces(im),
{
    let e = Seq::<char>::empty();
    let nl = seq!['\n'];
    let (ms, mt, md, mi) = (markers::STATE@, markers::TEMPLATE@, markers::DOCUMENT@, markers::IMAGES@);
    lemma_markers();
    lemma_split_lf_no_lf(e);
    assert(pieces(e) =~= seq![e]);
    let t10 = im + nl + e;
    let t9 = mi + nl + t10;
    let t8 = e + nl + t9;
    let t7 = dc + nl + t8;
    let t6 = md + nl + t7;
    let t5 = e + nl + t6;
    let t4 = tp + nl + t5;
    let t3 = mt + nl + t4;
    let t2 = e + nl + t3;
    let t1 = st + nl + t2;
    let t0 = ms + nl + t1;
    assert(compose_spec(st, tp, dc, im) =~= t0);
    assert(lines(e) =~= Seq::<Seq<char>>::empty());
    lemma_lines_cat(im, e);
    assert(lines(t10) =~= pieces(im));
    lemma_lines_cat(mi, t10);
    assert(lines(t9) =~= seq![mi] + pieces(im));
    lemma_lines_cat(e, t9);
    assert(lines(t8) =~= seq![e] + lines(t9));
    lemma_lines_cat(dc, t8);
    assert(lines(t7) =~= pieces(dc) + lines(t8));
    lemma_lines_cat(md, t7);
    assert(lines(t6) =~= seq![md] + lines(t7));
    lemma_lines_cat(e, t6);
    assert(lines(t5) =~= seq![e] + lines(t6));
    lemma_lines_cat(tp, t5);
    assert(lines(t4) =~= pieces(tp) + lines(t5));
    lemma_lines_cat(mt, t4);
    assert(lines(t3) =~= seq![mt] + lines(t4));
    lemma_lines_cat(e, t3);
    assert(lines(t2) =~= seq![e] + lines(t3));
    lemma_lines_cat(st, t2);
    assert(lines(t1) =~= pieces(st) + lines(t2));
    lemma_lines_cat(ms, t1);
    assert(lines(t0) =~= seq![ms] + lines(t1));
    assert(lines(t0) =~= seq![ms] + pieces(st) + seq![e] + seq![mt] + pieces(tp) + seq![e] + seq![
        md,
    ] + pieces(dc) + seq![e] + seq![mi] + pieces(im));
}

/// Pieces of a text without dropped carriage returns are its plain pieces.
proof fn lemma_pieces_plain(x: Seq<char>)
    requires
        keeps_line_ends(x),
    ensures
        pieces(x) == split_lf(x),
        join(pieces(x), seq!['\n']) == x,
        pieces(x).len() >= 1,
{
    assert(pieces(x) =~= split_lf(x));
    lemma_join_split_lf(x);
}

/// Extracting a composed file gives back the sections it was composed from,
/// provided no section holds a line that reads as the next section's marker
/// and no line of a section ends in a carriage return.
#[verifier::spinoff_prover]
#[verifier::rlimit(40)]
pub proof fn law_extract_compose(st: Seq<char>, tp: Seq<char>, dc: Seq<char>, im: Seq<char>)
    requires
        keeps_line_ends(st),
        keeps_line_ends(tp),
        keeps_line_ends(dc),
        keeps_line_ends(im),
        has_no_marker_line(st, markers::TEMPLATE@),
        has_no_marker_line(tp, markers::DOCUMENT@),
        has_no_marker_line(dc, markers::IMAGES@),
    ensures
        extract_spec(compose_spec(st, tp, dc, im)) == Ok::<_, Seq<char>>((st, tp, dc, im)),
{
    let e = Seq::<char>::empty();
    let (ms, mt, md, mi) = (markers::STATE@, markers::TEMPLATE@, markers::DOCUMENT@, markers::IMAGES@);
    lemma_markers();
    lemma_lines_compose(st, tp, dc, im);
    lemma_pieces_plain(st);
    lemma_pieces_plain(tp);
    lemma_pieces_plain(dc);
    lemma_pieces_plain(im);
    let ls = lines(compose_spec(st, tp, dc, im));
    let (ps, pt, pd, pi) = (split_lf(st), split_lf(tp), split_lf(dc), split_lf(im));
    let b: int = ps.len() as int + 2;
    let c: int = b + pt.len() + 2;
    let d: int = c + pd.len() + 2;
    assert(ls == seq![ms] + ps + seq![e] + seq![mt] + pt + seq![e] + seq![md] + pd + seq![e]
        + seq![mi] + pi);
    assert(ls.len() == d + 1 + pi.len());
    // STATE at line 0.
    assert(ls[0] == ms);
    // TEMPLATE at line b, nothing before it from line 1.
    assert forall|k: int| 1 <= k < b implies trim_end(#[trigger] ls[k]) != mt by {
        if k < b - 1 {
            assert(ls[k] == ps[k - 1]);
        } else {
            assert(ls[k] == e);
        }
    }
    assert(ls[b] == mt);
    lemma_marker_skip(ls, mt, 1, b as int);
    assert forall|k: int| b + 1 <= k < c implies trim_end(#[trigger] ls[k]) != md by {
        if k < c - 1 {
            assert(ls[k] == pt[k - b - 1]);
        } else {
            assert(ls[k] == e);
        }
    }
    assert(ls[c] == md);
    lemma_marker_skip(ls, md, b + 1, c as int);
    assert forall|k: int| c + 1 <= k < d implies trim_end(#[trigger] ls[k]) != mi by {
        if k < d - 1 {
            assert(ls[k] == pd[k - c - 1]);
        } else {
            assert(ls[k] == e);
        }
    }
    assert(ls[d] == mi);
    lemma_marker_skip(ls, mi, c + 1, d as int);
    assert(marker_index(ls, ms, 0) == Some(0int));
    assert(marker_index(ls, mt, 1) == Some(b as int));
    assert(marker_index(ls, md, b + 1) == Some(c as int));
    assert(marker_index(ls, mi, c + 1) == Some(d as int));
    // Section bodies.
    assert(ls.subrange(1, b as int) =~= ps + seq![e]);
    assert(section_lines(ls, 0, b as int) =~= ps);
    assert(ls.subrange(b + 1, c as int) =~= pt + seq![e]);
    assert(section_lines(ls, b as int, c as int) =~= pt);
    assert(ls.subrange(c + 1, d as int) =~= pd + seq![e]);
    assert(section_lines(ls, c as int, d as int) =~= pd);
    assert(ls.subrange(d + 1, ls.len() as int) =~= pi);
    assert(last_section_body(ls, d) == im);
    assert(section_body(ls, 0, b) == st);
    assert(section_body(ls, b, c) == tp);
    assert(section_body(ls, c, d) == dc);
}


/// A file that [`compose`] writes is detected as a four-section file: its
/// first line is the STATE marker.
pub proof fn law_compose_is_four_section(st: Seq<char>, tp: Seq<char>, dc: Seq<char>, im: Seq<char>)
    ensures
        is_four_section_spec(compose_spec(st, tp, dc, im)),
{
    lemma_markers();
    lemma_lines_compose(st, tp, dc, im);
    let ls = lines(compose_spec(st, tp, dc, im));
    assert(ls[0] == markers::STATE@);
}
/// Line `k` of `ls` reads as marker `m`.
pub open spec fn is_marker_line(ls: Seq<Seq<char>>, k: int, m: Seq<char>) -> bool {
    0 <= k < ls.len() && trim_end(ls[k]) == m
}

/// The four markers occur on lines in the order STATE, TEMPLATE, DOCUMENT,
/// IMAGES.
pub open spec fn markers_in_order(ls: Seq<Seq<char>>) -> bool {
    exists|i0: int, i1: int, i2: int, i3: int|
        #![trigger is_marker_line(ls, i0, markers::STATE@), is_marker_line(ls, i1, markers::TEMPLATE@), is_marker_line(ls, i2, markers::DOCUMENT@), is_marker_line(ls, i3, markers::IMAGES@)]
        i0 < i1 < i2 < i3 && is_marker_line(ls, i0, markers::STATE@) && is_marker_line(ls, i1, markers::TEMPLATE@)
            && is_marker_line(ls, i2, markers::DOCUMENT@) && is_marker_line(ls, i3, markers::IMAGES@)
}

/// The marker search finds a marker line, and finds one whenever there is
/// one at or after where it starts, no later than it.
proof fn lemma_marker_index_exact(ls: Seq<Seq<char>>, m: Seq<char>, from: int, k: int)
    requires
        0 <= from,
    ensures
        marker_index(ls, m, from) matches Some(j) ==> from <= j && is_marker_line(ls, j, m),
        from <= k && is_marker_line(ls, k, m) ==> (marker_index(ls, m, from) matches Some(j) && j <= k),
    decreases ls.len() - from,
{
    if from < ls.len() && trim_end(ls[from]) != m {
        lemma_marker_index_exact(ls, m, from + 1, k);
    }
}

/// Extracting fails exactly when the four markers do not occur on lines in
/// the order STATE, TEMPLATE, DOCUMENT, IMAGES.
pub proof fn law_extract_fails_iff_markers_missing(src: Seq<char>)
    ensures
        (extract_spec(src) is Err) <==> !markers_in_order(lines(src)),
{
    let ls = lines(src);
    let (ms, mt, md, mi) = (markers::STATE@, markers::TEMPLATE@, markers::DOCUMENT@, markers::IMAGES@);
    if markers_in_order(ls) {
        let (i0, i1, i2, i3) = choose|i0: int, i1: int, i2: int, i3: int|
            #![trigger is_marker_line(ls, i0, ms), is_marker_line(ls, i1, mt), is_marker_line(ls, i2, md), is_marker_line(ls, i3, mi)]
            i0 < i1 < i2 < i3 && is_marker_line(ls, i0, ms) && is_marker_line(ls, i1, mt) && is_marker_line(ls, i2, md)
                && is_marker_line(ls, i3, mi);
        lemma_marker_index_exact(ls, ms, 0, i0);
        let a = marker_index(ls, ms, 0)->Some_0;
        lemma_marker_index_exact(ls, mt, a + 1, i1);
        let b = marker_index(ls, mt, a + 1)->Some_0;
        lemma_marker_index_exact(ls, md, b + 1, i2);
        let c = marker_index(ls, md, b + 1)->Some_0;
        lemma_marker_index_exact(ls, mi, c + 1, i3);
    } else {
        lemma_marker_index_exact(ls, ms, 0, 0);
        if let Some(a) = marker_index(ls, ms, 0) {
            lemma_marker_index_exact(ls, mt, a + 1, 0);
            if let Some(b) = marker_index(ls, mt, a + 1) {
                lemma_marker_index_exact(ls, md, b + 1, 0);
                if let Some(c) = marker_index(ls, md, b + 1) {
                    lemma_marker_index_exact(ls, mi, c + 1, 0);
                    if let Some(d) = marker_index(ls, mi, c + 1) {
                        assert(is_marker_line(ls, a, ms) && is_marker_line(ls, b, mt) && is_marker_line(ls, c, md)
                            && is_marker_line(ls, d, mi));
                        assert(markers_in_order(ls));
                    }
                }
            }
        }
    }
}

} // verus!
