//! The entry document format: named Typst entries with blake3 hashes.
//!
//! An entry document is a line-oriented text that bundles named Typst
//! building blocks (components, templates) into one managed file. Each entry
//! is delimited by `NDOC-ENTRY` / `NDOC-END` marker comments; the hash stored
//! in the start marker lets callers detect changed entries without
//! re-reading their content.
//!
//! ```text
//! // ndoc document v1
//! // === NDOC-ENTRY: {name} kind={component|template} hash={64-hex} ===
//! {opaque Typst content}
//! // === NDOC-END: {name} ===
//! ```
use vstd::prelude::*;
use vstd::utf8::encode_utf8;

use crate::error::Error;
use crate::fatfile::keeps_line_ends;
use crate::text::{
    chars_eq, chars_of, find_char, find_char_from, is_prefix, is_suffix, join, join_range,
    lemma_find_from_sound, lemma_join_split_lf, lemma_lines_cat, lemma_occurs_char,
    lemma_split_lf_no_lf, lines, lines_of, message_debug, occurs_at, push_all, push_str, range_eq,
    slice_vec, spec_debug_str, split_lf, string_of, strip_cr, views,
};

verus! {

/// The first line of every entry document.
pub const DOCUMENT_HEADER: &'static str = "// ndoc document v1";

/// Opens an entry's start marker line.
pub const ENTRY_PREFIX: &'static str = "// === NDOC-ENTRY: ";

/// Closes both marker lines.
pub const ENTRY_SUFFIX: &'static str = " ===";

/// Opens an entry's end marker line.
pub const END_PREFIX: &'static str = "// === NDOC-END: ";

/// Whether an entry holds a component definition or a template.
#[derive(Debug, Clone, Copy, PartialEq, Eq, Structural)]
pub enum EntryKind {
    Component,
    Template,
}

/// The name of a kind as written in a start marker.
pub open spec fn kind_text(k: EntryKind) -> Seq<char> {
    match k {
        EntryKind::Component => "component"@,
        EntryKind::Template => "template"@,
    }
}

/// The kind a marker word names, if any.
pub open spec fn kind_of(s: Seq<char>) -> Option<EntryKind> {
    if s == "component"@ {
        Some(EntryKind::Component)
    } else if s == "template"@ {
        Some(EntryKind::Template)
    } else {
        None
    }
}

/// The message for a word that names no kind.
pub open spec fn unknown_kind_message(s: Seq<char>) -> Seq<char> {
    "unknown entry kind: "@ + spec_debug_str(s)
}

impl EntryKind {
    /// The marker word of this kind.
    pub fn as_str(&self) -> (s: &'static str)
        ensures
            s@ == kind_text(*self),
    {
        match self {
            EntryKind::Component => "component",
            EntryKind::Template => "template",
        }
    }

    /// The marker word of this kind, as an owned string.
    pub fn to_string(&self) -> (s: String)
        ensures
            s@ == kind_text(*self),
    {
        let c = chars_of(self.as_str());
        string_of(c.as_slice())
    }

    /// Parse a marker word; anything but `component` or `template` is a
    /// [`Error::FatFile`].
    pub fn parse(s: &str) -> (r: Result<EntryKind, Error>)
        ensures
            match r {
                Ok(k) => kind_of(s@) == Some(k),
                Err(e) => kind_of(s@) is None && e is FatFile && e->FatFile_0@ == unknown_kind_message(
                    s@,
                ),
            },
    {
        let c = chars_of(s);
        parse_kind_chars(c.as_slice())
    }
}

/// Parse a marker word held as characters.
fn parse_kind_chars(c: &[char]) -> (r: Result<EntryKind, Error>)
    ensures
        match r {
            Ok(k) => kind_of(c@) == Some(k),
            Err(e) => kind_of(c@) is None && e is FatFile && e->FatFile_0@ == unknown_kind_message(c@),
        },
{
    let comp = chars_of("component");
    let tmpl = chars_of("template");
    if chars_eq(c, comp.as_slice()) {
        Ok(EntryKind::Component)
    } else if chars_eq(c, tmpl.as_slice()) {
        Ok(EntryKind::Template)
    } else {
        Err(Error::FatFile(message_debug("unknown entry kind: ", c)))
    }
}

// ---------------------------------------------------------------------------
// Entry hashes.
// ---------------------------------------------------------------------------

/// The blake3 digest of a byte string: 32 bytes.
pub uninterp spec fn spec_blake3(bytes: Seq<u8>) -> [u8; 32];

/// The lowercase hexadecimal digit of a value below 16.
pub open spec fn hex_digit(v: int) -> char {
    if v < 10 {
        (48 + v) as char
    } else {
        (97 + v - 10) as char
    }
}

/// Bytes in lowercase hexadecimal: two digits each, the high half first.
pub open spec fn hex_text(bs: Seq<u8>) -> Seq<char> {
    Seq::new(
        bs.len() * 2,
        |i: int|
            if i % 2 == 0 {
                hex_digit(bs[i / 2] as int / 16)
            } else {
                hex_digit(bs[i / 2] as int % 16)
            },
    )
}

/// The blake3 digest of a byte string, in lowercase hexadecimal.
pub open spec fn spec_blake3_hex(bytes: Seq<u8>) -> Seq<char> {
    hex_text(spec_blake3(bytes)@)
}

/// The hash stored for an entry: the digest of its content's UTF-8 bytes.
pub open spec fn entry_digest(content: Seq<char>) -> Seq<char> {
    spec_blake3_hex(encode_utf8(content))
}

/// `h` is 64 lowercase hexadecimal digits.
pub open spec fn is_hex_digest(h: Seq<char>) -> bool {
    h.len() == 64 && forall|i: int|
        0 <= i < h.len() ==> ('0' <= #[trigger] h[i] <= '9' || 'a' <= h[i] <= 'f')
}

/// Every blake3 digest, written in hexadecimal, is 64 lowercase hexadecimal
/// digits.
pub proof fn lemma_digest_is_hex(bytes: Seq<u8>)
    ensures
        is_hex_digest(spec_blake3_hex(bytes)),
{
    let d = spec_blake3(bytes)@;
    assert(d.len() == 32);
    let h = spec_blake3_hex(bytes);
    assert forall|i: int| 0 <= i < h.len() implies ('0' <= #[trigger] h[i] <= '9' || 'a' <= h[i] <= 'f') by {
        let b = d[i / 2] as int;
        assert(0 <= b / 16 < 16 && 0 <= b % 16 < 16);
    }
}

/// The 64-character lowercase blake3 hex digest of `bytes`.
///
/// Trusted: calls `blake3::hash` and `Hash::to_hex`. The contract names the
/// 32-byte digest (a function of the bytes alone) and states how `to_hex`
/// writes it: each byte as two lowercase hexadecimal digits, high half
/// first.
#[verifier::external_body]
pub(crate) fn blake3_hex(bytes: &[u8]) -> (h: String)
    ensures
        h@ == hex_text(spec_blake3(bytes@)@),
{
    blake3::hash(bytes).to_hex().to_string()
}

/// The 64-character lowercase blake3 hex digest of `content`'s UTF-8 bytes.
pub fn compute_entry_hash(content: &str) -> (h: String)
    ensures
        h@ == entry_digest(content@),
        is_hex_digest(h@),
{
    proof {
        lemma_digest_is_hex(encode_utf8(content@));
    }
    blake3_hex(content.as_bytes())
}

// ---------------------------------------------------------------------------
// Start-marker lines.
// ---------------------------------------------------------------------------

/// `s` split at its first space: the text before it, and the text after it
/// if there is a space.
pub open spec fn split_space(s: Seq<char>) -> (Seq<char>, Option<Seq<char>>) {
    match find_char(s, ' ') {
        Some(i) => (s.subrange(0, i), Some(s.subrange(i + 1, s.len() as int))),
        None => (s, None),
    }
}

/// The name, kind and stored hash a start-marker line declares, or the
/// message that rejects it. The text between the prefix and suffix is split
/// at its first two spaces: name, `kind=` token, and `hash=` remainder.
pub open spec fn header_fields(line: Seq<char>) -> Result<(Seq<char>, EntryKind, Seq<char>), Seq<char>> {
    let p = ENTRY_PREFIX@;
    let x = ENTRY_SUFFIX@;
    if !(is_prefix(p, line) && is_suffix(x, line.subrange(p.len() as int, line.len() as int))) {
        Err("malformed NDOC-ENTRY marker: "@ + spec_debug_str(line))
    } else {
        let inner = line.subrange(p.len() as int, line.len() - x.len());
        let (name, rest1) = split_space(inner);
        if name.len() == 0 {
            Err("missing entry name in: "@ + spec_debug_str(inner))
        } else {
            match rest1 {
                None => Err("missing kind= in: "@ + spec_debug_str(inner)),
                Some(r1) => {
                    let (kind_tok, rest2) = split_space(r1);
                    if !is_prefix("kind="@, kind_tok) {
                        Err("malformed kind token: "@ + spec_debug_str(kind_tok))
                    } else {
                        let word = kind_tok.subrange(5, kind_tok.len() as int);
                        match kind_of(word) {
                            None => Err(unknown_kind_message(word)),
                            Some(k) => match rest2 {
                                None => Err("missing hash= in: "@ + spec_debug_str(inner)),
                                Some(h) => if !is_prefix("hash="@, h) {
                                    Err("malformed hash token: "@ + spec_debug_str(h))
                                } else {
                                    Ok((name, k, h.subrange(5, h.len() as int)))
                                },
                            },
                        }
                    }
                },
            }
        }
    }
}

/// Split `s[from..]` at its first space: the end of the first token, and
/// where the rest starts if there is a space.
fn split_space_at(s: &[char], from: usize) -> (r: (usize, Option<usize>))
    requires
        from <= s@.len(),
    ensures
        ({
            let t = s@.subrange(from as int, s@.len() as int);
            let (a, b) = split_space(t);
            &&& from <= r.0 <= s@.len()
            &&& a == s@.subrange(from as int, r.0 as int)
            &&& match r.1 {
                Some(k) => k == r.0 + 1 && k <= s@.len() && b == Some(
                    s@.subrange(k as int, s@.len() as int),
                ),
                None => r.0 == s@.len() && b is None,
            }
        }),
{
    let ghost t = s@.subrange(from as int, s@.len() as int);
    let _len = s.len();
    let found = find_char_from(s, ' ', from);
    proof {
        crate::text::lemma_find_shift(s@, seq![' '], from as int, from as int);
        lemma_find_from_sound(s@, seq![' '], from as int);
    }
    match found {
        Some(i) => {
            proof {
                lemma_occurs_char(s@, ' ', i as int);
                assert(i < s@.len());
                assert(t.subrange(0, i - from) =~= s@.subrange(from as int, i as int));
                assert(t.subrange(i - from + 1, t.len() as int) =~= s@.subrange(
                    i + 1,
                    s@.len() as int,
                ));
            }
            (i, Some(i + 1))
        },
        None => {
            proof {
                assert(t =~= s@.subrange(from as int, s@.len() as int));
            }
            (s.len(), None)
        },
    }
}

/// A [`Error::FatFile`] whose message is `prefix` then the `Debug` form of
/// `s[from..to]`.
fn fat_error_debug(prefix: &str, s: &[char], from: usize, to: usize) -> (e: Error)
    requires
        from <= to <= s@.len(),
    ensures
        e is FatFile && e->FatFile_0@ == prefix@ + spec_debug_str(s@.subrange(from as int, to as int)),
{
    let part = slice_vec(s, from, to);
    Error::FatFile(message_debug(prefix, part.as_slice()))
}

/// Parse the name, `kind=` and `hash=` attributes of a start-marker line.
fn parse_entry_header(line: &[char]) -> (r: Result<(String, EntryKind, String), Error>)
    ensures
        match r {
            Ok((n, k, h)) => header_fields(line@) == Ok::<_, Seq<char>>((n@, k, h@)),
            Err(e) => header_fields(line@) matches Err(m) && e is FatFile && e->FatFile_0@ == m,
        },
{
    let p = chars_of(ENTRY_PREFIX);
    let x = chars_of(ENTRY_SUFFIX);
    let n = line.len();
    let ok_shape = p.len() <= n && range_eq(line, 0, p.len(), p.as_slice()) && x.len() <= n
        - p.len() && range_eq(line, n - x.len(), n, x.as_slice());
    proof {
        assert(line@.subrange(0, n as int) =~= line@);
        let after = line@.subrange(p@.len() as int, n as int);
        if p@.len() <= n && x@.len() <= n - p@.len() {
            assert(after.subrange(after.len() - x@.len(), after.len() as int) =~= line@.subrange(
                n - x@.len(),
                n as int,
            ));
        }
    }
    if !ok_shape {
        return Err(fat_error_debug("malformed NDOC-ENTRY marker: ", line, 0, n));
    }
    let a = p.len();
    let b = n - x.len();
    let inner = slice_vec(line, a, b);
    let ghost iv = inner@;
    proof {
        assert(line@.subrange(0, n as int) =~= line@);
    }
    let (e1, r1) = split_space_at(inner.as_slice(), 0);
    proof {
        assert(iv.subrange(0, iv.len() as int) =~= iv);
    }
    if e1 == 0 {
        return Err(fat_error_debug("missing entry name in: ", inner.as_slice(), 0, inner.len()));
    }
    let k1 = match r1 {
        None => {
            return Err(fat_error_debug("missing kind= in: ", inner.as_slice(), 0, inner.len()));
        },
        Some(k1) => k1,
    };
    let (e2, r2) = split_space_at(inner.as_slice(), k1);
    let kw = chars_of("kind=");
    proof {
        reveal_strlit("kind=");
        reveal_strlit("hash=");
    }
    let kind_ok = e2 - k1 >= kw.len() && range_eq(inner.as_slice(), k1, k1 + kw.len(), kw.as_slice());
    proof {
        let tok = iv.subrange(k1 as int, e2 as int);
        if e2 - k1 >= kw@.len() {
            assert(tok.subrange(0, kw@.len() as int) =~= iv.subrange(k1 as int, k1 + kw@.len()));
        }
    }
    if !kind_ok {
        return Err(fat_error_debug("malformed kind token: ", inner.as_slice(), k1, e2));
    }
    let word = slice_vec(inner.as_slice(), k1 + 5, e2);
    proof {
        reveal_strlit("kind=");
        let tok = iv.subrange(k1 as int, e2 as int);
        assert(word@ =~= tok.subrange(5, tok.len() as int));
    }
    let kind = match parse_kind_chars(word.as_slice()) {
        Ok(k) => k,
        Err(e) => {
            return Err(e);
        },
    };
    let k2 = match r2 {
        None => {
            return Err(fat_error_debug("missing hash= in: ", inner.as_slice(), 0, inner.len()));
        },
        Some(k2) => k2,
    };
    let hw = chars_of("hash=");
    let m = inner.len();
    let hash_ok = m - k2 >= hw.len() && range_eq(inner.as_slice(), k2, k2 + hw.len(), hw.as_slice());
    proof {
        let tok = iv.subrange(k2 as int, m as int);
        if m - k2 >= hw@.len() {
            assert(tok.subrange(0, hw@.len() as int) =~= iv.subrange(k2 as int, k2 + hw@.len()));
        }
    }
    if !hash_ok {
        return Err(fat_error_debug("malformed hash token: ", inner.as_slice(), k2, m));
    }
    let name = slice_vec(inner.as_slice(), 0, e1);
    let hash = slice_vec(inner.as_slice(), k2 + 5, m);
    proof {
        reveal_strlit("hash=");
        let tok = iv.subrange(k2 as int, m as int);
        assert(hash@ =~= tok.subrange(5, tok.len() as int));
    }
    Ok((string_of(name.as_slice()), kind, string_of(hash.as_slice())))
}

// ---------------------------------------------------------------------------
// Entries and documents.
// ---------------------------------------------------------------------------

/// A named entry inside an [`NdocDocument`].
#[derive(Debug, Clone, PartialEq, Eq)]
pub struct NdocEntry {
    /// Unique name within the document.
    pub name: String,
    pub kind: EntryKind,
    /// Raw Typst source content (no surrounding delimiters).
    pub content: String,
    /// Blake3 hex digest stored in the file's start marker.
    pub hash: String,
}

impl View for NdocEntry {
    type V = (Seq<char>, EntryKind, Seq<char>, Seq<char>);

    open spec fn view(&self) -> Self::V {
        (self.name@, self.kind, self.content@, self.hash@)
    }
}

impl NdocEntry {
    /// Whether the current `content` no longer matches the stored `hash`.
    pub fn is_content_changed(&self) -> (b: bool)
        ensures
            b == (entry_digest(self.content@) != self.hash@),
    {
        let h = compute_entry_hash(self.content.as_str());
        let hc = chars_of(h.as_str());
        let stored = chars_of(self.hash.as_str());
        !chars_eq(hc.as_slice(), stored.as_slice())
    }
}

/// An entry document: an ordered list of named [`NdocEntry`] values.
#[derive(Debug, Clone, PartialEq, Eq)]
pub struct NdocDocument {
    pub entries: Vec<NdocEntry>,
}

/// The views of a sequence of entries.
pub open spec fn entry_views(es: Seq<NdocEntry>) -> Seq<(Seq<char>, EntryKind, Seq<char>, Seq<char>)> {
    es.map_values(|e: NdocEntry| e@)
}

impl View for NdocDocument {
    type V = Seq<(Seq<char>, EntryKind, Seq<char>, Seq<char>)>;

    open spec fn view(&self) -> Self::V {
        entry_views(self.entries@)
    }
}

/// The start-marker line of an entry.
pub open spec fn header_line(name: Seq<char>, kind: EntryKind, hash: Seq<char>) -> Seq<char> {
    ENTRY_PREFIX@ + name + " kind="@ + kind_text(kind) + " hash="@ + hash + ENTRY_SUFFIX@
}

/// The end-marker line of an entry.
pub open spec fn end_line(name: Seq<char>) -> Seq<char> {
    END_PREFIX@ + name + ENTRY_SUFFIX@
}

/// The text of one entry, with the hash recomputed from its content.
pub open spec fn entry_text(e: (Seq<char>, EntryKind, Seq<char>, Seq<char>)) -> Seq<char> {
    header_line(e.0, e.1, entry_digest(e.2)) + seq!['\n'] + e.2 + seq!['\n'] + end_line(e.0)
        + seq!['\n']
}

/// The texts of the entries, in order.
pub open spec fn entries_text(es: Seq<(Seq<char>, EntryKind, Seq<char>, Seq<char>)>) -> Seq<char>
    decreases es.len(),
{
    if es.len() == 0 {
        seq![]
    } else {
        entries_text(es.drop_last()) + entry_text(es.last())
    }
}

/// The text [`NdocDocument::compose`] writes.
pub open spec fn compose_text(es: Seq<(Seq<char>, EntryKind, Seq<char>, Seq<char>)>) -> Seq<char> {
    DOCUMENT_HEADER@ + seq!['\n'] + entries_text(es)
}

/// The first index of a line equal to `target`.
pub open spec fn find_line(ls: Seq<Seq<char>>, target: Seq<char>) -> Option<int>
    decreases ls.len(),
{
    if ls.len() == 0 {
        None
    } else if ls[0] == target {
        Some(0)
    } else {
        match find_line(ls.drop_first(), target) {
            Some(j) => Some(j + 1),
            None => None,
        }
    }
}

/// The entries read from the lines that follow the header, or the message
/// that rejects them. Blank lines between entries are skipped; the content
/// of an entry is its lines up to its end marker, joined with `\n`.
pub open spec fn entries_from(ls: Seq<Seq<char>>) -> Result<Seq<(Seq<char>, EntryKind, Seq<char>, Seq<char>)>, Seq<char>>
    decreases ls.len(),
{
    if ls.len() == 0 {
        Ok(seq![])
    } else {
        let line = ls[0];
        if is_prefix(ENTRY_PREFIX@, line) && is_suffix(ENTRY_SUFFIX@, line) {
            match header_fields(line) {
                Err(m) => Err(m),
                Ok((name, kind, hash)) => {
                    let body = ls.drop_first();
                    match find_line(body, end_line(name)) {
                        Some(j) => if 0 <= j < body.len() {
                            match entries_from(body.subrange(j + 1, body.len() as int)) {
                                Err(m) => Err(m),
                                Ok(rest) => Ok(
                                    seq![(name, kind, join(body.subrange(0, j), seq!['\n']), hash)]
                                        + rest,
                                ),
                            }
                        } else {
                            Err(seq![])
                        },
                        None => Err("missing NDOC-END marker for entry "@ + spec_debug_str(name)),
                    }
                },
            }
        } else if line.len() == 0 {
            entries_from(ls.drop_first())
        } else {
            Err("unexpected line in document: "@ + spec_debug_str(line))
        }
    }
}

/// What [`NdocDocument::parse`] gives for a text: its entries, or the
/// message of the [`Error::FatFile`] that rejects it.
pub open spec fn parse_spec(src: Seq<char>) -> Result<Seq<(Seq<char>, EntryKind, Seq<char>, Seq<char>)>, Seq<char>> {
    let ls = lines(src);
    if ls.len() == 0 {
        Err("empty document"@)
    } else if ls[0] != DOCUMENT_HEADER@ {
        Err("invalid document header: "@ + spec_debug_str(ls[0]))
    } else {
        entries_from(ls.drop_first())
    }
}

/// The index of the first line at or after `from` equal to `target`.
fn find_line_exec(ls: &Vec<Vec<char>>, target: &[char], from: usize) -> (r: Option<usize>)
    requires
        from <= ls@.len(),
    ensures
        match r {
            Some(j) => from <= j < ls@.len() && find_line(
                views(ls@).subrange(from as int, ls@.len() as int),
                target@,
            ) == Some(j - from),
            None => find_line(views(ls@).subrange(from as int, ls@.len() as int), target@) is None,
        },
    decreases ls@.len() - from,
{
    let ghost v = views(ls@).subrange(from as int, ls@.len() as int);
    if from == ls.len() {
        return None;
    }
    proof {
        assert(v.drop_first() =~= views(ls@).subrange(from + 1, ls@.len() as int));
    }
    if chars_eq(ls[from].as_slice(), target) {
        Some(from)
    } else {
        find_line_exec(ls, target, from + 1)
    }
}

impl NdocDocument {
    /// Create an empty document with no entries.
    pub fn new() -> (d: NdocDocument)
        ensures
            d@ == Seq::<(Seq<char>, EntryKind, Seq<char>, Seq<char>)>::empty(),
    {
        let d = NdocDocument { entries: Vec::new() };
        proof {
            assert(d@ =~= Seq::<(Seq<char>, EntryKind, Seq<char>, Seq<char>)>::empty());
        }
        d
    }

    /// Serialise the document to entry-document text.
    ///
    /// Hashes are recomputed from each entry's current content; the `hash`
    /// field stored on each entry is not used.
    pub fn compose(&self) -> (s: String)
        ensures
            s@ == compose_text(self@),
    {
        let mut out = chars_of(DOCUMENT_HEADER);
        out.push('\n');
        let mut i: usize = 0;
        while i < self.entries.len()
            invariant
                i <= self.entries@.len(),
                out@ == DOCUMENT_HEADER@ + seq!['\n'] + entries_text(self@.take(i as int)),
            decreases self.entries@.len() - i,
        {
            let entry = &self.entries[i];
            let hash = compute_entry_hash(entry.content.as_str());
            let ghost before = out@;
            push_str(&mut out, ENTRY_PREFIX);
            push_str(&mut out, entry.name.as_str());
            push_str(&mut out, " kind=");
            push_str(&mut out, entry.kind.as_str());
            push_str(&mut out, " hash=");
            push_str(&mut out, hash.as_str());
            push_str(&mut out, ENTRY_SUFFIX);
            out.push('\n');
            push_str(&mut out, entry.content.as_str());
            out.push('\n');
            push_str(&mut out, END_PREFIX);
            push_str(&mut out, entry.name.as_str());
            push_str(&mut out, ENTRY_SUFFIX);
            out.push('\n');
            proof {
                let es = self@;
                assert(es.take(i + 1).drop_last() =~= es.take(i as int));
                assert(es.take(i + 1).last() == entry@);
                assert(out@ =~= before + entry_text(entry@));
            }
            i = i + 1;
        }
        proof {
            assert(self@.take(self.entries@.len() as int) =~= self@);
        }
        string_of(out.as_slice())
    }
}

impl NdocDocument {
    /// Parse entry-document text.
    ///
    /// The stored hash is read verbatim from each entry's start marker; it is
    /// not recomputed. A text that is not a valid entry document is a
    /// [`Error::FatFile`].
    pub fn parse(src: &str) -> (r: Result<NdocDocument, Error>)
        ensures
            match r {
                Ok(d) => parse_spec(src@) == Ok::<_, Seq<char>>(d@),
                Err(e) => parse_spec(src@) matches Err(m) && e is FatFile && e->FatFile_0@ == m,
            },
    {
        let chars = chars_of(src);
        let ls = lines_of(chars.as_slice());
        let ghost lv = views(ls@);
        if ls.len() == 0 {
            return Err(Error::FatFile(string_of(chars_of("empty document").as_slice())));
        }
        let header = chars_of(DOCUMENT_HEADER);
        proof {
            assert(lv[0] == ls[0]@);
            assert(ls[0]@.subrange(0, ls[0]@.len() as int) =~= ls[0]@);
        }
        if !chars_eq(ls[0].as_slice(), header.as_slice()) {
            return Err(fat_error_debug("invalid document header: ", ls[0].as_slice(), 0, ls[0].len()));
        }
        proof {
            assert(ls[0]@.subrange(0, ls[0]@.len() as int) =~= ls[0]@);
            assert(lv.drop_first() =~= lv.subrange(1, lv.len() as int));
            assert(parse_spec(src@) == entries_from(lv.subrange(1, lv.len() as int)));
        }
        let n = ls.len();
        let mut entries: Vec<NdocEntry> = Vec::new();
        let mut i: usize = 1;
        let p = chars_of(ENTRY_PREFIX);
        let x = chars_of(ENTRY_SUFFIX);
        let ep = chars_of(END_PREFIX);
        while i < n
            invariant
                1 <= i <= n == ls@.len(),
                lv == views(ls@),
                parse_spec(src@) == entries_from(lv.subrange(1, n as int)),
                p@ == ENTRY_PREFIX@,
                x@ == ENTRY_SUFFIX@,
                ep@ == END_PREFIX@,
                entries_from(lv.subrange(1, n as int)) == match entries_from(
                    lv.subrange(i as int, n as int),
                ) {
                    Ok(rest) => Ok(entry_views(entries@) + rest),
                    Err(m) => Err::<Seq<(Seq<char>, EntryKind, Seq<char>, Seq<char>)>, Seq<char>>(m),
                },
            decreases n - i,
        {
            let ghost rest = lv.subrange(i as int, n as int);
            let line = ls[i].as_slice();
            let ln = line.len();
            proof {
                assert(lv[i as int] == ls@[i as int]@);
                assert(rest[0] == line@);
                assert(rest.drop_first() =~= lv.subrange(i + 1, n as int));
                assert(line@.subrange(0, ln as int) =~= line@);
            }
            let is_entry = p.len() <= ln && range_eq(line, 0, p.len(), p.as_slice()) && x.len() <= ln
                && range_eq(line, ln - x.len(), ln, x.as_slice());
            if is_entry {
                let (name, kind, hash) = match parse_entry_header(line) {
                    Ok(t) => t,
                    Err(e) => {
                        return Err(e);
                    },
                };
                let mut end = ep.clone();
                let nc = chars_of(name.as_str());
                push_all(&mut end, nc.as_slice());
                push_all(&mut end, x.as_slice());
                proof {
                    assert(end@ == end_line(name@));
                    assert(nc@.subrange(0, nc@.len() as int) =~= nc@);
                }
                let found = find_line_exec(&ls, end.as_slice(), i + 1);
                proof {
                    assert(rest.drop_first() =~= lv.subrange(i + 1, n as int));
                }
                let j = match found {
                    None => {
                        return Err(fat_error_debug("missing NDOC-END marker for entry ", nc.as_slice(), 0, nc.len()));
                    },
                    Some(j) => j,
                };
                let content = join_range(ls.as_slice(), i + 1, j, &['\n']);
                proof {
                    assert(nc@.subrange(0, nc@.len() as int) =~= nc@);
                    let body = rest.drop_first();
                    assert(body.subrange(0, j - i - 1) =~= views(ls@.subrange(i + 1, j as int)));
                    assert(body.subrange(j - i, body.len() as int) =~= lv.subrange(j + 1, n as int));
                    assert(seq!['\n'] == ['\n']@);
                }
                let entry = NdocEntry {
                    name,
                    kind,
                    content: string_of(content.as_slice()),
                    hash,
                };
                let ghost old_entries = entry_views(entries@);
                entries.push(entry);
                proof {
                    assert(entry_views(entries@) =~= old_entries + seq![entry@]);
                    match entries_from(lv.subrange(j + 1, n as int)) {
                        Ok(r2) => {
                            assert(old_entries + (seq![entry@] + r2) =~= entry_views(entries@) + r2);
                        },
                        Err(_) => {},
                    }
                }
                i = j + 1;
            } else if ln == 0 {
                i = i + 1;
            } else {
                return Err(fat_error_debug("unexpected line in document: ", line, 0, ln));
            }
        }
        proof {
            assert(lv.subrange(n as int, n as int) =~= Seq::<Seq<char>>::empty());
            assert(entry_views(entries@) + seq![] =~= entry_views(entries@));
        }
        Ok(NdocDocument { entries })
    }
}

// ---------------------------------------------------------------------------
// Compose / parse round trip.
// ---------------------------------------------------------------------------

/// `s` holds no `c`.
pub open spec fn lacks(s: Seq<char>, c: char) -> bool {
    forall|i: int| 0 <= i < s.len() ==> #[trigger] s[i] != c
}

proof fn lemma_literals()
    ensures
        lacks(ENTRY_PREFIX@, '\n'),
        lacks(ENTRY_SUFFIX@, '\n'),
        lacks(END_PREFIX@, '\n'),
        lacks(" kind="@, '\n'),
        lacks(" hash="@, '\n'),
        lacks("kind="@, ' '),
        lacks("component"@, ' '),
        lacks("template"@, ' '),
        lacks("component"@, '\n'),
        lacks("template"@, '\n'),
        lacks(DOCUMENT_HEADER@, '\n'),
        ENTRY_SUFFIX@.len() == 4,
        ENTRY_SUFFIX@.last() == '=',
        DOCUMENT_HEADER@.last() == '1',
        " kind="@ == seq![' '] + "kind="@,
        " hash="@ == seq![' '] + "hash="@,
        "kind="@.len() == 5,
        "hash="@.len() == 5,
        kind_of("component"@) == Some(EntryKind::Component),
        kind_of("template"@) == Some(EntryKind::Template),
{
    reveal_strlit("// === NDOC-ENTRY: ");
    reveal_strlit(" ===");
    reveal_strlit("// === NDOC-END: ");
    reveal_strlit(" kind=");
    reveal_strlit(" hash=");
    reveal_strlit("kind=");
    reveal_strlit("hash=");
    reveal_strlit("component");
    reveal_strlit("template");
    reveal_strlit("// ndoc document v1");
    assert("component"@[0] != "template"@[0]);
    assert(" kind="@ =~= seq![' '] + "kind="@);
    assert(" hash="@ =~= seq![' '] + "hash="@);
}

proof fn lemma_lacks_cat(a: Seq<char>, b: Seq<char>, c: char)
    requires
        lacks(a, c),
        lacks(b, c),
    ensures
        lacks(a + b, c),
{
    assert forall|i: int| 0 <= i < (a + b).len() implies #[trigger] (a + b)[i] != c by {
        if i < a.len() {
            assert((a + b)[i] == a[i]);
        } else {
            assert((a + b)[i] == b[i - a.len()]);
        }
    }
}

proof fn lemma_find_char_lacks(s: Seq<char>, c: char)
    requires
        lacks(s, c),
    ensures
        find_char(s, c) is None,
{
    assert forall|j: int| 0 <= j implies !occurs_at(s, seq![c], j) by {
        lemma_occurs_char(s, c, j);
    }
    crate::text::lemma_find_from_none(s, seq![c], 0);
}

/// Splitting `a + " " + b` at its first space, where `a` has none.
proof fn lemma_split_at_space(a: Seq<char>, b: Seq<char>)
    requires
        lacks(a, ' '),
    ensures
        split_space(a + seq![' '] + b) == (a, Some(b)),
{
    let s = a + seq![' '] + b;
    assert(s =~= a + (seq![' '] + b));
    lemma_find_char_lacks(a, ' ');
    crate::text::lemma_find_char_cat(a, seq![' '] + b, ' ');
    crate::text::lemma_find_char_cat(seq![' '], b, ' ');
    lemma_occurs_char(seq![' '], ' ', 0);
    crate::text::lemma_find_from_complete(seq![' '], seq![' '], 0, 0);
    assert(find_char(s, ' ') == Some(a.len() as int));
    assert(s.subrange(0, a.len() as int) =~= a);
    assert(s.subrange(a.len() + 1int, s.len() as int) =~= b);
}

/// A start-marker line written for `name`, `kind` and `hash` reads back as
/// those three fields.
proof fn lemma_header_fields(name: Seq<char>, kind: EntryKind, hash: Seq<char>)
    requires
        name.len() > 0,
        lacks(name, ' '),
        lacks(hash, ' '),
    ensures
        is_prefix(ENTRY_PREFIX@, header_line(name, kind, hash)),
        is_suffix(ENTRY_SUFFIX@, header_line(name, kind, hash)),
        header_fields(header_line(name, kind, hash)) == Ok::<_, Seq<char>>((name, kind, hash)),
{
    lemma_literals();
    let p = ENTRY_PREFIX@;
    let x = ENTRY_SUFFIX@;
    let kt = kind_text(kind);
    let tok = "kind="@ + kt;
    let r2 = "hash="@ + hash;
    let r1 = tok + seq![' '] + r2;
    let inner = name + seq![' '] + r1;
    let h = header_line(name, kind, hash);
    assert(h =~= p + inner + x);
    assert(h.subrange(0, p.len() as int) =~= p);
    let after = h.subrange(p.len() as int, h.len() as int);
    assert(after =~= inner + x);
    assert(after.subrange(after.len() - x.len(), after.len() as int) =~= x);
    assert(h.subrange(h.len() - x.len(), h.len() as int) =~= x);
    assert(h.subrange(p.len() as int, h.len() - x.len()) =~= inner);
    lemma_split_at_space(name, r1);
    assert(lacks(kt, ' '));
    lemma_lacks_cat("kind="@, kt, ' ');
    lemma_split_at_space(tok, r2);
    assert(tok.subrange(0, 5) =~= "kind="@);
    assert(tok.subrange(5, tok.len() as int) =~= kt);
    assert(r2.subrange(0, 5) =~= "hash="@);
    assert(r2.subrange(5, r2.len() as int) =~= hash);
}

/// The lines of an entry's text followed by more text: its start marker,
/// the pieces of its content, its end marker, then the lines of the rest.
proof fn lemma_entry_lines(e: (Seq<char>, EntryKind, Seq<char>, Seq<char>), more: Seq<char>)
    requires
        lacks(e.0, '\n'),
        lacks(entry_digest(e.2), '\n'),
        keeps_line_ends(e.2),
    ensures
        lines(entry_text(e) + more) == seq![header_line(e.0, e.1, entry_digest(e.2))] + split_lf(
            e.2,
        ) + seq![end_line(e.0)] + lines(more),
{
    lemma_literals();
    let nl = seq!['\n'];
    let h = header_line(e.0, e.1, entry_digest(e.2));
    let el = end_line(e.0);
    let c = e.2;
    assert(lacks(kind_text(e.1), '\n'));
    lemma_lacks_cat(ENTRY_PREFIX@, e.0, '\n');
    lemma_lacks_cat(ENTRY_PREFIX@ + e.0, " kind="@, '\n');
    lemma_lacks_cat(ENTRY_PREFIX@ + e.0 + " kind="@, kind_text(e.1), '\n');
    lemma_lacks_cat(ENTRY_PREFIX@ + e.0 + " kind="@ + kind_text(e.1), " hash="@, '\n');
    lemma_lacks_cat(
        ENTRY_PREFIX@ + e.0 + " kind="@ + kind_text(e.1) + " hash="@,
        entry_digest(e.2),
        '\n',
    );
    lemma_lacks_cat(
        ENTRY_PREFIX@ + e.0 + " kind="@ + kind_text(e.1) + " hash="@ + entry_digest(e.2),
        ENTRY_SUFFIX@,
        '\n',
    );
    lemma_lacks_cat(END_PREFIX@, e.0, '\n');
    lemma_lacks_cat(END_PREFIX@ + e.0, ENTRY_SUFFIX@, '\n');
    lemma_split_lf_no_lf(h);
    lemma_split_lf_no_lf(el);
    assert(h.last() == '=');
    assert(el.last() == '=');
    let t2 = el + nl + more;
    let t1 = c + nl + t2;
    let t0 = h + nl + t1;
    assert(entry_text(e) + more =~= t0);
    lemma_lines_cat(el, more);
    assert(split_lf(el).map_values(|q: Seq<char>| strip_cr(q)) =~= seq![el]);
    lemma_lines_cat(c, t2);
    assert(split_lf(c).map_values(|q: Seq<char>| strip_cr(q)) =~= split_lf(c));
    lemma_lines_cat(h, t1);
    assert(split_lf(h).map_values(|q: Seq<char>| strip_cr(q)) =~= seq![h]);
}

/// The end marker is found right after content lines that differ from it.
proof fn lemma_find_line_after(ps: Seq<Seq<char>>, t: Seq<char>, rest: Seq<Seq<char>>)
    requires
        forall|i: int| 0 <= i < ps.len() ==> #[trigger] ps[i] != t,
    ensures
        find_line(ps + seq![t] + rest, t) == Some(ps.len() as int),
    decreases ps.len(),
{
    let all = ps + seq![t] + rest;
    if ps.len() == 0 {
        assert(all[0] == t);
    } else {
        assert(all[0] == ps[0]);
        assert(all.drop_first() =~= ps.drop_first() + seq![t] + rest);
        lemma_find_line_after(ps.drop_first(), t, rest);
    }
}

/// The entries' text, taken from the front.
proof fn lemma_entries_text_front(es: Seq<(Seq<char>, EntryKind, Seq<char>, Seq<char>)>)
    requires
        es.len() > 0,
    ensures
        entries_text(es) == entry_text(es[0]) + entries_text(es.drop_first()),
    decreases es.len(),
{
    if es.len() == 1 {
        assert(es.drop_last() =~= Seq::<(Seq<char>, EntryKind, Seq<char>, Seq<char>)>::empty());
        assert(es.drop_first() =~= Seq::<(Seq<char>, EntryKind, Seq<char>, Seq<char>)>::empty());
        assert(entries_text(es.drop_last()) =~= Seq::<char>::empty());
        assert(es.last() == es[0]);
        assert(entries_text(es) =~= entry_text(es[0]));
        assert(entries_text(es.drop_first()) =~= Seq::<char>::empty());
        assert(entries_text(es) =~= entry_text(es[0]) + entries_text(es.drop_first()));
    } else {
        lemma_entries_text_front(es.drop_last());
        assert(es.drop_last().drop_first() =~= es.drop_first().drop_last());
        assert(es.drop_first().last() == es.last());
        assert(es.drop_last()[0] == es[0]);
        assert(entries_text(es.drop_first()) == entries_text(es.drop_first().drop_last())
            + entry_text(es.drop_first().last()));
        assert(entries_text(es) =~= entry_text(es[0]) + entries_text(es.drop_first()));
    }
}

/// The conditions under which an entry survives composing and parsing: a
/// non-empty name without spaces or line breaks, and content whose lines
/// keep their endings and none of which reads as the entry's end marker.
pub open spec fn entry_round_trips(e: (Seq<char>, EntryKind, Seq<char>, Seq<char>)) -> bool {
    &&& e.0.len() > 0
    &&& lacks(e.0, ' ')
    &&& lacks(e.0, '\n')
    &&& keeps_line_ends(e.2)
    &&& forall|i: int| 0 <= i < split_lf(e.2).len() ==> #[trigger] split_lf(e.2)[i] != end_line(e.0)
}

/// An entry with its stored hash replaced by the digest of its content.
pub open spec fn with_fresh_hash(e: (Seq<char>, EntryKind, Seq<char>, Seq<char>)) -> (Seq<char>, EntryKind, Seq<char>, Seq<char>) {
    (e.0, e.1, e.2, entry_digest(e.2))
}

/// The entries with their hashes recomputed.
pub open spec fn fresh_entries(es: Seq<(Seq<char>, EntryKind, Seq<char>, Seq<char>)>) -> Seq<(Seq<char>, EntryKind, Seq<char>, Seq<char>)> {
    es.map_values(|e: (Seq<char>, EntryKind, Seq<char>, Seq<char>)| with_fresh_hash(e))
}

#[verifier::spinoff_prover]
#[verifier::rlimit(50)]
proof fn lemma_entries_from_text(es: Seq<(Seq<char>, EntryKind, Seq<char>, Seq<char>)>)
    requires
        forall|i: int| 0 <= i < es.len() ==> entry_round_trips(#[trigger] es[i]),
    ensures
        entries_from(lines(entries_text(es))) == Ok::<_, Seq<char>>(
            es.map_values(|e: (Seq<char>, EntryKind, Seq<char>, Seq<char>)| with_fresh_hash(e)),
        ),
    decreases es.len(),
{
    let fresh = es.map_values(|e: (Seq<char>, EntryKind, Seq<char>, Seq<char>)| with_fresh_hash(e));
    if es.len() == 0 {
        assert(entries_text(es) =~= Seq::<char>::empty());
        assert(lines(entries_text(es)) =~= Seq::<Seq<char>>::empty());
        assert(fresh =~= Seq::<(Seq<char>, EntryKind, Seq<char>, Seq<char>)>::empty());
    } else {
        let e = es[0];
        assert(entry_round_trips(e));
        let hash = entry_digest(e.2);
        lemma_digest_is_hex(encode_utf8(e.2));
        assert forall|i: int| 0 <= i < hash.len() implies #[trigger] hash[i] != ' ' && hash[i] != '\n' by {
            assert('0' <= hash[i] <= '9' || 'a' <= hash[i] <= 'f');
        }
        assert(lacks(hash, ' '));
        assert(lacks(hash, '\n'));
        lemma_entries_text_front(es);
        let more = entries_text(es.drop_first());
        lemma_entry_lines(e, more);
        lemma_header_fields(e.0, e.1, hash);
        let h = header_line(e.0, e.1, hash);
        let ps = split_lf(e.2);
        let el = end_line(e.0);
        let ls = lines(entries_text(es));
        assert(ls == seq![h] + ps + seq![el] + lines(more));
        assert(ls[0] == h);
        let body = ls.drop_first();
        assert(body =~= ps + seq![el] + lines(more));
        lemma_find_line_after(ps, el, lines(more));
        assert(body.subrange(0, ps.len() as int) =~= ps);
        assert(body.subrange(ps.len() + 1int, body.len() as int) =~= lines(more));
        lemma_join_split_lf(e.2);
        assert forall|i: int| 0 <= i < es.drop_first().len() implies entry_round_trips(
            #[trigger] es.drop_first()[i],
        ) by {
            assert(es.drop_first()[i] == es[i + 1]);
        }
        lemma_entries_from_text(es.drop_first());
        assert(fresh =~= seq![with_fresh_hash(e)] + es.drop_first().map_values(
            |e: (Seq<char>, EntryKind, Seq<char>, Seq<char>)| with_fresh_hash(e),
        ));
    }
}

/// Parsing a composed document gives back its entries, each with the hash
/// recomputed from its content (so none of them reads as changed), provided
/// every entry survives the text format (see [`entry_round_trips`]); entries
/// whose hashes were computed from their contents come back unchanged.
pub proof fn law_parse_compose(es: Seq<(Seq<char>, EntryKind, Seq<char>, Seq<char>)>)
    requires
        forall|i: int| 0 <= i < es.len() ==> entry_round_trips(#[trigger] es[i]),
    ensures
        parse_spec(compose_text(es)) == Ok::<_, Seq<char>>(fresh_entries(es)),
        fresh_entries(es).len() == es.len(),
        forall|i: int|
            0 <= i < es.len() ==> (#[trigger] fresh_entries(es)[i]).3 == entry_digest(es[i].2),
        (forall|i: int| 0 <= i < es.len() ==> (#[trigger] es[i]).3 == entry_digest(es[i].2)) ==> parse_spec(
            compose_text(es),
        ) == Ok::<_, Seq<char>>(es),
{
    if forall|i: int| 0 <= i < es.len() ==> (#[trigger] es[i]).3 == entry_digest(es[i].2) {
        assert(fresh_entries(es) =~= es);
    }
    lemma_literals();
    let hd = DOCUMENT_HEADER@;
    lemma_split_lf_no_lf(hd);
    lemma_lines_cat(hd, entries_text(es));
    assert(split_lf(hd).map_values(|q: Seq<char>| strip_cr(q)) =~= seq![hd]);
    let ls = lines(compose_text(es));
    assert(ls == seq![hd] + lines(entries_text(es)));
    assert(ls[0] == hd);
    assert(ls.drop_first() =~= lines(entries_text(es)));
    lemma_entries_from_text(es);
}

/// Composing writes the entry-document header line and then each entry in
/// order, as its start marker (name, kind and the digest of its content),
/// its content and its end marker; the hash an entry carries is never read,
/// so two entry lists that agree on names, kinds and contents compose to the
/// same text.
pub proof fn law_compose_writes_entries(
    es: Seq<(Seq<char>, EntryKind, Seq<char>, Seq<char>)>,
    fs: Seq<(Seq<char>, EntryKind, Seq<char>, Seq<char>)>,
    e: (Seq<char>, EntryKind, Seq<char>, Seq<char>),
)
    ensures
        compose_text(Seq::empty()) == DOCUMENT_HEADER@ + seq!['\n'],
        compose_text(es.push(e)) == compose_text(es) + header_line(e.0, e.1, entry_digest(e.2)) + seq!['\n'] + e.2
            + seq!['\n'] + end_line(e.0) + seq!['\n'],
        es.len() == fs.len() && (forall|i: int|
            0 <= i < es.len() ==> (#[trigger] es[i]).0 == fs[i].0 && es[i].1 == fs[i].1 && es[i].2 == fs[i].2)
            ==> compose_text(es) == compose_text(fs),
    decreases es.len(),
{
    assert(entries_text(Seq::<(Seq<char>, EntryKind, Seq<char>, Seq<char>)>::empty()) =~= Seq::<char>::empty());
    assert(compose_text(Seq::empty()) =~= DOCUMENT_HEADER@ + seq!['\n']);
    assert(es.push(e).drop_last() =~= es);
    assert(compose_text(es.push(e)) =~= compose_text(es) + entry_text(e));
    if es.len() == fs.len() && (forall|i: int|
        0 <= i < es.len() ==> (#[trigger] es[i]).0 == fs[i].0 && es[i].1 == fs[i].1 && es[i].2 == fs[i].2) {
        if es.len() > 0 {
            let es1 = es.drop_last();
            let fs1 = fs.drop_last();
            assert forall|i: int| 0 <= i < es1.len() implies (#[trigger] es1[i]).0 == fs1[i].0 && es1[i].1 == fs1[i].1
                && es1[i].2 == fs1[i].2 by {
                assert(es1[i] == es[i] && fs1[i] == fs[i]);
            }
            law_compose_writes_entries(es1, fs1, e);
            assert(es[es.len() - 1].0 == fs[fs.len() - 1].0);
            assert(entry_text(es.last()) == entry_text(fs.last()));
            assert(entries_text(es) == entries_text(es1) + entry_text(es.last()));
            assert(entries_text(fs) == entries_text(fs1) + entry_text(fs.last()));
            assert(entries_text(es1) =~= compose_text(es1).subrange(DOCUMENT_HEADER@.len() + 1int, compose_text(es1).len() as int));
            assert(entries_text(fs1) =~= compose_text(fs1).subrange(DOCUMENT_HEADER@.len() + 1int, compose_text(fs1).len() as int));
        } else {
            assert(es =~= fs);
        }
    }
}

/// A composed entry document is never taken for a four-section file: its
/// first line is the entry-document header.
pub proof fn law_entry_document_is_not_four_section(es: Seq<(Seq<char>, EntryKind, Seq<char>, Seq<char>)>)
    ensures
        !crate::fatfile::is_four_section_spec(compose_text(es)),
{
    lemma_literals();
    let hd = DOCUMENT_HEADER@;
    lemma_split_lf_no_lf(hd);
    lemma_lines_cat(hd, entries_text(es));
    assert(split_lf(hd).map_values(|q: Seq<char>| strip_cr(q)) =~= seq![hd]);
    let ls = lines(compose_text(es));
    assert(ls == seq![hd] + lines(entries_text(es)));
    assert(ls[0] == hd);
    reveal_strlit("// ndoc document v1");
    reveal_strlit("// === STATE ===");
    assert(crate::text::trim_end(hd) == hd);
    assert(hd[3] != crate::fatfile::markers::STATE@[3]);
}

} // verus!
