//! The composed document format.
//!
//! A composed document is a single Typst-compilable file built from four
//! sections delimited by marker comments:
//!
//! ```text
//! /*===STATE-START===        <- block comment: JSON prelude + input blocks
//! ===STATE-END===*/
//! /*===IMAGES-START===       <- block comment: base64 image blobs by hash
//! ===IMAGES-END===*/
//! // ===TEMPLATE-START===    <- live Typst
//! // ===DOCUMENT-START===    <- live Typst
//! ```
//!
//! The STATE section holds a leading JSON prelude (read by the program into
//! a [`Prelude`]), a `<document-input>` block and one `<component-input>`
//! block per node; each block carries a `---`-fenced YAML frontmatter and
//! `<!-- start: name --> ... <!-- end -->` content blocks.
use vstd::prelude::*;

use crate::error::Error;
use crate::inputs::{entries, insert_input, is_sorted, map_get, map_insert, map_remove, remove_input};
use crate::model::ImageRef;
use crate::text::{
    chars_of, find, find_char, find_exec, find_from, find_from_exec, is_prefix, lemma_find_from_sound,
    lines, lines_of, occurs_at, push_all, slice_string, slice_vec, string_of, trim, trim_end_len,
    trim_start_pos, views,
};

verus! {

/// Opens the STATE section.
pub const STATE_START: &'static str = "/*===STATE-START===";
/// Closes the STATE section.
pub const STATE_END: &'static str = "===STATE-END===*/";
/// Opens the IMAGES section.
pub const IMAGES_START: &'static str = "/*===IMAGES-START===";
/// Closes the IMAGES section.
pub const IMAGES_END: &'static str = "===IMAGES-END===*/";
/// Closes one image blob in the IMAGES section.
pub const IMAGE_END_DELIM: &'static str = "---END---";

/// The first line of `ls` at or after `from` that is not blank once
/// trimmed, trimmed.
pub open spec fn first_trimmed(ls: Seq<Seq<char>>, from: int) -> Option<Seq<char>>
    decreases ls.len() - from,
{
    if from < 0 || from >= ls.len() {
        None
    } else if trim(ls[from]).len() != 0 {
        Some(trim(ls[from]))
    } else {
        first_trimmed(ls, from + 1)
    }
}

/// The first non-blank line of `src`, trimmed, is the STATE start marker.
pub open spec fn is_composed_spec(src: Seq<char>) -> bool {
    first_trimmed(lines(src), 0) == Some(STATE_START@)
}

/// `s` trimmed at both ends, as characters.
pub fn trim_chars(s: &[char]) -> (r: Vec<char>)
    ensures
        r@ == trim(s@),
{
    trim_exec(s)
}

/// `s` trimmed at both ends, as characters.
fn trim_exec(s: &[char]) -> (r: Vec<char>)
    ensures
        r@ == trim(s@),
{
    let k = trim_start_pos(s);
    let rest = slice_vec(s, k, s.len());
    let n = trim_end_len(rest.as_slice());
    slice_vec(rest.as_slice(), 0, n)
}

/// Whether `src` is a composed document: its first non-empty line is the
/// `/*===STATE-START===` marker.
pub fn is_composed(src: &str) -> (b: bool)
    ensures
        b == is_composed_spec(src@),
{
    let cs = chars_of(src);
    let ls = lines_of(cs.as_slice());
    let start = chars_of(STATE_START);
    let mut i: usize = 0;
    while i < ls.len()
        invariant
            i <= ls@.len(),
            views(ls@) == lines(src@),
            start@ == STATE_START@,
            first_trimmed(views(ls@), 0) == first_trimmed(views(ls@), i as int),
        decreases ls@.len() - i,
    {
        let t = trim_exec(ls[i].as_slice());
        proof {
            assert(views(ls@)[i as int] == ls@[i as int]@);
        }
        if t.len() != 0 {
            return crate::text::chars_eq(t.as_slice(), start.as_slice());
        }
        i = i + 1;
    }
    false
}

/// The text strictly between the first `start` and the first `end` after
/// it.
pub open spec fn section_body_spec(src: Seq<char>, start: Seq<char>, end: Seq<char>) -> Option<Seq<char>> {
    match find(src, start) {
        None => None,
        Some(i) => {
            let a = i + start.len();
            match find_from(src, end, a) {
                None => None,
                Some(j) => Some(src.subrange(a, j)),
            }
        },
    }
}

/// The text between `start` and the first `end` after it, or `None` if
/// either marker is missing.
pub fn section_body(src: &[char], start: &[char], end: &[char]) -> (r: Option<Vec<char>>)
    ensures
        match r {
            Some(b) => section_body_spec(src@, start@, end@) == Some(b@),
            None => section_body_spec(src@, start@, end@) is None,
        },
{
    let _n = src.len();
    let i = match find_exec(src, start) {
        None => {
            return None;
        },
        Some(i) => i,
    };
    proof {
        lemma_find_from_sound(src@, start@, 0);
    }
    let a = i + start.len();
    let j = match find_from_exec(src, end, a) {
        None => {
            return None;
        },
        Some(j) => j,
    };
    proof {
        lemma_find_from_sound(src@, end@, a as int);
    }
    Some(slice_vec(src, a, j))
}

/// The body of the first `<{tag}…>…</{tag}>` block.
pub open spec fn first_tag_body_spec(body: Seq<char>, tag: Seq<char>) -> Option<Seq<char>> {
    let open = seq!['<'] + tag;
    let close = "</"@ + tag + seq!['>'];
    match find(body, open) {
        None => None,
        Some(i) => {
            let start = i + open.len();
            match find_from(body, seq!['>'], start) {
                None => None,
                Some(g) => match find_from(body, close, g + 1) {
                    None => None,
                    Some(c) => Some(body.subrange(g + 1, c)),
                },
            }
        },
    }
}

/// Read the body of the first `<{tag}…>…</{tag}>` block, or `None` if
/// absent.
pub fn first_tag_body(body: &[char], tag: &str) -> (r: Option<Vec<char>>)
    ensures
        match r {
            Some(b) => first_tag_body_spec(body@, tag@) == Some(b@),
            None => first_tag_body_spec(body@, tag@) is None,
        },
{
    let mut open = vec!['<'];
    crate::text::push_str(&mut open, tag);
    let mut close = chars_of("</");
    crate::text::push_str(&mut close, tag);
    close.push('>');
    let _n = body.len();
    proof {
        assert(open@ =~= seq!['<'] + tag@);
        assert(close@ =~= "</"@ + tag@ + seq!['>']);
    }
    let i = match find_exec(body, open.as_slice()) {
        None => {
            return None;
        },
        Some(i) => i,
    };
    proof {
        lemma_find_from_sound(body@, open@, 0);
    }
    let start = i + open.len();
    let g = match crate::text::find_char_from(body, '>', start) {
        None => {
            return None;
        },
        Some(g) => g,
    };
    proof {
        lemma_find_from_sound(body@, seq!['>'], start as int);
        crate::text::lemma_occurs_char(body@, '>', g as int);
    }
    let c = match find_from_exec(body, close.as_slice(), g + 1) {
        None => {
            return None;
        },
        Some(c) => c,
    };
    proof {
        lemma_find_from_sound(body@, close@, g + 1);
    }
    Some(slice_vec(body, g + 1, c))
}

/// The quoted value of `key="value"` in a tag's attribute text.
pub open spec fn attr_value_spec(attrs: Seq<char>, key: Seq<char>) -> Option<Seq<char>> {
    let needle = key + "=\""@;
    match find(attrs, needle) {
        None => None,
        Some(i) => {
            let start = i + needle.len();
            match find_from(attrs, seq!['"'], start) {
                None => None,
                Some(e) => Some(attrs.subrange(start, e)),
            }
        },
    }
}

/// Read the quoted value of `key="value"` from a tag's attribute text.
pub fn attr_value(attrs: &str, key: &str) -> (r: Option<String>)
    ensures
        match r {
            Some(v) => attr_value_spec(attrs@, key@) == Some(v@),
            None => attr_value_spec(attrs@, key@) is None,
        },
{
    let a = chars_of(attrs);
    attr_value_chars(a.as_slice(), key)
}

fn attr_value_chars(a: &[char], key: &str) -> (r: Option<String>)
    ensures
        match r {
            Some(v) => attr_value_spec(a@, key@) == Some(v@),
            None => attr_value_spec(a@, key@) is None,
        },
{
    let _n = a.len();
    let mut needle = chars_of(key);
    crate::text::push_str(&mut needle, "=\"");
    let i = match find_exec(a, needle.as_slice()) {
        None => {
            return None;
        },
        Some(i) => i,
    };
    proof {
        lemma_find_from_sound(a@, needle@, 0);
    }
    let start = i + needle.len();
    let e = match crate::text::find_char_from(a, '"', start) {
        None => {
            return None;
        },
        Some(e) => e,
    };
    proof {
        lemma_find_from_sound(a@, seq!['"'], start as int);
    }
    Some(slice_string(a, start, e))
}

/// `raw` without the single line break next to each delimiter.
pub open spec fn trim_block_boundaries_spec(raw: Seq<char>) -> Seq<char> {
    let s = if raw.len() > 0 && raw[0] == '\n' {
        raw.drop_first()
    } else {
        raw
    };
    if s.len() > 0 && s.last() == '\n' {
        s.drop_last()
    } else {
        s
    }
}

/// Strip the single newline adjacent to each content-block delimiter.
pub fn trim_block_boundaries(raw: &[char]) -> (r: Vec<char>)
    ensures
        r@ == trim_block_boundaries_spec(raw@),
{
    let a: usize = if raw.len() > 0 && raw[0] == '\n' {
        1
    } else {
        0
    };
    let b: usize = if raw.len() > a && raw[raw.len() - 1] == '\n' {
        raw.len() - 1
    } else {
        raw.len()
    };
    proof {
        let s = if raw@.len() > 0 && raw@[0] == '\n' { raw@.drop_first() } else { raw@ };
        assert(s =~= raw@.subrange(a as int, raw@.len() as int));
    }
    slice_vec(raw, a, b)
}

/// `s` with every `\r\n` and every other `\r` turned into `\n`.
pub open spec fn normalize_newlines(s: Seq<char>) -> Seq<char>
    decreases s.len(),
{
    if s.len() == 0 {
        seq![]
    } else if s.len() >= 2 && s[0] == '\r' && s[1] == '\n' {
        seq!['\n'] + normalize_newlines(s.subrange(2, s.len() as int))
    } else if s[0] == '\r' {
        seq!['\n'] + normalize_newlines(s.drop_first())
    } else {
        seq![s[0]] + normalize_newlines(s.drop_first())
    }
}

fn normalize_newlines_exec(s: &[char]) -> (r: Vec<char>)
    ensures
        r@ == normalize_newlines(s@),
{
    let mut out: Vec<char> = Vec::new();
    let mut i: usize = 0;
    proof {
        assert(s@.subrange(0, s@.len() as int) =~= s@);
    }
    while i < s.len()
        invariant
            i <= s@.len(),
            out@ + normalize_newlines(s@.subrange(i as int, s@.len() as int)) == normalize_newlines(s@),
        decreases s@.len() - i,
    {
        let ghost t = s@.subrange(i as int, s@.len() as int);
        let ghost before = out@;
        let step: usize;
        if i + 1 < s.len() && s[i] == '\r' && s[i + 1] == '\n' {
            out.push('\n');
            step = 2;
        } else if s[i] == '\r' {
            out.push('\n');
            step = 1;
        } else {
            out.push(s[i]);
            step = 1;
        }
        proof {
            assert(t[0] == s@[i as int]);
            if t.len() >= 2 {
                assert(t[1] == s@[i + 1]);
            }
            assert(t.subrange(step as int, t.len() as int) =~= s@.subrange(i + step, s@.len() as int));
            assert(t.drop_first() =~= t.subrange(1, t.len() as int));
            assert(out@ + normalize_newlines(s@.subrange(i + step, s@.len() as int)) =~= before
                + normalize_newlines(t));
        }
        i = i + step;
    }
    proof {
        assert(s@.subrange(i as int, s@.len() as int) =~= Seq::<char>::empty());
        assert(out@ + Seq::<char>::empty() =~= out@);
    }
    out
}

/// The end of the line that starts at `cursor`.
pub open spec fn line_end(s: Seq<char>, cursor: int) -> int {
    match find_from(s, seq!['\n'], cursor) {
        Some(i) => i,
        None => s.len() as int,
    }
}

/// The start of the first line at or after `cursor` that trims to `---`.
pub open spec fn fence_from(s: Seq<char>, cursor: int) -> Option<int>
    decreases s.len() - cursor,
{
    let le = line_end(s, cursor);
    if cursor < 0 || cursor > s.len() || le < cursor || le > s.len() {
        None
    } else if trim(s.subrange(cursor, le)) == "---"@ {
        Some(cursor)
    } else if le >= s.len() {
        None
    } else {
        fence_from(s, le + 1)
    }
}

fn line_end_exec(s: &[char], cursor: usize) -> (r: usize)
    requires
        cursor <= s@.len(),
    ensures
        r == line_end(s@, cursor as int),
        cursor <= r <= s@.len(),
{
    match crate::text::find_char_from(s, '\n', cursor) {
        Some(i) => {
            proof {
                lemma_find_from_sound(s@, seq!['\n'], cursor as int);
                crate::text::lemma_occurs_char(s@, '\n', i as int);
            }
            i
        },
        None => s.len(),
    }
}

/// The offset of a line of `s` that trims to exactly `---`.
pub fn find_closing_fence(s: &[char]) -> (r: Option<usize>)
    ensures
        match r {
            Some(c) => fence_from(s@, 0) == Some(c as int),
            None => fence_from(s@, 0) is None,
        },
{
    let dashes = chars_of("---");
    let mut cursor: usize = 0;
    loop
        invariant
            cursor <= s@.len(),
            dashes@ == "---"@,
            fence_from(s@, 0) == fence_from(s@, cursor as int),
        decreases s@.len() - cursor,
    {
        let le = line_end_exec(s, cursor);
        let line = slice_vec(s, cursor, le);
        let t = trim_exec(line.as_slice());
        if crate::text::chars_eq(t.as_slice(), dashes.as_slice()) {
            return Some(cursor);
        }
        if le >= s.len() {
            return None;
        }
        cursor = le + 1;
    }
}

/// The content blocks of `body` from `cursor` on: each name (trimmed) with
/// its raw text, or the message for a malformed block.
pub open spec fn content_blocks_from(body: Seq<char>, cursor: int) -> Result<Seq<(Seq<char>, Seq<char>)>, Seq<char>>
    decreases body.len() - cursor,
{
    match find_from(body, "<!-- start:"@, cursor) {
        None => Ok(seq![]),
        Some(rel) => {
            let after = rel + "<!-- start:"@.len();
            match find_from(body, "-->"@, after) {
                None => Err("unterminated content start marker"@),
                Some(ne) => {
                    let name = trim(body.subrange(after, ne));
                    let cs = ne + 3;
                    match find_from(body, "<!-- end -->"@, cs) {
                        None => Err("content block '"@ + name + "' has no <!-- end --> marker"@),
                        Some(er) => {
                            let next = er + "<!-- end -->"@.len();
                            if next <= cursor || next > body.len() {
                                Err(seq![])
                            } else {
                                match content_blocks_from(body, next) {
                                    Err(m) => Err(m),
                                    Ok(rest) => Ok(
                                        seq![(name, trim_block_boundaries_spec(body.subrange(cs, er)))]
                                            + rest,
                                    ),
                                }
                            }
                        },
                    }
                },
            }
        },
    }
}

/// The name/text pairs of a list of string pairs.
pub open spec fn pair_views(v: Seq<(String, String)>) -> Seq<(Seq<char>, Seq<char>)> {
    v.map_values(|p: (String, String)| (p.0@, p.1@))
}

fn fat(msg: &str) -> (e: Error)
    ensures
        e is FatFile && e->FatFile_0@ == msg@,
{
    Error::FatFile(string_of(chars_of(msg).as_slice()))
}

fn content_blocks_exec(body: &[char]) -> (r: Result<Vec<(String, String)>, Error>)
    ensures
        match r {
            Ok(v) => content_blocks_from(body@, 0) == Ok::<_, Seq<char>>(pair_views(v@)),
            Err(e) => content_blocks_from(body@, 0) matches Err(m) && e is FatFile && e->FatFile_0@ == m,
        },
{
    let _n = body.len();
    let start = chars_of("<!-- start:");
    let arrow = chars_of("-->");
    let end = chars_of("<!-- end -->");
    proof {
        reveal_strlit("<!-- start:");
        reveal_strlit("-->");
        reveal_strlit("<!-- end -->");
    }
    let mut blocks: Vec<(String, String)> = Vec::new();
    let mut cursor: usize = 0;
    proof {
        assert(pair_views(blocks@) =~= Seq::<(Seq<char>, Seq<char>)>::empty());
    }
    loop
        invariant
            cursor <= body@.len(),
            start@ == "<!-- start:"@,
            arrow@ == "-->"@,
            arrow@.len() == 3,
            end@ == "<!-- end -->"@,
            content_blocks_from(body@, 0) == match content_blocks_from(body@, cursor as int) {
                Ok(rest) => Ok(pair_views(blocks@) + rest),
                Err(m) => Err::<Seq<(Seq<char>, Seq<char>)>, Seq<char>>(m),
            },
        decreases body@.len() - cursor,
    {
        let _len = body.len();
        let rel = match find_from_exec(body, start.as_slice(), cursor) {
            None => {
                proof {
                    assert(pair_views(blocks@) + Seq::<(Seq<char>, Seq<char>)>::empty() =~= pair_views(blocks@));
                }
                return Ok(blocks);
            },
            Some(rel) => rel,
        };
        proof {
            lemma_find_from_sound(body@, start@, cursor as int);
        }
        let after = rel + start.len();
        let ne = match find_from_exec(body, arrow.as_slice(), after) {
            None => {
                return Err(fat("unterminated content start marker"));
            },
            Some(ne) => ne,
        };
        proof {
            lemma_find_from_sound(body@, arrow@, after as int);
        }
        let raw_name = slice_vec(body, after, ne);
        let name = trim_exec(raw_name.as_slice());
        let cs = ne + 3;
        let er = match find_from_exec(body, end.as_slice(), cs) {
            None => {
                let mut m = chars_of("content block '");
                push_all(&mut m, name.as_slice());
                crate::text::push_str(&mut m, "' has no <!-- end --> marker");
                return Err(Error::FatFile(string_of(m.as_slice())));
            },
            Some(er) => er,
        };
        proof {
            lemma_find_from_sound(body@, end@, cs as int);
        }
        let next = er + end.len();
        let raw = slice_vec(body, cs, er);
        let text = trim_block_boundaries(raw.as_slice());
        let ghost before = pair_views(blocks@);
        blocks.push((string_of(name.as_slice()), string_of(text.as_slice())));
        proof {
            assert(pair_views(blocks@) =~= before + seq![(name@, text@)]);
            match content_blocks_from(body@, next as int) {
                Ok(rest) => {
                    assert(before + (seq![(name@, text@)] + rest) =~= pair_views(blocks@) + rest);
                },
                Err(_) => {},
            }
        }
        cursor = next;
    }
}

/// Parse `<!-- start: name --> … <!-- end -->` content blocks from a body, in
/// order: each name trimmed, each text without the line break next to its
/// delimiters.
pub fn parse_content_blocks(body: &str) -> (r: Result<Vec<(String, String)>, Error>)
    ensures
        match r {
            Ok(v) => content_blocks_from(body@, 0) == Ok::<_, Seq<char>>(pair_views(v@)),
            Err(e) => content_blocks_from(body@, 0) matches Err(m) && e is FatFile && e->FatFile_0@ == m,
        },
{
    let b = chars_of(body);
    content_blocks_exec(b.as_slice())
}

/// What [`parse_tagged_block`] gives: the YAML frontmatter (without the
/// line breaks before its closing fence) and the content blocks after it, or
/// the message for a malformed block. Line endings are normalised first and
/// leading spaces, tabs and line breaks skipped.
pub open spec fn tagged_block_spec(block: Seq<char>) -> Result<(Seq<char>, Seq<(Seq<char>, Seq<char>)>), Seq<char>> {
    let norm = normalize_newlines(block);
    let t = crate::text::trim_start_set(norm, seq![' ', '\t', '\n']);
    if !is_prefix("---"@, t) {
        Err("tagged block is missing its opening '---' YAML frontmatter fence"@)
    } else {
        match find_char(t, '\n') {
            None => Err("tagged block's opening '---' fence is not followed by a newline"@),
            Some(nl) => {
                let after_open = nl + 1;
                let tail = t.subrange(after_open, t.len() as int);
                match fence_from(tail, 0) {
                    None => Err("tagged block is missing its closing '---' YAML frontmatter fence"@),
                    Some(close) => {
                        let yaml = crate::text::trim_end_set(tail.subrange(0, close), seq!['\n']);
                        let rest = tail.subrange(close, tail.len() as int);
                        let body_start = match find_char(rest, '\n') {
                            Some(i) => i + 1,
                            None => rest.len() as int,
                        };
                        match content_blocks_from(rest.subrange(body_start, rest.len() as int), 0) {
                            Err(m) => Err(m),
                            Ok(c) => Ok((yaml, c)),
                        }
                    },
                }
            },
        }
    }
}

/// Split a tagged block into its leading `---`-fenced YAML frontmatter and
/// the `<!-- start: name --> … <!-- end -->` content blocks beneath it.
pub fn parse_tagged_block(block: &str) -> (r: Result<(String, Vec<(String, String)>), Error>)
    ensures
        match r {
            Ok((y, c)) => tagged_block_spec(block@) == Ok::<_, Seq<char>>((y@, pair_views(c@))),
            Err(e) => tagged_block_spec(block@) matches Err(m) && e is FatFile && e->FatFile_0@ == m,
        },
{
    let b = chars_of(block);
    let norm = normalize_newlines_exec(b.as_slice());
    let set = [' ', '\t', '\n'];
    proof {
        assert(set@ == seq![' ', '\t', '\n']);
    }
    let k = crate::text::trim_start_set_pos(norm.as_slice(), &set);
    let t = slice_vec(norm.as_slice(), k, norm.len());
    let dashes = chars_of("---");
    if !crate::text::starts_with(t.as_slice(), dashes.as_slice()) {
        return Err(fat("tagged block is missing its opening '---' YAML frontmatter fence"));
    }
    let nl = match crate::text::find_char_from(t.as_slice(), '\n', 0) {
        None => {
            return Err(fat("tagged block's opening '---' fence is not followed by a newline"));
        },
        Some(nl) => nl,
    };
    proof {
        lemma_find_from_sound(t@, seq!['\n'], 0);
        crate::text::lemma_occurs_char(t@, '\n', nl as int);
    }
    let after_open = nl + 1;
    let tail = slice_vec(t.as_slice(), after_open, t.len());
    let close = match find_closing_fence(tail.as_slice()) {
        None => {
            return Err(fat("tagged block is missing its closing '---' YAML frontmatter fence"));
        },
        Some(c) => c,
    };
    proof {
        lemma_fence_in_range(tail@, 0);
    }
    let head = slice_vec(tail.as_slice(), 0, close);
    let nl_set = ['\n'];
    proof {
        assert(nl_set@ == seq!['\n']);
    }
    let yl = crate::text::trim_end_set_len(head.as_slice(), &nl_set);
    let yaml = slice_string(head.as_slice(), 0, yl);
    let rest = slice_vec(tail.as_slice(), close, tail.len());
    let body_start = match crate::text::find_char_from(rest.as_slice(), '\n', 0) {
        Some(i) => {
            proof {
                lemma_find_from_sound(rest@, seq!['\n'], 0);
                crate::text::lemma_occurs_char(rest@, '\n', i as int);
            }
            i + 1
        },
        None => rest.len(),
    };
    let body = slice_vec(rest.as_slice(), body_start, rest.len());
    match content_blocks_exec(body.as_slice()) {
        Err(e) => Err(e),
        Ok(c) => Ok((yaml, c)),
    }
}

/// A fence the search finds lies within the text.
proof fn lemma_fence_in_range(s: Seq<char>, cursor: int)
    ensures
        match fence_from(s, cursor) {
            Some(c) => 0 <= cursor <= c <= s.len(),
            None => true,
        },
    decreases s.len() - cursor,
{
    let le = line_end(s, cursor);
    if cursor < 0 || cursor > s.len() || le < cursor || le > s.len() {
    } else if trim(s.subrange(cursor, le)) == "---"@ {
    } else if le >= s.len() {
    } else {
        lemma_fence_in_range(s, le + 1);
    }
}

// ---------------------------------------------------------------------------
// Input values from YAML.
// ---------------------------------------------------------------------------

/// What the validation and preview logic reads of a YAML scalar: whether it
/// is a number or a boolean, its text when it is a string, and its YAML
/// rendering.
#[derive(Debug, Clone, PartialEq)]
pub struct YamlScalar {
    pub is_number: bool,
    pub is_bool: bool,
    pub text: Option<String>,
    pub rendered: String,
}

/// A [`YamlScalar`] as a mathematical object.
pub struct YamlV {
    pub is_number: bool,
    pub is_bool: bool,
    pub text: Option<Seq<char>>,
    pub rendered: Seq<char>,
}

impl View for YamlScalar {
    type V = YamlV;

    open spec fn view(&self) -> YamlV {
        YamlV {
            is_number: self.is_number,
            is_bool: self.is_bool,
            text: match self.text {
                Some(t) => Some(t@),
                None => None,
            },
            rendered: self.rendered@,
        }
    }
}

/// The mapping a YAML text holds, keys in ascending order, or the parser's
/// message.
pub uninterp spec fn spec_yaml_map(yaml: Seq<char>) -> Result<Seq<(Seq<char>, YamlV)>, Seq<char>>;

/// Parse a YAML text as a mapping from names to values.
///
/// Trusted: calls `serde_yaml_ng::from_str` into a `BTreeMap<String, Value>`
/// and reads each value with `Value::is_number`, `Value::is_bool`,
/// `Value::as_str` and `serde_yaml_ng::to_string`. The contract names the
/// result, a function of the text alone, and states that the keys come out
/// in ascending order, each once, as a `BTreeMap` yields them.
#[verifier::external_body]
fn yaml_map(yaml: &str) -> (r: Result<Vec<(String, YamlScalar)>, String>)
    ensures
        match r {
            Ok(m) => spec_yaml_map(yaml@) == Ok::<_, Seq<char>>(entries(m@)) && is_sorted(entries(m@)),
            Err(e) => spec_yaml_map(yaml@) == Err::<Seq<(Seq<char>, YamlV)>, _>(e@),
        },
{
    let map: std::collections::BTreeMap<String, serde_yaml_ng::Value> = match serde_yaml_ng::from_str(yaml) {
        Ok(m) => m,
        Err(e) => return Err(e.to_string()),
    };
    Ok(map.into_iter().map(|(k, v)| {
        let rendered = serde_yaml_ng::to_string(&v).unwrap_or_default();
        (k, YamlScalar { is_number: v.is_number(), is_bool: v.is_bool(), text: v.as_str().map(String::from), rendered })
    }).collect())
}

/// A parsed input value: a scalar from a block's YAML frontmatter or
/// Markdown content from a content block.
#[derive(Debug, Clone, PartialEq)]
pub enum ParsedInput {
    Scalar(YamlScalar),
    Content(String),
}

/// A [`ParsedInput`] as a mathematical object.
pub enum ParsedV {
    Scalar(YamlV),
    Content(Seq<char>),
}

impl View for ParsedInput {
    type V = ParsedV;

    open spec fn view(&self) -> ParsedV {
        match self {
            ParsedInput::Scalar(y) => ParsedV::Scalar(y@),
            ParsedInput::Content(c) => ParsedV::Content(c@),
        }
    }
}

/// The scalar inputs a flat YAML block holds; a blank block holds none.
pub open spec fn flat_yaml_spec(yaml: Seq<char>) -> Result<Seq<(Seq<char>, ParsedV)>, Seq<char>> {
    if trim(yaml).len() == 0 {
        Ok(seq![])
    } else {
        match spec_yaml_map(yaml) {
            Err(m) => Err("invalid input YAML: "@ + m),
            Ok(m) => Ok(m.map_values(|p: (Seq<char>, YamlV)| (p.0, ParsedV::Scalar(p.1)))),
        }
    }
}

/// Read a flat YAML map into scalar inputs, sorted by name. A blank body
/// yields no inputs.
pub fn parse_flat_yaml(yaml: &str) -> (r: Result<Vec<(String, ParsedInput)>, Error>)
    ensures
        match r {
            Ok(m) => flat_yaml_spec(yaml@) == Ok::<_, Seq<char>>(entries(m@)) && is_sorted(entries(m@)),
            Err(e) => flat_yaml_spec(yaml@) matches Err(msg) && e is FatFile && e->FatFile_0@ == msg,
        },
{
    if crate::markdown::is_blank(yaml) {
        proof {
            assert(entries(Seq::<(String, ParsedInput)>::empty()) =~= Seq::<(Seq<char>, ParsedV)>::empty());
        }
        return Ok(Vec::new());
    }
    match yaml_map(yaml) {
        Err(e) => {
            let mut m = chars_of("invalid input YAML: ");
            crate::text::push_str(&mut m, e.as_str());
            Err(Error::FatFile(string_of(m.as_slice())))
        },
        Ok(map) => {
            let ghost src = entries(map@);
            let ghost orig = map@;
            let mut map = map;
            let mut out: Vec<(String, ParsedInput)> = Vec::new();
            let ghost f = |p: (Seq<char>, YamlV)| (p.0, ParsedV::Scalar(p.1));
            proof {
                assert(map@.subrange(0, map@.len() as int) =~= map@);
                assert(entries(out@) =~= src.take(0).map_values(f));
            }
            while map.len() > 0
                invariant
                    src == entries(orig),
                    is_sorted(src),
                    map@.len() <= orig.len(),
                    map@ == orig.subrange(orig.len() - map@.len(), orig.len() as int),
                    entries(out@) == src.take(orig.len() - map@.len()).map_values(f),
                    f == (|p: (Seq<char>, YamlV)| (p.0, ParsedV::Scalar(p.1))),
                decreases map@.len(),
            {
                let ghost done = orig.len() - map@.len();
                let ghost before = entries(out@);
                let (k, v) = map.remove(0);
                out.push((k, ParsedInput::Scalar(v)));
                proof {
                    assert(orig[done] == (k, v));
                    assert(map@ =~= orig.subrange(orig.len() - map@.len(), orig.len() as int));
                    assert(src[done] == (k@, v@));
                    assert(src.take(done + 1) =~= src.take(done).push(src[done]));
                    assert(entries(out@) =~= before.push((k@, ParsedV::Scalar(v@))));
                    assert(src.take(done + 1).map_values(f) =~= src.take(done).map_values(f).push(f(src[done])));
                }
            }
            proof {
                assert(src.take(orig.len() as int) =~= src);
                let e = entries(out@);
                assert(e =~= src.map_values(f));
                assert forall|i: int, j: int| 0 <= i < j < e.len() implies crate::inputs::seq_lt(#[trigger] e[i].0, #[trigger] e[j].0) by {
                    assert(e[i].0 == src[i].0);
                    assert(e[j].0 == src[j].0);
                }
            }
            Ok(out)
        },
    }
}

// ---------------------------------------------------------------------------
// Component input blocks.
// ---------------------------------------------------------------------------

/// One `<component-input componentId="…" instance="…">` block.
#[derive(Debug)]
pub struct ComponentChunk {
    pub component_id: String,
    pub instance: String,
    pub body: String,
}

impl ComponentChunk {
    /// The `{componentId}-{instance}` form used as the node id.
    pub fn joined_id(&self) -> (r: String)
        ensures
            r@ == self.component_id@ + seq!['-'] + self.instance@,
    {
        let mut out = chars_of(self.component_id.as_str());
        out.push('-');
        crate::text::push_str(&mut out, self.instance.as_str());
        string_of(out.as_slice())
    }
}

/// The component id, instance and body of each `<component-input>` block of
/// `body` from `cursor` on, or the message for a malformed block.
pub open spec fn chunks_from(body: Seq<char>, cursor: int) -> Result<Seq<(Seq<char>, Seq<char>, Seq<char>)>, Seq<char>>
    decreases body.len() - cursor,
{
    match find_from(body, "<component-input"@, cursor) {
        None => Ok(seq![]),
        Some(rel) => {
            let start = rel + "<component-input"@.len();
            match find_from(body, seq!['>'], start) {
                None => Err("unclosed <component-input> opening tag"@),
                Some(gt) => {
                    let attrs = body.subrange(start, gt);
                    match find_from(body, "</component-input>"@, gt + 1) {
                        None => Err("unclosed <component-input> block"@),
                        Some(close) => match attr_value_spec(attrs, "componentId"@) {
                            None => Err("<component-input> is missing its componentId attribute"@),
                            Some(cid) => match attr_value_spec(attrs, "instance"@) {
                                None => Err("<component-input> is missing its instance attribute"@),
                                Some(inst) => {
                                    let next = close + "</component-input>"@.len();
                                    if next <= cursor || next > body.len() {
                                        Err(seq![])
                                    } else {
                                        match chunks_from(body, next) {
                                            Err(m) => Err(m),
                                            Ok(rest) => Ok(
                                                seq![(cid, inst, body.subrange(gt + 1, close))] + rest,
                                            ),
                                        }
                                    }
                                },
                            },
                        },
                    }
                },
            }
        },
    }
}

/// The parts of a list of chunks.
pub open spec fn chunk_views(v: Seq<ComponentChunk>) -> Seq<(Seq<char>, Seq<char>, Seq<char>)> {
    v.map_values(|c: ComponentChunk| (c.component_id@, c.instance@, c.body@))
}

/// Extract every `<component-input …>…</component-input>` block in order.
pub fn component_input_chunks(body: &[char]) -> (r: Result<Vec<ComponentChunk>, Error>)
    ensures
        match r {
            Ok(v) => chunks_from(body@, 0) == Ok::<_, Seq<char>>(chunk_views(v@)),
            Err(e) => chunks_from(body@, 0) matches Err(m) && e is FatFile && e->FatFile_0@ == m,
        },
{
    let open = chars_of("<component-input");
    let close_tag = chars_of("</component-input>");
    let mut chunks: Vec<ComponentChunk> = Vec::new();
    let mut cursor: usize = 0;
    proof {
        assert(chunk_views(chunks@) =~= Seq::<(Seq<char>, Seq<char>, Seq<char>)>::empty());
    }
    loop
        invariant
            cursor <= body@.len(),
            open@ == "<component-input"@,
            close_tag@ == "</component-input>"@,
            chunks_from(body@, 0) == match chunks_from(body@, cursor as int) {
                Ok(rest) => Ok(chunk_views(chunks@) + rest),
                Err(m) => Err::<Seq<(Seq<char>, Seq<char>, Seq<char>)>, Seq<char>>(m),
            },
        decreases body@.len() - cursor,
    {
        let _len = body.len();
        let rel = match find_from_exec(body, open.as_slice(), cursor) {
            None => {
                proof {
                    assert(chunk_views(chunks@) + Seq::<(Seq<char>, Seq<char>, Seq<char>)>::empty() =~= chunk_views(chunks@));
                }
                return Ok(chunks);
            },
            Some(rel) => rel,
        };
        proof {
            lemma_find_from_sound(body@, open@, cursor as int);
        }
        let start = rel + open.len();
        let gt = match crate::text::find_char_from(body, '>', start) {
            None => {
                return Err(fat("unclosed <component-input> opening tag"));
            },
            Some(gt) => gt,
        };
        proof {
            lemma_find_from_sound(body@, seq!['>'], start as int);
            crate::text::lemma_occurs_char(body@, '>', gt as int);
        }
        let attrs = slice_vec(body, start, gt);
        let close = match find_from_exec(body, close_tag.as_slice(), gt + 1) {
            None => {
                return Err(fat("unclosed <component-input> block"));
            },
            Some(c) => c,
        };
        proof {
            lemma_find_from_sound(body@, close_tag@, gt + 1);
        }
        let cid = match attr_value_chars(attrs.as_slice(), "componentId") {
            None => {
                return Err(fat("<component-input> is missing its componentId attribute"));
            },
            Some(c) => c,
        };
        let inst = match attr_value_chars(attrs.as_slice(), "instance") {
            None => {
                return Err(fat("<component-input> is missing its instance attribute"));
            },
            Some(i) => i,
        };
        let next = close + close_tag.len();
        let inner = slice_string(body, gt + 1, close);
        let ghost before = chunk_views(chunks@);
        chunks.push(ComponentChunk { component_id: cid, instance: inst, body: inner });
        proof {
            assert(chunk_views(chunks@) =~= before + seq![(cid@, inst@, inner@)]);
            match chunks_from(body@, next as int) {
                Ok(rest) => {
                    assert(before + (seq![(cid@, inst@, inner@)] + rest) =~= chunk_views(chunks@) + rest);
                },
                Err(_) => {},
            }
        }
        cursor = next;
    }
}

// ---------------------------------------------------------------------------
// The STATE section.
// ---------------------------------------------------------------------------

/// One node of the prelude's `nodes` tree.
#[derive(Debug)]
pub struct PreludeNode {
    pub id: String,
    pub node_type: String,
    pub children: Vec<PreludeNode>,
}

/// The leading JSON object of the STATE section, as the program reads it.
#[derive(Debug)]
pub struct Prelude {
    pub template_id: Option<String>,
    pub template_version: Option<String>,
    pub theme_id: Option<String>,
    pub nodes: Vec<PreludeNode>,
    pub images: Vec<ImageRef>,
}

/// One node of the parsed document tree.
#[derive(Debug, PartialEq)]
pub struct DocNode {
    pub id: String,
    pub component_type: String,
    /// Inputs sorted by name.
    pub inputs: Vec<(String, ParsedInput)>,
    pub children: Vec<DocNode>,
}

/// The parsed STATE section.
#[derive(Debug, PartialEq)]
pub struct DocState {
    pub template_id: String,
    pub template_version: String,
    pub theme_id: String,
    /// Document-scope inputs sorted by name.
    pub global_inputs: Vec<(String, ParsedInput)>,
    pub nodes: Vec<DocNode>,
}

/// A prelude node as a mathematical object.
pub struct PreludeNodeV {
    pub id: Seq<char>,
    pub node_type: Seq<char>,
    pub children: Seq<PreludeNodeV>,
}

/// A document node as a mathematical object.
pub struct DocNodeV {
    pub id: Seq<char>,
    pub component_type: Seq<char>,
    pub inputs: Seq<(Seq<char>, ParsedV)>,
    pub children: Seq<DocNodeV>,
}

/// The value of a prelude node.
pub open spec fn prelude_view(n: PreludeNode) -> PreludeNodeV
    decreases n, 1int,
{
    PreludeNodeV { id: n.id@, node_type: n.node_type@, children: prelude_views(n.children@) }
}

/// The values of prelude nodes.
pub open spec fn prelude_views(ns: Seq<PreludeNode>) -> Seq<PreludeNodeV>
    decreases ns, 0int,
{
    if ns.len() == 0 {
        seq![]
    } else {
        seq![prelude_view(ns[0])] + prelude_views(ns.drop_first())
    }
}

/// The value of a document node.
pub open spec fn doc_view(n: DocNode) -> DocNodeV
    decreases n, 1int,
{
    DocNodeV {
        id: n.id@,
        component_type: n.component_type@,
        inputs: entries(n.inputs@),
        children: doc_views(n.children@),
    }
}

/// The values of document nodes.
pub open spec fn doc_views(ns: Seq<DocNode>) -> Seq<DocNodeV>
    decreases ns, 0int,
{
    if ns.len() == 0 {
        seq![]
    } else {
        seq![doc_view(ns[0])] + doc_views(ns.drop_first())
    }
}

/// The values of prelude nodes, element by element.
pub proof fn lemma_prelude_views(ns: Seq<PreludeNode>)
    ensures
        prelude_views(ns).len() == ns.len(),
        forall|i: int| 0 <= i < ns.len() ==> #[trigger] prelude_views(ns)[i] == prelude_view(ns[i]),
    decreases ns.len(),
{
    if ns.len() > 0 {
        lemma_prelude_views(ns.drop_first());
        assert forall|i: int| 0 <= i < ns.len() implies #[trigger] prelude_views(ns)[i] == prelude_view(ns[i]) by {
            if i > 0 {
                assert(prelude_views(ns)[i] == prelude_views(ns.drop_first())[i - 1]);
            }
        }
    }
}

/// The values of document nodes, element by element.
pub proof fn lemma_doc_views(ns: Seq<DocNode>)
    ensures
        doc_views(ns).len() == ns.len(),
        forall|i: int| 0 <= i < ns.len() ==> #[trigger] doc_views(ns)[i] == doc_view(ns[i]),
    decreases ns.len(),
{
    if ns.len() > 0 {
        lemma_doc_views(ns.drop_first());
        assert forall|i: int| 0 <= i < ns.len() implies #[trigger] doc_views(ns)[i] == doc_view(ns[i]) by {
            if i > 0 {
                assert(doc_views(ns)[i] == doc_views(ns.drop_first())[i - 1]);
            }
        }
    }
}

/// The inputs one `<component-input>` block gives a node.
#[derive(Debug)]
pub struct InputBlock {
    pub inputs: Vec<(String, ParsedInput)>,
}

impl View for InputBlock {
    type V = Seq<(Seq<char>, ParsedV)>;

    open spec fn view(&self) -> Seq<(Seq<char>, ParsedV)> {
        entries(self.inputs@)
    }
}

/// The inputs attached to node `id`: those of its input block, or none.
pub open spec fn inputs_for(by_id: Seq<(Seq<char>, Seq<(Seq<char>, ParsedV)>)>, id: Seq<char>) -> Seq<(Seq<char>, ParsedV)> {
    match map_get(by_id, id) {
        Some(v) => v,
        None => seq![],
    }
}

/// The document tree the prelude describes, with each node's inputs.
pub open spec fn build_spec(ns: Seq<PreludeNodeV>, by_id: Seq<(Seq<char>, Seq<(Seq<char>, ParsedV)>)>) -> Seq<DocNodeV>
    decreases ns,
{
    if ns.len() == 0 {
        seq![]
    } else {
        seq![
            DocNodeV {
                id: ns[0].id,
                component_type: ns[0].node_type,
                inputs: inputs_for(by_id, ns[0].id),
                children: build_spec(ns[0].children, by_id),
            },
        ] + build_spec(ns.drop_first(), by_id)
    }
}

/// A copy of a parsed input.
pub fn copy_parsed(p: &ParsedInput) -> (r: ParsedInput)
    ensures
        r@ == p@,
{
    match p {
        ParsedInput::Scalar(y) => {
            let text = match &y.text {
                Some(t) => Some(crate::schema::owned(t.as_str())),
                None => None,
            };
            ParsedInput::Scalar(
                YamlScalar {
                    is_number: y.is_number,
                    is_bool: y.is_bool,
                    text,
                    rendered: crate::schema::owned(y.rendered.as_str()),
                },
            )
        },
        ParsedInput::Content(c) => ParsedInput::Content(crate::schema::owned(c.as_str())),
    }
}

/// A copy of an input list.
pub fn copy_inputs(m: &Vec<(String, ParsedInput)>) -> (r: Vec<(String, ParsedInput)>)
    ensures
        entries(r@) == entries(m@),
{
    let mut out: Vec<(String, ParsedInput)> = Vec::new();
    let mut i: usize = 0;
    while i < m.len()
        invariant
            i <= m@.len(),
            entries(out@) == entries(m@).take(i as int),
        decreases m@.len() - i,
    {
        let ghost before = entries(out@);
        out.push((crate::schema::owned(m[i].0.as_str()), copy_parsed(&m[i].1)));
        proof {
            assert(entries(out@) =~= before.push(entries(m@)[i as int]));
            assert(entries(m@).take(i + 1) =~= entries(m@).take(i as int).push(entries(m@)[i as int]));
        }
        i = i + 1;
    }
    proof {
        assert(entries(m@).take(m@.len() as int) =~= entries(m@));
    }
    out
}

/// The inputs of node `id` in the per-node input map.
fn inputs_for_exec(by_id: &Vec<(String, InputBlock)>, id: &[char]) -> (r: Vec<(String, ParsedInput)>)
    ensures
        entries(r@) == inputs_for(by_views(by_id@), id@),
{
    let mut i: usize = 0;
    let ghost v = by_views(by_id@);
    proof {
        assert(v.subrange(0, v.len() as int) =~= v);
    }
    while i < by_id.len()
        invariant
            i <= by_id@.len(),
            v == by_views(by_id@),
            v.len() == by_id@.len(),
            map_get(v, id@) == map_get(v.subrange(i as int, v.len() as int), id@),
        decreases by_id@.len() - i,
    {
        let ghost rest = v.subrange(i as int, v.len() as int);
        proof {
            assert(rest[0] == (by_id@[i as int].0@, by_id@[i as int].1@));
            assert(rest.drop_first() =~= v.subrange(i + 1, v.len() as int));
        }
        let k = chars_of(by_id[i].0.as_str());
        if crate::text::chars_eq(k.as_slice(), id) {
            return copy_inputs(&by_id[i].1.inputs);
        }
        i = i + 1;
    }
    proof {
        assert(entries(Seq::<(String, ParsedInput)>::empty()) =~= Seq::<(Seq<char>, ParsedV)>::empty());
    }
    Vec::new()
}

/// The per-node input map as names and input lists.
pub open spec fn by_views(m: Seq<(String, InputBlock)>) -> Seq<(Seq<char>, Seq<(Seq<char>, ParsedV)>)> {
    entries(m)
}

/// Materialise the prelude node tree into document nodes, attaching each
/// node's inputs (none when no input block matched).
pub fn build_nodes(prelude_nodes: &Vec<PreludeNode>, inputs_by_id: &Vec<(String, InputBlock)>) -> (r: Vec<DocNode>)
    ensures
        doc_views(r@) == build_spec(prelude_views(prelude_nodes@), by_views(inputs_by_id@)),
    decreases prelude_nodes@,
{
    let ghost pv = prelude_views(prelude_nodes@);
    let ghost bv = by_views(inputs_by_id@);
    proof {
        lemma_prelude_views(prelude_nodes@);
        assert(pv.subrange(0, pv.len() as int) =~= pv);
    }
    let mut out: Vec<DocNode> = Vec::new();
    let mut i: usize = 0;
    proof {
        assert(doc_views(out@) =~= Seq::<DocNodeV>::empty());
    }
    while i < prelude_nodes.len()
        invariant
            i <= prelude_nodes@.len(),
            pv == prelude_views(prelude_nodes@),
            bv == by_views(inputs_by_id@),
            pv.len() == prelude_nodes@.len(),
            forall|k: int| 0 <= k < prelude_nodes@.len() ==> #[trigger] pv[k] == prelude_view(prelude_nodes@[k]),
            doc_views(out@) + build_spec(pv.subrange(i as int, pv.len() as int), bv) == build_spec(pv, bv),
        decreases prelude_nodes@.len() - i,
    {
        let ghost rest = pv.subrange(i as int, pv.len() as int);
        let n = &prelude_nodes[i];
        proof {
            assert(rest[0] == prelude_view(*n));
            assert(rest.drop_first() =~= pv.subrange(i + 1, pv.len() as int));
            assert(decreases_to!(prelude_nodes@ => prelude_nodes@[i as int]));
            assert(decreases_to!(prelude_nodes@[i as int] => prelude_nodes@[i as int].children));
        }
        let id_chars = chars_of(n.id.as_str());
        let inputs = inputs_for_exec(inputs_by_id, id_chars.as_slice());
        let children = build_nodes(&n.children, inputs_by_id);
        let node = DocNode {
            id: crate::schema::owned(n.id.as_str()),
            component_type: crate::schema::owned(n.node_type.as_str()),
            inputs,
            children,
        };
        let ghost before = out@;
        out.push(node);
        proof {
            assert(out@ =~= before + seq![node]);
            lemma_doc_views(before);
            lemma_doc_views(out@);
            assert(doc_views(out@) =~= doc_views(before) + seq![doc_view(node)]);
        }
        i = i + 1;
    }
    proof {
        assert(pv.subrange(pv.len() as int, pv.len() as int) =~= Seq::<PreludeNodeV>::empty());
        assert(doc_views(out@) + Seq::<DocNodeV>::empty() =~= doc_views(out@));
    }
    out
}

/// The inputs of a block: its scalar inputs with each content block added
/// (a later one for a name replacing an earlier one).
pub open spec fn with_contents(ins: Seq<(Seq<char>, ParsedV)>, content: Seq<(Seq<char>, Seq<char>)>) -> Seq<(Seq<char>, ParsedV)>
    decreases content.len(),
{
    if content.len() == 0 {
        ins
    } else {
        with_contents(
            map_insert(ins, content[0].0, ParsedV::Content(content[0].1)),
            content.drop_first(),
        )
    }
}

/// The per-node input map the `<component-input>` blocks give, added to
/// `acc` in order, or the message for the first malformed block.
pub open spec fn inputs_by_id_spec(chunks: Seq<(Seq<char>, Seq<char>, Seq<char>)>, acc: Seq<(Seq<char>, Seq<(Seq<char>, ParsedV)>)>) -> Result<Seq<(Seq<char>, Seq<(Seq<char>, ParsedV)>)>, Seq<char>>
    decreases chunks.len(),
{
    if chunks.len() == 0 {
        Ok(acc)
    } else {
        let (cid, inst, b) = chunks[0];
        match tagged_block_spec(b) {
            Err(m) => Err(m),
            Ok((yaml, content)) => match flat_yaml_spec(yaml) {
                Err(m) => Err(m),
                Ok(ins) => inputs_by_id_spec(
                    chunks.drop_first(),
                    map_insert(acc, cid + seq!['-'] + inst, with_contents(ins, content)),
                ),
            },
        }
    }
}

/// The document-scope inputs: those of the `<document-input>` block without
/// the `templateId` anchor, or none without such a block.
pub open spec fn globals_spec(body: Seq<char>) -> Result<Seq<(Seq<char>, ParsedV)>, Seq<char>> {
    match first_tag_body_spec(body, "document-input"@) {
        None => Ok(seq![]),
        Some(di) => match tagged_block_spec(di) {
            Err(m) => Err(m),
            Ok((yaml, _)) => match flat_yaml_spec(yaml) {
                Err(m) => Err(m),
                Ok(g) => Ok(map_remove(g, "templateId"@)),
            },
        },
    }
}

/// A text, or the empty text.
pub open spec fn or_empty(o: Option<String>) -> Seq<char> {
    match o {
        Some(s) => s@,
        None => seq![],
    }
}

/// The parsed STATE section as a mathematical object: template id, template
/// version, theme id, global inputs and node tree.
pub open spec fn state_view(s: DocState) -> (Seq<char>, Seq<char>, Seq<char>, Seq<(Seq<char>, ParsedV)>, Seq<DocNodeV>) {
    (s.template_id@, s.template_version@, s.theme_id@, entries(s.global_inputs@), doc_views(s.nodes@))
}

/// The parsed state from a prelude, global inputs and a per-node input map
/// (or the message that rejected the map).
pub open spec fn state_from(
    prelude: Prelude,
    g: Seq<(Seq<char>, ParsedV)>,
    r: Result<Seq<(Seq<char>, Seq<(Seq<char>, ParsedV)>)>, Seq<char>>,
) -> Result<(Seq<char>, Seq<char>, Seq<char>, Seq<(Seq<char>, ParsedV)>, Seq<DocNodeV>), Seq<char>> {
    match r {
        Err(m) => Err(m),
        Ok(by_id) => Ok(
            (
                or_empty(prelude.template_id),
                or_empty(prelude.template_version),
                or_empty(prelude.theme_id),
                g,
                build_spec(prelude_views(prelude.nodes@), by_id),
            ),
        ),
    }
}

/// The body of the STATE section of `src`, which opens with the JSON
/// prelude; a [`Error::FatFile`] when the section markers are missing.
pub fn state_body(src: &str) -> (r: Result<String, Error>)
    ensures
        match section_body_spec(src@, STATE_START@, STATE_END@) {
            Some(b) => r matches Ok(t) && t@ == b,
            None => r matches Err(e) && e is FatFile && e->FatFile_0@ == "missing STATE section markers"@,
        },
{
    let sc = chars_of(src);
    let start = chars_of(STATE_START);
    let end = chars_of(STATE_END);
    match section_body(sc.as_slice(), start.as_slice(), end.as_slice()) {
        None => Err(fat("missing STATE section markers")),
        Some(b) => Ok(string_of(b.as_slice())),
    }
}

/// What [`parse_state_with`] gives for a text and its prelude.
pub open spec fn parse_state_spec(src: Seq<char>, prelude: Prelude) -> Result<(Seq<char>, Seq<char>, Seq<char>, Seq<(Seq<char>, ParsedV)>, Seq<DocNodeV>), Seq<char>> {
    match section_body_spec(src, STATE_START@, STATE_END@) {
        None => Err("missing STATE section markers"@),
        Some(body) => match globals_spec(body) {
            Err(m) => Err(m),
            Ok(g) => match chunks_from(body, 0) {
                Err(m) => Err(m),
                Ok(chunks) => match inputs_by_id_spec(chunks, seq![]) {
                    Err(m) => Err(m),
                    Ok(by_id) => Ok(
                        (
                            or_empty(prelude.template_id),
                            or_empty(prelude.template_version),
                            or_empty(prelude.theme_id),
                            g,
                            build_spec(prelude_views(prelude.nodes@), by_id),
                        ),
                    ),
                },
            },
        },
    }
}

fn owned_or_empty(o: &Option<String>) -> (r: String)
    ensures
        r@ == or_empty(*o),
{
    match o {
        Some(s) => crate::schema::owned(s.as_str()),
        None => String::new(),
    }
}

/// Parse the STATE section of `src` into a [`DocState`], given its JSON
/// prelude: the node tree from the prelude, global inputs from the
/// `<document-input>` block, and per-node inputs from each
/// `<component-input>` block (joined to nodes by `{componentId}-{instance}`).
pub fn parse_state_with(src: &str, prelude: &Prelude) -> (r: Result<DocState, Error>)
    ensures
        match r {
            Ok(s) => parse_state_spec(src@, *prelude) == Ok::<_, Seq<char>>(state_view(s)),
            Err(e) => parse_state_spec(src@, *prelude) matches Err(m) && e is FatFile && e->FatFile_0@ == m,
        },
{
    let sc = chars_of(src);
    let start = chars_of(STATE_START);
    let end = chars_of(STATE_END);
    let body = match section_body(sc.as_slice(), start.as_slice(), end.as_slice()) {
        None => {
            return Err(fat("missing STATE section markers"));
        },
        Some(b) => b,
    };
    // Global inputs.
    let global_inputs = match first_tag_body(body.as_slice(), "document-input") {
        None => {
            proof {
                assert(entries(Seq::<(String, ParsedInput)>::empty()) =~= Seq::<(Seq<char>, ParsedV)>::empty());
            }
            Vec::new()
        },
        Some(di) => {
            let dis = string_of(di.as_slice());
            let (yaml, _content) = match parse_tagged_block(dis.as_str()) {
                Err(e) => {
                    return Err(e);
                },
                Ok(p) => p,
            };
            let g = match parse_flat_yaml(yaml.as_str()) {
                Err(e) => {
                    return Err(e);
                },
                Ok(g) => g,
            };
            remove_input(g, "templateId")
        },
    };
    // Per-node inputs.
    let chunks = match component_input_chunks(body.as_slice()) {
        Err(e) => {
            return Err(e);
        },
        Ok(c) => c,
    };
    let ghost cv = chunk_views(chunks@);
    let ghost g = entries(global_inputs@);
    proof {
        assert(parse_state_spec(src@, *prelude) == state_from(*prelude, g, inputs_by_id_spec(cv, seq![])));
    }
    let mut by_id: Vec<(String, InputBlock)> = Vec::new();
    let mut i: usize = 0;
    proof {
        assert(by_views(by_id@) =~= Seq::<(Seq<char>, Seq<(Seq<char>, ParsedV)>)>::empty());
        assert(cv.subrange(0, cv.len() as int) =~= cv);
    }
    while i < chunks.len()
        invariant
            i <= chunks@.len(),
            cv == chunk_views(chunks@),
            cv.len() == chunks@.len(),
            inputs_by_id_spec(cv, seq![]) == inputs_by_id_spec(cv.subrange(i as int, cv.len() as int), by_views(by_id@)),
            parse_state_spec(src@, *prelude) == state_from(*prelude, g, inputs_by_id_spec(cv, seq![])),
        decreases chunks@.len() - i,
    {
        let ghost rest = cv.subrange(i as int, cv.len() as int);
        let chunk = &chunks[i];
        proof {
            assert(rest[0] == (chunk.component_id@, chunk.instance@, chunk.body@));
            assert(rest.drop_first() =~= cv.subrange(i + 1, cv.len() as int));
        }
        let (yaml, content) = match parse_tagged_block(chunk.body.as_str()) {
            Err(e) => {
                return Err(e);
            },
            Ok(p) => p,
        };
        let mut inputs = match parse_flat_yaml(yaml.as_str()) {
            Err(e) => {
                return Err(e);
            },
            Ok(m) => m,
        };
        let ghost cvw = pair_views(content@);
        let ghost ins0 = entries(inputs@);
        let mut content = content;
        let ghost corig = content@;
        proof {
            assert(cvw.subrange(0, cvw.len() as int) =~= cvw);
        }
        while content.len() > 0
            invariant
                cvw == pair_views(corig),
                cvw.len() == corig.len(),
                content@.len() <= corig.len(),
                content@ == corig.subrange(corig.len() - content@.len(), corig.len() as int),
                with_contents(ins0, cvw) == with_contents(
                    entries(inputs@),
                    cvw.subrange(corig.len() - content@.len(), corig.len() as int),
                ),
            decreases content@.len(),
        {
            let ghost done = corig.len() - content@.len();
            let ghost crest = cvw.subrange(done, corig.len() as int);
            let (name, md) = content.remove(0);
            proof {
                assert(corig[done] == (name, md));
                assert(content@ =~= corig.subrange(corig.len() - content@.len(), corig.len() as int));
                assert(crest[0] == (name@, md@));
                assert(crest.drop_first() =~= cvw.subrange(done + 1, corig.len() as int));
            }
            insert_input(&mut inputs, name, ParsedInput::Content(md));
        }
        proof {
            assert(cvw.subrange(corig.len() as int, corig.len() as int) =~= Seq::<(Seq<char>, Seq<char>)>::empty());
        }
        let id = chunk.joined_id();
        insert_input(&mut by_id, id, InputBlock { inputs });
        i = i + 1;
    }
    proof {
        assert(cv.subrange(cv.len() as int, cv.len() as int) =~= Seq::<(Seq<char>, Seq<char>, Seq<char>)>::empty());
    }
    let nodes = build_nodes(&prelude.nodes, &by_id);
    Ok(DocState {
        template_id: owned_or_empty(&prelude.template_id),
        template_version: owned_or_empty(&prelude.template_version),
        theme_id: owned_or_empty(&prelude.theme_id),
        global_inputs,
        nodes,
    })
}

// ---------------------------------------------------------------------------
// The IMAGES section.
// ---------------------------------------------------------------------------

/// The message the base64 decoder gives for a text that is no base64 text.
pub uninterp spec fn spec_base64_error(text: Seq<char>) -> Seq<char>;

/// What decoding a standard-alphabet, padded base64 text gives: the bytes
/// whose base64 text it is (there is at most one such, see
/// [`lemma_encode_injective`]), or the decoder's message when it is the
/// base64 text of no bytes.
pub open spec fn base64_decode_spec(text: Seq<char>) -> Result<Seq<u8>, Seq<char>> {
    if exists|b: Seq<u8>| #[trigger] spec_base64_encode(b) == text {
        Ok(choose|b: Seq<u8>| #[trigger] spec_base64_encode(b) == text)
    } else {
        Err(spec_base64_error(text))
    }
}

/// Decode standard-alphabet, padded base64.
///
/// Trusted: calls `Engine::decode` of `base64::engine::general_purpose::STANDARD`,
/// whose configuration requires canonical padding and zero trailing bits:
/// it accepts exactly the texts that its `encode` writes (see
/// [`spec_base64_encode`]), giving back the bytes encoded. The message of a
/// refusal is named, a function of the text alone.
#[verifier::external_body]
fn base64_decode_std(text: &str) -> (r: Result<Vec<u8>, String>)
    ensures
        match r {
            Ok(b) => spec_base64_encode(b@) == text@,
            Err(e) => (forall|b: Seq<u8>| #[trigger] spec_base64_encode(b) != text@) && e@ == spec_base64_error(text@),
        },
{
    base64::Engine::decode(&base64::engine::general_purpose::STANDARD, text).map_err(|e| e.to_string())
}

/// The bytes some base64 text encodes are what decoding it gives.
pub proof fn lemma_decodes_to(text: Seq<char>, b: Seq<u8>)
    requires
        spec_base64_encode(b) == text,
    ensures
        base64_decode_spec(text) == Ok::<_, Seq<char>>(b),
{
    let c = choose|c: Seq<u8>| #[trigger] spec_base64_encode(c) == text;
    lemma_encode_injective(c, b);
}

/// Decode standard-alphabet, padded base64 (see [`base64_decode_spec`]).
pub fn base64_decode(text: &str) -> (r: Result<Vec<u8>, String>)
    ensures
        match r {
            Ok(b) => base64_decode_spec(text@) == Ok::<_, Seq<char>>(b@),
            Err(e) => base64_decode_spec(text@) == Err::<Seq<u8>, _>(e@),
        },
{
    let r = base64_decode_std(text);
    proof {
        if r is Ok {
            lemma_decodes_to(text@, r->Ok_0@);
        }
    }
    r
}

/// A character of the standard base64 alphabet, padding included.
pub open spec fn is_base64_char(c: char) -> bool {
    ('A' <= c <= 'Z') || ('a' <= c <= 'z') || ('0' <= c <= '9') || c == '+' || c == '/' || c == '='
}

/// The character of the standard base64 alphabet for a six-bit value:
/// `A`-`Z`, `a`-`z`, `0`-`9`, `+`, `/`.
pub open spec fn base64_digit(v: int) -> char {
    if v < 26 {
        (65 + v) as char
    } else if v < 52 {
        (97 + v - 26) as char
    } else if v < 62 {
        (48 + v - 52) as char
    } else if v == 62 {
        '+'
    } else {
        '/'
    }
}

/// The standard-alphabet, padded base64 text of some bytes: each group of
/// three bytes as four characters of six bits each, a final group of one
/// or two bytes padded with `=` to four characters.
#[verifier::opaque]
pub open spec fn spec_base64_encode(bytes: Seq<u8>) -> Seq<char>
    decreases bytes.len(),
{
    if bytes.len() == 0 {
        seq![]
    } else if bytes.len() == 1 {
        let b0 = bytes[0] as int;
        seq![base64_digit(b0 / 4), base64_digit((b0 % 4) * 16), '=', '=']
    } else if bytes.len() == 2 {
        let (b0, b1) = (bytes[0] as int, bytes[1] as int);
        seq![base64_digit(b0 / 4), base64_digit((b0 % 4) * 16 + b1 / 16), base64_digit((b1 % 16) * 4), '=']
    } else {
        let (b0, b1, b2) = (bytes[0] as int, bytes[1] as int, bytes[2] as int);
        seq![
            base64_digit(b0 / 4),
            base64_digit((b0 % 4) * 16 + b1 / 16),
            base64_digit((b1 % 16) * 4 + b2 / 64),
            base64_digit(b2 % 64),
        ] + spec_base64_encode(bytes.subrange(3, bytes.len() as int))
    }
}

/// Every six-bit value has an alphabet character.
pub proof fn lemma_base64_digit(v: int)
    requires
        0 <= v < 64,
    ensures
        is_base64_char(base64_digit(v)),
{
}

/// The base64 text of any bytes is made of alphabet characters, and is
/// empty only for no bytes.
pub proof fn lemma_encoded_text_ok(bytes: Seq<u8>)
    ensures
        encoded_text_ok(bytes),
    decreases bytes.len(),
{
    reveal(spec_base64_encode);
    let e = spec_base64_encode(bytes);
    if bytes.len() == 1 {
        let b0 = bytes[0] as int;
        lemma_base64_digit(b0 / 4);
        lemma_base64_digit((b0 % 4) * 16);
        assert forall|i: int| 0 <= i < e.len() implies is_base64_char(#[trigger] e[i]) by {}
    } else if bytes.len() == 2 {
        let (b0, b1) = (bytes[0] as int, bytes[1] as int);
        lemma_base64_digit(b0 / 4);
        lemma_base64_digit((b0 % 4) * 16 + b1 / 16);
        lemma_base64_digit((b1 % 16) * 4);
        assert forall|i: int| 0 <= i < e.len() implies is_base64_char(#[trigger] e[i]) by {}
    } else if bytes.len() > 2 {
        let (b0, b1, b2) = (bytes[0] as int, bytes[1] as int, bytes[2] as int);
        lemma_base64_digit(b0 / 4);
        lemma_base64_digit((b0 % 4) * 16 + b1 / 16);
        lemma_base64_digit((b1 % 16) * 4 + b2 / 64);
        lemma_base64_digit(b2 % 64);
        let rest = bytes.subrange(3, bytes.len() as int);
        lemma_encoded_text_ok(rest);
        let head = seq![
            base64_digit(b0 / 4),
            base64_digit((b0 % 4) * 16 + b1 / 16),
            base64_digit((b1 % 16) * 4 + b2 / 64),
            base64_digit(b2 % 64),
        ];
        assert(e == head + spec_base64_encode(rest));
        assert forall|i: int| 0 <= i < e.len() implies is_base64_char(#[trigger] e[i]) by {
            if i >= 4 {
                assert(e[i] == spec_base64_encode(rest)[i - 4]);
            }
        }
    }
}

/// Distinct six-bit values have distinct alphabet characters, none of
/// them the padding `=`.
proof fn lemma_digit_injective(u: int, v: int)
    requires
        0 <= u < 64,
        0 <= v < 64,
    ensures
        base64_digit(u) != '=',
        base64_digit(u) == base64_digit(v) ==> u == v,
{
    assert(base64_digit(u) as int != 61);
    if base64_digit(u) == base64_digit(v) {
        assert(base64_digit(u) as int == base64_digit(v) as int);
    }
}

/// Different bytes have different base64 texts.
pub proof fn lemma_encode_injective(a: Seq<u8>, b: Seq<u8>)
    requires
        spec_base64_encode(a) == spec_base64_encode(b),
    ensures
        a == b,
    decreases a.len(),
{
    reveal(spec_base64_encode);
    lemma_encoded_text_ok(a);
    lemma_encoded_text_ok(b);
    let e = spec_base64_encode(a);
    if a.len() == 0 || b.len() == 0 {
        assert(a.len() == 0 && b.len() == 0);
        assert(a =~= b);
    } else {
        let (a0, a1, a2) = (a[0] as int, if a.len() > 1 { a[1] as int } else { 0 }, if a.len() > 2 { a[2] as int } else { 0 });
        let (b0, b1, b2) = (b[0] as int, if b.len() > 1 { b[1] as int } else { 0 }, if b.len() > 2 { b[2] as int } else { 0 });
        lemma_digit_injective(a0 / 4, b0 / 4);
        lemma_digit_injective((a0 % 4) * 16 + a1 / 16, (b0 % 4) * 16 + b1 / 16);
        lemma_digit_injective((a0 % 4) * 16, (b0 % 4) * 16);
        lemma_digit_injective((a0 % 4) * 16, (b0 % 4) * 16 + b1 / 16);
        lemma_digit_injective((a0 % 4) * 16 + a1 / 16, (b0 % 4) * 16);
        lemma_digit_injective((a1 % 16) * 4 + a2 / 64, (b1 % 16) * 4 + b2 / 64);
        lemma_digit_injective((a1 % 16) * 4, (b1 % 16) * 4);
        lemma_digit_injective((a1 % 16) * 4, (b1 % 16) * 4 + b2 / 64);
        lemma_digit_injective((a1 % 16) * 4 + a2 / 64, (b1 % 16) * 4);
        lemma_digit_injective(a2 % 64, b2 % 64);
        // The padding in the first group tells how many bytes it holds.
        assert(e[2] == '=' <==> a.len() == 1);
        assert(e[2] == '=' <==> b.len() == 1);
        assert(e[3] == '=' <==> a.len() <= 2);
        assert(e[3] == '=' <==> b.len() <= 2);
        let f = spec_base64_encode(b);
        assert(e[0] == base64_digit(a0 / 4) && f[0] == base64_digit(b0 / 4));
        assert(a0 / 4 == b0 / 4);
        if a.len() == 1 {
            assert(e[1] == base64_digit((a0 % 4) * 16) && f[1] == base64_digit((b0 % 4) * 16));
            assert((a0 % 4) * 16 == (b0 % 4) * 16);
            assert(a0 == b0);
            assert(a =~= b);
        } else if a.len() == 2 {
            assert(e[1] == base64_digit((a0 % 4) * 16 + a1 / 16) && f[1] == base64_digit((b0 % 4) * 16 + b1 / 16));
            assert(e[2] == base64_digit((a1 % 16) * 4) && f[2] == base64_digit((b1 % 16) * 4));
            assert((a0 % 4) * 16 + a1 / 16 == (b0 % 4) * 16 + b1 / 16);
            assert((a1 % 16) * 4 == (b1 % 16) * 4);
            assert(a0 % 4 == b0 % 4 && a1 / 16 == b1 / 16);
            assert(a0 == b0 && a1 == b1);
            assert(a =~= b);
        } else {
            assert(e[1] == base64_digit((a0 % 4) * 16 + a1 / 16) && f[1] == base64_digit((b0 % 4) * 16 + b1 / 16));
            assert(e[2] == base64_digit((a1 % 16) * 4 + a2 / 64) && f[2] == base64_digit((b1 % 16) * 4 + b2 / 64));
            assert(e[3] == base64_digit(a2 % 64) && f[3] == base64_digit(b2 % 64));
            assert((a0 % 4) * 16 + a1 / 16 == (b0 % 4) * 16 + b1 / 16);
            assert((a1 % 16) * 4 + a2 / 64 == (b1 % 16) * 4 + b2 / 64);
            assert(a2 % 64 == b2 % 64);
            assert(a0 % 4 == b0 % 4 && a1 / 16 == b1 / 16);
            assert(a1 % 16 == b1 % 16 && a2 / 64 == b2 / 64);
            assert(a0 == b0 && a1 == b1 && a2 == b2);
            let ra = a.subrange(3, a.len() as int);
            let rb = b.subrange(3, b.len() as int);
            assert(spec_base64_encode(ra) =~= e.subrange(4, e.len() as int));
            assert(spec_base64_encode(rb) =~= e.subrange(4, e.len() as int));
            lemma_encode_injective(ra, rb);
            assert(a =~= seq![a[0], a[1], a[2]] + ra);
            assert(b =~= seq![b[0], b[1], b[2]] + rb);
        }
    }
}

/// The base64 text of some bytes is made of alphabet characters, and is
/// empty only for no bytes.
pub open spec fn encoded_text_ok(bytes: Seq<u8>) -> bool {
    &&& forall|i: int| 0 <= i < spec_base64_encode(bytes).len() ==> is_base64_char(#[trigger] spec_base64_encode(bytes)[i])
    &&& bytes.len() > 0 ==> spec_base64_encode(bytes).len() > 0
}

/// Decoding the base64 text of some bytes gives them back.
pub open spec fn decodes_back(bytes: Seq<u8>) -> bool {
    base64_decode_spec(spec_base64_encode(bytes)) == Ok::<_, Seq<char>>(bytes)
}

/// Any bytes decode back from their base64 text.
pub proof fn lemma_decodes_back(bytes: Seq<u8>)
    ensures
        decodes_back(bytes),
{
    lemma_decodes_to(spec_base64_encode(bytes), bytes);
}

/// Encode bytes as standard-alphabet, padded base64.
///
/// Trusted: calls `Engine::encode` of `base64::engine::general_purpose::STANDARD`,
/// which writes the standard alphabet with `=` padding (see
/// [`spec_base64_encode`]). That the same engine's `decode` gives the bytes
/// back is stated of its `decode` (see [`base64_decode_spec`]).
#[verifier::external_body]
pub(crate) fn base64_encode(bytes: &[u8]) -> (r: String)
    ensures
        r@ == spec_base64_encode(bytes@),
{
    base64::Engine::encode(&base64::engine::general_purpose::STANDARD, bytes)
}

/// A blob delimiter line `---{hash}---` (other than `---END---`), as its hash.
pub open spec fn blob_hash(line: Seq<char>) -> Option<Seq<char>> {
    if line.len() > 6 && line.subrange(0, 3) == "---"@ && line.subrange(line.len() - 3, line.len() as int)
        == "---"@ && line != IMAGE_END_DELIM@ {
        Some(line.subrange(3, line.len() - 3))
    } else {
        None
    }
}

/// The blobs of the IMAGES lines from `i` on, added to `map`; `cur` is the
/// hash of the open blob and `payload` its base64 text so far.
pub open spec fn blobs_from(
    ls: Seq<Seq<char>>,
    i: int,
    map: Seq<(Seq<char>, Seq<u8>)>,
    cur: Option<Seq<char>>,
    payload: Seq<char>,
) -> Result<Seq<(Seq<char>, Seq<u8>)>, Seq<char>>
    decreases ls.len() - i,
{
    if i < 0 || i >= ls.len() {
        Ok(map)
    } else {
        let line = crate::text::trim_end_set(ls[i], seq!['\r']);
        match blob_hash(line) {
            Some(h) => if map_get(map, h) is Some {
                Err("duplicate hash entry in IMAGES section: "@ + h)
            } else {
                blobs_from(ls, i + 1, map, Some(h), seq![])
            },
            None => if line == IMAGE_END_DELIM@ {
                match cur {
                    Some(h) => match base64_decode_spec(trim(payload)) {
                        Err(e) => Err("invalid base64 for image "@ + h + ": "@ + e),
                        Ok(bytes) => blobs_from(ls, i + 1, map_insert(map, h, bytes), None, seq![]),
                    },
                    None => blobs_from(ls, i + 1, map, None, payload),
                }
            } else if cur is Some && trim(line).len() != 0 {
                blobs_from(ls, i + 1, map, cur, payload + trim(line))
            } else {
                blobs_from(ls, i + 1, map, cur, payload)
            },
        }
    }
}

/// What [`extract_image_blobs`] gives: the blobs by hash, none without an
/// IMAGES section, or the message for a duplicate hash or bad base64.
pub open spec fn image_blobs_spec(src: Seq<char>) -> Result<Seq<(Seq<char>, Seq<u8>)>, Seq<char>> {
    match section_body_spec(src, IMAGES_START@, IMAGES_END@) {
        None => Ok(seq![]),
        Some(body) => blobs_from(lines(body), 0, seq![], None, seq![]),
    }
}

/// The characters an optional vector holds.
pub open spec fn opt_chars(o: Option<Vec<char>>) -> Option<Seq<char>> {
    match o {
        Some(v) => Some(v@),
        None => None,
    }
}

/// Extract the IMAGES section into blobs by hash, sorted by hash. Within
/// the section each blob is a `---{hash}---` line, base64 payload lines and
/// a `---END---` line. A missing section yields no blobs.
pub fn extract_image_blobs(src: &str) -> (r: Result<Vec<(String, Vec<u8>)>, Error>)
    ensures
        match r {
            Ok(m) => image_blobs_spec(src@) == Ok::<_, Seq<char>>(entries(m@)),
            Err(e) => image_blobs_spec(src@) matches Err(msg) && e is FatFile && e->FatFile_0@ == msg,
        },
{
    let sc = chars_of(src);
    let start = chars_of(IMAGES_START);
    let end = chars_of(IMAGES_END);
    let body = match section_body(sc.as_slice(), start.as_slice(), end.as_slice()) {
        None => {
            proof {
                assert(entries(Seq::<(String, Vec<u8>)>::empty()) =~= Seq::<(Seq<char>, Seq<u8>)>::empty());
            }
            return Ok(Vec::new());
        },
        Some(b) => b,
    };
    let ls = lines_of(body.as_slice());
    let ghost lv = views(ls@);
    let end_delim = chars_of(IMAGE_END_DELIM);
    let dashes = chars_of("---");
    let cr = ['\r'];
    proof {
        assert(cr@ == seq!['\r']);
        reveal_strlit("---");
    }
    let mut map: Vec<(String, Vec<u8>)> = Vec::new();
    let mut cur: Option<Vec<char>> = None;
    let mut payload: Vec<char> = Vec::new();
    let mut i: usize = 0;
    proof {
        assert(entries(map@) =~= Seq::<(Seq<char>, Seq<u8>)>::empty());
    }
    while i < ls.len()
        invariant
            i <= ls@.len(),
            lv == views(ls@),
            lv.len() == ls@.len(),
            end_delim@ == IMAGE_END_DELIM@,
            dashes@ == "---"@,
            cr@ == seq!['\r'],
            image_blobs_spec(src@) == blobs_from(lv, i as int, entries(map@), opt_chars(cur), payload@),
        decreases ls@.len() - i,
    {
        let raw = ls[i].as_slice();
        proof {
            assert(lv[i as int] == ls@[i as int]@);
        }
        let n = crate::text::trim_end_set_len(raw, &cr);
        let line = slice_vec(raw, 0, n);
        let ln = line.len();
        let is_delim = ln > 6 && crate::text::range_eq(line.as_slice(), 0, 3, dashes.as_slice())
            && crate::text::range_eq(line.as_slice(), ln - 3, ln, dashes.as_slice())
            && !crate::text::chars_eq(line.as_slice(), end_delim.as_slice());
        if is_delim {
            let h = slice_vec(line.as_slice(), 3, ln - 3);
            let mut k: usize = 0;
            let ghost mv = entries(map@);
            proof {
                assert(mv.subrange(0, mv.len() as int) =~= mv);
                assert(line@ == crate::text::trim_end_set(lv[i as int], seq!['\r']));
                assert(blob_hash(line@) == Some(h@));
            }
            while k < map.len()
                invariant
                    k <= map@.len(),
                    mv == entries(map@),
                    i < lv.len(),
                    blob_hash(crate::text::trim_end_set(lv[i as int], seq!['\r'])) == Some(h@),
                    image_blobs_spec(src@) == blobs_from(lv, i as int, mv, opt_chars(cur), payload@),
                    map_get(mv, h@) == map_get(mv.subrange(k as int, mv.len() as int), h@),
                decreases map@.len() - k,
            {
                let ghost rest = mv.subrange(k as int, mv.len() as int);
                proof {
                    assert(rest[0] == (map@[k as int].0@, map@[k as int].1@));
                    assert(rest.drop_first() =~= mv.subrange(k + 1, mv.len() as int));
                }
                let key = chars_of(map[k].0.as_str());
                if crate::text::chars_eq(key.as_slice(), h.as_slice()) {
                    let mut m = chars_of("duplicate hash entry in IMAGES section: ");
                    push_all(&mut m, h.as_slice());
                    return Err(Error::FatFile(string_of(m.as_slice())));
                }
                k = k + 1;
            }
            cur = Some(h);
            payload = Vec::new();
        } else if crate::text::chars_eq(line.as_slice(), end_delim.as_slice()) {
            match cur {
                Some(h) => {
                    let p = trim_exec(payload.as_slice());
                    let ps = string_of(p.as_slice());
                    match base64_decode(ps.as_str()) {
                        Err(e) => {
                            let mut m = chars_of("invalid base64 for image ");
                            push_all(&mut m, h.as_slice());
                            crate::text::push_str(&mut m, ": ");
                            crate::text::push_str(&mut m, e.as_str());
                            return Err(Error::FatFile(string_of(m.as_slice())));
                        },
                        Ok(bytes) => {
                            insert_input(&mut map, string_of(h.as_slice()), bytes);
                        },
                    }
                    cur = None;
                    payload = Vec::new();
                },
                None => {
                    cur = None;
                },
            }
        } else {
            let t = trim_exec(line.as_slice());
            if cur.is_some() && t.len() != 0 {
                push_all(&mut payload, t.as_slice());
            }
        }
        i = i + 1;
    }
    Ok(map)
}

/// The manifest entries as name and hash.
pub open spec fn image_views(m: Seq<ImageRef>) -> Seq<(Seq<char>, Seq<char>)> {
    m.map_values(|i: ImageRef| (i.name@, i.hash@))
}

/// Each manifest entry whose hash has a blob, as its name and bytes.
pub open spec fn resolve_spec(blobs: Seq<(Seq<char>, Seq<u8>)>, manifest: Seq<(Seq<char>, Seq<char>)>) -> Seq<(Seq<char>, Seq<u8>)>
    decreases manifest.len(),
{
    if manifest.len() == 0 {
        seq![]
    } else {
        (match map_get(blobs, manifest[0].1) {
            Some(b) => seq![(manifest[0].0, b)],
            None => seq![],
        }) + resolve_spec(blobs, manifest.drop_first())
    }
}

/// Resolving images maps the manifest entry by entry, in manifest order: an
/// entry whose hash has a blob gives its name with those bytes, an entry
/// whose hash has none is skipped, and resolving two manifests one after
/// the other gives the two results one after the other.
pub proof fn law_resolve_filters_manifest(
    blobs: Seq<(Seq<char>, Seq<u8>)>,
    m1: Seq<(Seq<char>, Seq<char>)>,
    m2: Seq<(Seq<char>, Seq<char>)>,
    x: (Seq<char>, Seq<char>),
)
    ensures
        resolve_spec(blobs, seq![x]) == match map_get(blobs, x.1) {
            Some(b) => seq![(x.0, b)],
            None => Seq::<(Seq<char>, Seq<u8>)>::empty(),
        },
        resolve_spec(blobs, m1 + m2) == resolve_spec(blobs, m1) + resolve_spec(blobs, m2),
    decreases m1.len(),
{
    assert(seq![x].drop_first() =~= Seq::<(Seq<char>, Seq<char>)>::empty());
    assert(seq![x][0] == x);
    assert(resolve_spec(blobs, Seq::<(Seq<char>, Seq<char>)>::empty()) =~= Seq::<(Seq<char>, Seq<u8>)>::empty());
    assert(resolve_spec(blobs, seq![x]) =~= match map_get(blobs, x.1) {
        Some(b) => seq![(x.0, b)],
        None => Seq::<(Seq<char>, Seq<u8>)>::empty(),
    });
    if m1.len() == 0 {
        assert(m1 + m2 =~= m2);
        assert(resolve_spec(blobs, m1) + resolve_spec(blobs, m2) =~= resolve_spec(blobs, m2));
    } else {
        law_resolve_filters_manifest(blobs, m1.drop_first(), m2, x);
        assert((m1 + m2).drop_first() =~= m1.drop_first() + m2);
        assert((m1 + m2)[0] == m1[0]);
        let head: Seq<(Seq<char>, Seq<u8>)> = match map_get(blobs, m1[0].1) {
            Some(b) => seq![(m1[0].0, b)],
            None => seq![],
        };
        assert(resolve_spec(blobs, m1 + m2) == head + resolve_spec(blobs, m1.drop_first() + m2));
        assert(resolve_spec(blobs, m1) == head + resolve_spec(blobs, m1.drop_first()));
        assert(head + (resolve_spec(blobs, m1.drop_first()) + resolve_spec(blobs, m2)) =~= (head + resolve_spec(
            blobs,
            m1.drop_first(),
        )) + resolve_spec(blobs, m2));
    }
}

/// The index of the entry for `key` in a list, with its value.
pub fn find_key<V: View>(m: &Vec<(String, V)>, key: &[char]) -> (r: Option<usize>)
    ensures
        match r {
            Some(k) => k < m@.len() && map_get(entries(m@), key@) == Some(m@[k as int].1@),
            None => map_get(entries(m@), key@) is None,
        },
{
    let ghost e = entries(m@);
    let mut k: usize = 0;
    proof {
        assert(e.subrange(0, e.len() as int) =~= e);
    }
    while k < m.len()
        invariant
            k <= m@.len(),
            e == entries(m@),
            map_get(e, key@) == map_get(e.subrange(k as int, e.len() as int), key@),
        decreases m@.len() - k,
    {
        let ghost rest = e.subrange(k as int, e.len() as int);
        proof {
            assert(rest[0] == (m@[k as int].0@, m@[k as int].1@));
            assert(rest.drop_first() =~= e.subrange(k + 1, e.len() as int));
        }
        let name = chars_of(m[k].0.as_str());
        if crate::text::chars_eq(name.as_slice(), key) {
            return Some(k);
        }
        k = k + 1;
    }
    None
}

/// A copy of a byte vector.
fn copy_bytes(b: &Vec<u8>) -> (r: Vec<u8>)
    ensures
        r@ == b@,
{
    let mut out: Vec<u8> = Vec::new();
    let mut i: usize = 0;
    while i < b.len()
        invariant
            i <= b@.len(),
            out@ == b@.take(i as int),
        decreases b@.len() - i,
    {
        out.push(b[i]);
        proof {
            assert(b@.take(i + 1) =~= b@.take(i as int).push(b@[i as int]));
        }
        i = i + 1;
    }
    proof {
        assert(b@.take(b@.len() as int) =~= b@);
    }
    out
}

/// Resolve image references into `(name, bytes)` pairs by joining the
/// manifest (as read from the STATE prelude) to the IMAGES blobs by hash.
/// Entries whose hash has no blob are skipped. A malformed IMAGES section is
/// reported before a manifest that could not be read.
pub fn resolve_images_with(src: &str, manifest: Result<Vec<ImageRef>, Error>) -> (r: Result<Vec<(String, Vec<u8>)>, Error>)
    ensures
        match image_blobs_spec(src@) {
            Err(m) => r matches Err(e) && e is FatFile && e->FatFile_0@ == m,
            Ok(b) => match manifest {
                Err(e) => r == Err::<Vec<(String, Vec<u8>)>, Error>(e),
                Ok(man) => r matches Ok(v) && entries(v@) == resolve_spec(b, image_views(man@)),
            },
        },
{
    let blobs = match extract_image_blobs(src) {
        Err(e) => {
            return Err(e);
        },
        Ok(b) => b,
    };
    let man = match manifest {
        Err(e) => {
            return Err(e);
        },
        Ok(m) => m,
    };
    let ghost bv = entries(blobs@);
    let ghost mv = image_views(man@);
    let mut out: Vec<(String, Vec<u8>)> = Vec::new();
    let mut i: usize = 0;
    proof {
        assert(mv.subrange(0, mv.len() as int) =~= mv);
        assert(entries(out@) =~= Seq::<(Seq<char>, Seq<u8>)>::empty());
    }
    while i < man.len()
        invariant
            i <= man@.len(),
            bv == entries(blobs@),
            mv == image_views(man@),
            mv.len() == man@.len(),
            entries(out@) + resolve_spec(bv, mv.subrange(i as int, mv.len() as int)) == resolve_spec(bv, mv),
        decreases man@.len() - i,
    {
        let ghost rest = mv.subrange(i as int, mv.len() as int);
        let ghost before = entries(out@);
        proof {
            assert(rest[0] == (man@[i as int].name@, man@[i as int].hash@));
            assert(rest.drop_first() =~= mv.subrange(i + 1, mv.len() as int));
        }
        let h = chars_of(man[i].hash.as_str());
        match find_key(&blobs, h.as_slice()) {
            Some(k) => {
                out.push((crate::schema::owned(man[i].name.as_str()), copy_bytes(&blobs[k].1)));
                proof {
                    assert(entries(out@) =~= before + seq![(man@[i as int].name@, blobs@[k as int].1@)]);
                }
            },
            None => {},
        }
        proof {
            assert(entries(out@) + resolve_spec(bv, rest.drop_first()) =~= before + resolve_spec(bv, rest));
        }
        i = i + 1;
    }
    proof {
        assert(mv.subrange(mv.len() as int, mv.len() as int) =~= Seq::<(Seq<char>, Seq<char>)>::empty());
        assert(entries(out@) + Seq::<(Seq<char>, Seq<u8>)>::empty() =~= entries(out@));
    }
    Ok(out)
}

/// At most one of two line-scans succeeds: a first non-blank line that reads
/// as the four-section STATE marker is not the composed STATE start marker.
proof fn lemma_first_lines_differ(ls: Seq<Seq<char>>, from: int)
    requires
        0 <= from,
    ensures
        !(crate::fatfile::first_nonblank(ls, from) == Some(crate::fatfile::markers::STATE@) && first_trimmed(ls, from)
            == Some(STATE_START@)),
    decreases ls.len() - from,
{
    if from < ls.len() {
        let l = ls[from];
        crate::text::lemma_trim_empty(l);
        if crate::text::trim_end(l).len() != 0 {
            if crate::text::trim_end(l) == crate::fatfile::markers::STATE@ {
                reveal_strlit("// === STATE ===");
                reveal_strlit("/*===STATE-START===");
                crate::text::lemma_trim_end_first(l);
                assert(l[0] == '/');
                crate::text::lemma_trim_start_first(l);
                assert(trim(l) == crate::text::trim_end(l));
                assert(trim(l)[1] != STATE_START@[1]);
            }
        } else {
            lemma_first_lines_differ(ls, from + 1);
        }
    }
}

/// A text is never both a composed document and a four-section file, so a
/// `.ndoc.typ` is routed to at most one of the two readers.
pub proof fn law_composed_excludes_four_section(src: Seq<char>)
    ensures
        !(is_composed_spec(src) && crate::fatfile::is_four_section_spec(src)),
{
    lemma_first_lines_differ(lines(src), 0);
}

} // verus!
