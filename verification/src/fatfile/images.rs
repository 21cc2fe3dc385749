//! The IMAGES section of a four-section authoring file: one line per
//! embedded image, `// {hash} {base64}`, in hash order. The leading `// `
//! keeps the section inert Typst.
use vstd::prelude::*;

use crate::fatfile::composed::{base64_decode, base64_decode_spec, base64_encode, decodes_back, encoded_text_ok, is_base64_char, lemma_decodes_back, spec_base64_encode};
use crate::inputs::{entries, insert_input, is_sorted, lemma_seq_lt_asym, map_insert, seq_lt};
use crate::text::{
    chars_of, find_char_from, free_of, is_prefix, join, join_exec, lemma_lines_join, lines, lines_of, push_all,
    push_str, slice_vec, split_once_char, starts_with, string_of, trim, trim_end, trim_end_len, views,
};

verus! {

/// What one line of the section holds: the hash and the (trimmed) payload
/// of a line that reads `// {hash} {payload}` once trailing whitespace is
/// removed.
pub open spec fn image_line(l: Seq<char>) -> Option<(Seq<char>, Seq<char>)> {
    let t = trim_end(l);
    if !is_prefix("// "@, t) {
        None
    } else {
        match split_once_char(t.skip(3), ' ') {
            None => None,
            Some(p) => Some((p.0, trim(p.1))),
        }
    }
}

/// The images the first `n` lines give, by hash: a line of the right shape
/// whose payload decodes sets its hash to the bytes; other lines are
/// skipped.
pub open spec fn images_from(ls: Seq<Seq<char>>, n: int) -> Seq<(Seq<char>, Seq<u8>)>
    decreases n,
{
    if n <= 0 || n > ls.len() {
        seq![]
    } else {
        let m = images_from(ls, n - 1);
        match image_line(ls[n - 1]) {
            None => m,
            Some(p) => match base64_decode_spec(p.1) {
                Ok(b) => map_insert(m, p.0, b),
                Err(_) => m,
            },
        }
    }
}

/// The images an IMAGES section holds, by hash.
pub open spec fn parse_images_spec(s: Seq<char>) -> Seq<(Seq<char>, Seq<u8>)> {
    images_from(lines(s), lines(s).len() as int)
}

/// The line that stores one image.
pub open spec fn image_entry_line(hash: Seq<char>, bytes: Seq<u8>) -> Seq<char> {
    "// "@ + hash + seq![' '] + spec_base64_encode(bytes)
}

/// The IMAGES section that stores the images, one line each, in order.
pub open spec fn write_images_spec(m: Seq<(Seq<char>, Seq<u8>)>) -> Seq<char> {
    join(m.map_values(|p: (Seq<char>, Seq<u8>)| image_entry_line(p.0, p.1)), seq!['\n'])
}

fn image_line_exec(l: &[char]) -> (r: Option<(Vec<char>, Vec<char>)>)
    ensures
        match r {
            Some(p) => image_line(l@) == Some((p.0@, p.1@)),
            None => image_line(l@) is None,
        },
{
    let n = trim_end_len(l);
    let t = slice_vec(l, 0, n);
    let prefix = chars_of("// ");
    proof {
        reveal_strlit("// ");
    }
    if !starts_with(t.as_slice(), prefix.as_slice()) {
        return None;
    }
    let rest = slice_vec(t.as_slice(), 3, t.len());
    proof {
        assert(rest@ =~= t@.skip(3));
    }
    match find_char_from(rest.as_slice(), ' ', 0) {
        None => None,
        Some(i) => {
            proof {
                crate::text::lemma_find_from_sound(rest@, seq![' '], 0);
            }
            let hash = slice_vec(rest.as_slice(), 0, i);
            let payload = slice_vec(rest.as_slice(), i + 1, rest.len());
            let p = crate::fatfile::composed::trim_chars(payload.as_slice());
            Some((hash, p))
        },
    }
}

/// Parse an IMAGES section body into its images, by hash (see
/// [`parse_images_spec`]). Lines of another shape, or whose payload does
/// not decode, are skipped, so a hand-edited section never aborts a read.
pub fn parse_images_section(images: &str) -> (r: Vec<(String, Vec<u8>)>)
    ensures
        entries(r@) == parse_images_spec(images@),
{
    let cs = chars_of(images);
    let ls = lines_of(cs.as_slice());
    let ghost lv = views(ls@);
    let mut map: Vec<(String, Vec<u8>)> = Vec::new();
    let mut i: usize = 0;
    while i < ls.len()
        invariant
            i <= ls@.len(),
            lv == views(ls@),
            lv == lines(images@),
            entries(map@) == images_from(lv, i as int),
        decreases ls@.len() - i,
    {
        proof {
            assert(lv[i as int] == ls@[i as int]@);
        }
        if let Some((hash, payload)) = image_line_exec(ls[i].as_slice()) {
            match base64_decode(string_of(payload.as_slice()).as_str()) {
                Ok(bytes) => {
                    insert_input(&mut map, string_of(hash.as_slice()), bytes);
                },
                Err(_) => {},
            }
        }
        i = i + 1;
    }
    map
}

/// Render the images back into an IMAGES section body, one line each in
/// the order given (see [`write_images_spec`]).
pub fn write_images_section(images: &Vec<(String, Vec<u8>)>) -> (r: String)
    ensures
        r@ == write_images_spec(entries(images@)),
{
    let mut lines_out: Vec<Vec<char>> = Vec::new();
    let mut i: usize = 0;
    while i < images.len()
        invariant
            i <= images@.len(),
            lines_out@.len() == i,
            forall|k: int|
                0 <= k < i ==> #[trigger] lines_out@[k]@ == image_entry_line(images@[k].0@, images@[k].1@),
        decreases images@.len() - i,
    {
        let mut l = chars_of("// ");
        push_str(&mut l, images[i].0.as_str());
        l.push(' ');
        let payload = base64_encode(images[i].1.as_slice());
        push_str(&mut l, payload.as_str());
        lines_out.push(l);
        i = i + 1;
    }
    let sep = vec!['\n'];
    let r = join_exec(lines_out.as_slice(), sep.as_slice());
    proof {
        assert(sep@ =~= seq!['\n']);
        assert(views(lines_out@) =~= entries(images@).map_values(
            |p: (Seq<char>, Seq<u8>)| image_entry_line(p.0, p.1),
        ));
    }
    string_of(r.as_slice())
}

/// Inserting a name that sorts after every name present appends it.
proof fn lemma_insert_last<V>(m: Seq<(Seq<char>, V)>, k: Seq<char>, v: V)
    requires
        forall|i: int| 0 <= i < m.len() ==> seq_lt(#[trigger] m[i].0, k),
    ensures
        map_insert(m, k, v) == m.push((k, v)),
    decreases m.len(),
{
    if m.len() > 0 {
        lemma_seq_lt_asym(m[0].0, k);
        let rest = m.drop_first();
        assert forall|i: int| 0 <= i < rest.len() implies seq_lt(#[trigger] rest[i].0, k) by {
            assert(rest[i] == m[i + 1]);
        }
        lemma_insert_last(rest, k, v);
        assert(m == seq![m[0]] + rest);
        assert(seq![m[0]] + rest.push((k, v)) =~= m.push((k, v)));
    }
}

/// A payload line of the section: it holds no line feed and does not end
/// in whitespace.
proof fn lemma_entry_line(hash: Seq<char>, bytes: Seq<u8>)
    requires
        free_of(hash, '\n'),
        free_of(hash, ' '),
        bytes.len() > 0,
        encoded_text_ok(bytes),
    ensures
        free_of(image_entry_line(hash, bytes), '\n'),
        image_entry_line(hash, bytes).len() > 0,
        image_entry_line(hash, bytes).last() != '\r',
        image_line(image_entry_line(hash, bytes)) == Some((hash, spec_base64_encode(bytes))),
{
    reveal_strlit("// ");
    let e = spec_base64_encode(bytes);
    let l = image_entry_line(hash, bytes);
    assert(e.len() > 0);
    assert forall|i: int| 0 <= i < l.len() implies l[i] != '\n' by {
        if i >= 3 + hash.len() + 1 {
            assert(l[i] == e[i - 3 - hash.len() - 1]);
            assert(is_base64_char(e[i - 3 - hash.len() - 1]));
        } else if i >= 3 && i < 3 + hash.len() {
            assert(l[i] == hash[i - 3]);
        }
    }
    assert(l.last() == e.last());
    assert(is_base64_char(e.last()));
    assert(!crate::text::is_ws(l.last()));
    assert(trim_end(l) == l);
    assert(l.subrange(0, 3) =~= "// "@);
    let rest = l.skip(3);
    assert(rest =~= hash + seq![' '] + e);
    crate::text::lemma_find_char_first(rest, ' ', hash.len() as int);
    assert(rest.subrange(0, hash.len() as int) =~= hash);
    assert(rest.subrange(hash.len() as int + 1, rest.len() as int) =~= e);
    crate::text::lemma_trim_no_ws(e);
}

/// Reading back the IMAGES section: parsing the section written for a
/// sorted set of images gives them back, when no hash holds a space or a
/// line feed and no image is empty.
pub proof fn law_parse_write_images(m: Seq<(Seq<char>, Seq<u8>)>)
    requires
        is_sorted(m),
        forall|i: int| 0 <= i < m.len() ==> free_of(#[trigger] m[i].0, ' ') && free_of(m[i].0, '\n'),
        forall|i: int| 0 <= i < m.len() ==> (#[trigger] m[i].1).len() > 0,
    ensures
        parse_images_spec(write_images_spec(m)) == m,
{
    assert forall|i: int| 0 <= i < m.len() implies encoded_text_ok(#[trigger] m[i].1) && decodes_back(m[i].1) by {
        crate::fatfile::composed::lemma_encoded_text_ok(m[i].1);
        lemma_decodes_back(m[i].1);
    }
    let e = m.map_values(|p: (Seq<char>, Seq<u8>)| image_entry_line(p.0, p.1));
    assert forall|k: int| 0 <= k < e.len() implies free_of(#[trigger] e[k], '\n') by {
        lemma_entry_line(m[k].0, m[k].1);
    }
    assert forall|k: int| 0 <= k < e.len() implies !(#[trigger] e[k].len() > 0 && e[k].last() == '\r') by {
        lemma_entry_line(m[k].0, m[k].1);
    }
    if e.len() > 0 {
        lemma_entry_line(m[e.len() - 1].0, m[e.len() - 1].1);
    }
    lemma_lines_join(e);
    lemma_images_from(m, e, m.len() as int);
    assert(m.take(m.len() as int) =~= m);
}

proof fn lemma_images_from(m: Seq<(Seq<char>, Seq<u8>)>, e: Seq<Seq<char>>, n: int)
    requires
        is_sorted(m),
        forall|i: int| 0 <= i < m.len() ==> encoded_text_ok(#[trigger] m[i].1) && decodes_back(m[i].1),
        forall|i: int| 0 <= i < m.len() ==> free_of(#[trigger] m[i].0, ' ') && free_of(m[i].0, '\n'),
        forall|i: int| 0 <= i < m.len() ==> (#[trigger] m[i].1).len() > 0,
        e == m.map_values(|p: (Seq<char>, Seq<u8>)| image_entry_line(p.0, p.1)),
        0 <= n <= m.len(),
    ensures
        images_from(e, n) == m.take(n),
    decreases n,
{
    if n > 0 {
        lemma_images_from(m, e, n - 1);
        lemma_entry_line(m[n - 1].0, m[n - 1].1);
        let prev = m.take(n - 1);
        assert forall|i: int| 0 <= i < prev.len() implies seq_lt(#[trigger] prev[i].0, m[n - 1].0) by {
            assert(prev[i] == m[i]);
        }
        lemma_insert_last(prev, m[n - 1].0, m[n - 1].1);
        assert(prev.push((m[n - 1].0, m[n - 1].1)) =~= m.take(n));
    }
}

} // verus!
