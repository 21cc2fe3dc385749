//! Character-sequence helpers shared by every parser and composer.
//!
//! All text formats of the library are processed as sequences of `char`s:
//! an input `&str` is turned into a `Vec<char>` once, scanned by index, and
//! the output is assembled as a `Vec<char>` before it becomes a `String`.
//! Each helper is specified over `Seq<char>`, the view of both `str` and
//! `String`.
use vstd::prelude::*;

verus! {

/// `p` is a prefix of `s`.
pub open spec fn is_prefix(p: Seq<char>, s: Seq<char>) -> bool {
    p.len() <= s.len() && s.subrange(0, p.len() as int) == p
}

/// `p` is a suffix of `s`.
pub open spec fn is_suffix(p: Seq<char>, s: Seq<char>) -> bool {
    p.len() <= s.len() && s.subrange(s.len() - p.len(), s.len() as int) == p
}

/// `pat` occurs in `s` starting at position `i`.
pub open spec fn occurs_at(s: Seq<char>, pat: Seq<char>, i: int) -> bool {
    0 <= i && i + pat.len() <= s.len() && s.subrange(i, i + pat.len()) == pat
}

/// The first position at or after `from` where `pat` occurs in `s`.
pub open spec fn find_from(s: Seq<char>, pat: Seq<char>, from: int) -> Option<int>
    decreases s.len() + 1 - from,
{
    if from < 0 || from + pat.len() > s.len() {
        None
    } else if occurs_at(s, pat, from) {
        Some(from)
    } else {
        find_from(s, pat, from + 1)
    }
}

/// The first position where `pat` occurs in `s`.
pub open spec fn find(s: Seq<char>, pat: Seq<char>) -> Option<int> {
    find_from(s, pat, 0)
}

/// The first position of the character `c` in `s`.
pub open spec fn find_char(s: Seq<char>, c: char) -> Option<int> {
    find(s, seq![c])
}

/// `s` contains `pat` somewhere.
pub open spec fn contains(s: Seq<char>, pat: Seq<char>) -> bool {
    find(s, pat) is Some
}

/// Drop one trailing carriage return, if present.
pub open spec fn strip_cr(l: Seq<char>) -> Seq<char> {
    if l.len() > 0 && l.last() == '\r' {
        l.drop_last()
    } else {
        l
    }
}

/// The lines of `s`, split at `\n` or `\r\n`; a final line ending is optional
/// and yields no trailing empty line.
pub open spec fn lines(s: Seq<char>) -> Seq<Seq<char>>
    decreases s.len(),
{
    if s.len() == 0 {
        seq![]
    } else {
        match find_char(s, '\n') {
            None => seq![s],
            Some(i) => {
                if 0 <= i < s.len() {
                    seq![strip_cr(s.subrange(0, i))] + lines(s.subrange(i + 1, s.len() as int))
                } else {
                    seq![s]
                }
            },
        }
    }
}

/// Join `parts` with `sep` between consecutive parts.
pub open spec fn join(parts: Seq<Seq<char>>, sep: Seq<char>) -> Seq<char>
    decreases parts.len(),
{
    if parts.len() == 0 {
        seq![]
    } else if parts.len() == 1 {
        parts[0]
    } else {
        join(parts.drop_last(), sep) + sep + parts.last()
    }
}

/// Whitespace as understood by `char::is_whitespace` (the Unicode
/// `White_Space` property).
pub open spec fn is_ws(c: char) -> bool {
    ||| c == ' ' || c == '\t' || c == '\n' || c == '\r' || c == '\x0b' || c == '\x0c'
    ||| c == '\u{85}' || c == '\u{a0}' || c == '\u{1680}'
    ||| ('\u{2000}' <= c && c <= '\u{200a}')
    ||| c == '\u{2028}' || c == '\u{2029}' || c == '\u{202f}' || c == '\u{205f}' || c == '\u{3000}'
}

/// Remove leading characters that satisfy `is_ws`.
pub open spec fn trim_start(s: Seq<char>) -> Seq<char>
    decreases s.len(),
{
    if s.len() > 0 && is_ws(s[0]) {
        trim_start(s.drop_first())
    } else {
        s
    }
}

/// Remove trailing characters that satisfy `is_ws`.
pub open spec fn trim_end(s: Seq<char>) -> Seq<char>
    decreases s.len(),
{
    if s.len() > 0 && is_ws(s.last()) {
        trim_end(s.drop_last())
    } else {
        s
    }
}

/// Remove surrounding whitespace.
pub open spec fn trim(s: Seq<char>) -> Seq<char> {
    trim_end(trim_start(s))
}

/// Remove leading characters that belong to `set`.
pub open spec fn trim_start_set(s: Seq<char>, set: Seq<char>) -> Seq<char>
    decreases s.len(),
{
    if s.len() > 0 && set.contains(s[0]) {
        trim_start_set(s.drop_first(), set)
    } else {
        s
    }
}

/// Remove trailing characters that belong to `set`.
pub open spec fn trim_end_set(s: Seq<char>, set: Seq<char>) -> Seq<char>
    decreases s.len(),
{
    if s.len() > 0 && set.contains(s.last()) {
        trim_end_set(s.drop_last(), set)
    } else {
        s
    }
}

/// Replace every occurrence of `c` by `rep`.
pub open spec fn replace_char(s: Seq<char>, c: char, rep: Seq<char>) -> Seq<char>
    decreases s.len(),
{
    if s.len() == 0 {
        seq![]
    } else {
        (if s[0] == c { rep } else { seq![s[0]] }) + replace_char(s.drop_first(), c, rep)
    }
}

// ---------------------------------------------------------------------------
// Conversions between `str`/`String` and `Vec<char>`.
// ---------------------------------------------------------------------------

/// The characters of `s`, in order.
pub fn chars_of(s: &str) -> (v: Vec<char>)
    ensures
        v@ == s@,
{
    let mut v: Vec<char> = Vec::new();
    for c in it: s.chars()
        invariant
            v@ == it.seq().take(it.index() as int),
            it.seq() == s@,
    {
        v.push(c);
    }
    v
}

/// Build a `String` holding exactly the characters of `v`.
#[verifier::external_body]
pub fn string_of(v: &[char]) -> (s: String)
    ensures
        s@ == v@,
{
    v.iter().collect()
}

/// Append all of `s` to `out`.
pub fn push_all(out: &mut Vec<char>, s: &[char])
    ensures
        final(out)@ == old(out)@ + s@,
{
    let mut i: usize = 0;
    while i < s.len()
        invariant
            i <= s@.len(),
            out@ == old(out)@ + s@.subrange(0, i as int),
        decreases s@.len() - i,
    {
        out.push(s[i]);
        i = i + 1;
        assert(s@.subrange(0, i as int) == s@.subrange(0, i - 1) + seq![s@[i - 1]]);
    }
    assert(s@.subrange(0, s@.len() as int) == s@);
}

/// Append the characters of `s` to `out`.
pub fn push_str(out: &mut Vec<char>, s: &str)
    ensures
        final(out)@ == old(out)@ + s@,
{
    let cs = chars_of(s);
    push_all(out, cs.as_slice());
}

/// A fresh vector holding `s[from..to]`.
pub fn slice_vec(s: &[char], from: usize, to: usize) -> (r: Vec<char>)
    requires
        from <= to <= s@.len(),
    ensures
        r@ == s@.subrange(from as int, to as int),
{
    let mut r: Vec<char> = Vec::new();
    let mut i = from;
    while i < to
        invariant
            from <= i <= to <= s@.len(),
            r@ == s@.subrange(from as int, i as int),
        decreases to - i,
    {
        r.push(s[i]);
        i = i + 1;
        assert(s@.subrange(from as int, i as int) == s@.subrange(from as int, i - 1) + seq![
            s@[i - 1],
        ]);
    }
    r
}

/// A fresh `String` holding `s[from..to]`.
pub fn slice_string(s: &[char], from: usize, to: usize) -> (r: String)
    requires
        from <= to <= s@.len(),
    ensures
        r@ == s@.subrange(from as int, to as int),
{
    let v = slice_vec(s, from, to);
    string_of(v.as_slice())
}

/// A copy of `s` as a vector.
pub fn to_vec(s: &[char]) -> (r: Vec<char>)
    ensures
        r@ == s@,
{
    slice_vec(s, 0, s.len())
}

// ---------------------------------------------------------------------------
// Searching.
// ---------------------------------------------------------------------------

/// Whether `pat` occurs in `s` at position `i`.
pub fn matches_at(s: &[char], pat: &[char], i: usize) -> (b: bool)
    ensures
        b == occurs_at(s@, pat@, i as int),
{
    if i > s.len() || pat.len() > s.len() - i {
        return false;
    }
    let mut k: usize = 0;
    while k < pat.len()
        invariant
            i + pat@.len() <= s@.len(),
            k <= pat@.len(),
            s@.len() <= usize::MAX,
            forall|j: int| 0 <= j < k ==> s@[i + j] == pat@[j],
        decreases pat@.len() - k,
    {
        if s[i + k] != pat[k] {
            assert(s@.subrange(i as int, i + pat@.len())[k as int] != pat@[k as int]);
            return false;
        }
        k = k + 1;
    }
    assert(s@.subrange(i as int, i + pat@.len()) =~= pat@);
    true
}

/// The first position at or after `from` where `pat` occurs in `s`.
pub fn find_from_exec(s: &[char], pat: &[char], from: usize) -> (r: Option<usize>)
    ensures
        match r {
            Some(i) => find_from(s@, pat@, from as int) == Some(i as int),
            None => find_from(s@, pat@, from as int) is None,
        },
{
    if pat.len() == 0 {
        if from <= s.len() {
            assert(s@.subrange(from as int, from as int) =~= pat@);
            return Some(from);
        }
        return None;
    }
    let mut i = from;
    while i <= s.len() && pat.len() <= s.len() - i
        invariant
            from <= i,
            pat@.len() > 0,
            find_from(s@, pat@, from as int) == find_from(s@, pat@, i as int),
        decreases s@.len() + 1 - i,
    {
        if matches_at(s, pat, i) {
            return Some(i);
        }
        i = i + 1;
    }
    None
}

/// The first position where `pat` occurs in `s`.
pub fn find_exec(s: &[char], pat: &[char]) -> (r: Option<usize>)
    ensures
        match r {
            Some(i) => find(s@, pat@) == Some(i as int),
            None => find(s@, pat@) is None,
        },
{
    find_from_exec(s, pat, 0)
}

/// The first position at or after `from` where `c` occurs in `s`.
pub fn find_char_from(s: &[char], c: char, from: usize) -> (r: Option<usize>)
    ensures
        match r {
            Some(i) => find_from(s@, seq![c], from as int) == Some(i as int),
            None => find_from(s@, seq![c], from as int) is None,
        },
{
    let pat = [c];
    assert(pat@ == seq![c]);
    find_from_exec(s, &pat, from)
}

/// A found position is an occurrence, and nothing between `from` and it is.
pub proof fn lemma_find_from_sound(s: Seq<char>, pat: Seq<char>, from: int)
    requires
        0 <= from,
    ensures
        match find_from(s, pat, from) {
            Some(i) => from <= i && occurs_at(s, pat, i) && forall|j: int|
                from <= j < i ==> !occurs_at(s, pat, j),
            None => forall|j: int| from <= j ==> !occurs_at(s, pat, j),
        },
    decreases s.len() + 1 - from,
{
    if from + pat.len() > s.len() {
    } else if occurs_at(s, pat, from) {
    } else {
        lemma_find_from_sound(s, pat, from + 1);
    }
}


/// Searching a suffix of `s` finds the same occurrences, shifted.
pub proof fn lemma_find_shift(s: Seq<char>, pat: Seq<char>, start: int, k: int)
    requires
        0 <= start <= k,
        start <= s.len(),
    ensures
        find_from(s, pat, k) == match find_from(s.subrange(start, s.len() as int), pat, k - start) {
            Some(i) => Some(i + start),
            None => None,
        },
    decreases s.len() + 1 - k,
{
    let t = s.subrange(start, s.len() as int);
    if k + pat.len() > s.len() {
    } else {
        assert(t.subrange(k - start, k - start + pat.len()) =~= s.subrange(k, k + pat.len()));
        if occurs_at(s, pat, k) {
        } else {
            lemma_find_shift(s, pat, start, k + 1);
        }
    }
}

/// Drop one trailing carriage return.
pub fn strip_cr_exec(l: Vec<char>) -> (r: Vec<char>)
    ensures
        r@ == strip_cr(l@),
{
    let mut l = l;
    if l.len() > 0 && l[l.len() - 1] == '\r' {
        l.pop();
    }
    l
}

/// The character sequences held by a sequence of vectors.
pub open spec fn views(v: Seq<Vec<char>>) -> Seq<Seq<char>> {
    v.map_values(|l: Vec<char>| l@)
}

/// The lines of `s` (see [`lines`]).
pub fn lines_of(s: &[char]) -> (r: Vec<Vec<char>>)
    ensures
        views(r@) == lines(s@),
{
    let mut r: Vec<Vec<char>> = Vec::new();
    let mut start: usize = 0;
    assert(s@.subrange(0, s@.len() as int) =~= s@);
    while start < s.len()
        invariant
            start <= s@.len(),
            views(r@) + lines(s@.subrange(start as int, s@.len() as int)) == lines(s@),
        decreases s@.len() - start,
    {
        let ghost t = s@.subrange(start as int, s@.len() as int);
        proof {
            lemma_find_shift(s@, seq!['\n'], start as int, start as int);
        }
        match find_char_from(s, '\n', start) {
            Some(i) => {
                proof {
                    lemma_find_from_sound(t, seq!['\n'], 0);
                }
                let line = slice_vec(s, start, i);
                let line = strip_cr_exec(line);
                let ghost old_r = r@;
                r.push(line);
                assert(t.subrange(0, i - start) =~= s@.subrange(start as int, i as int));
                assert(t.subrange(i - start + 1, t.len() as int) =~= s@.subrange(
                    i + 1,
                    s@.len() as int,
                ));
                assert(views(r@) =~= views(old_r).push(line@));
                assert(views(old_r).push(line@) + lines(s@.subrange(i + 1, s@.len() as int)) =~= views(old_r)
                    + lines(t));
                start = i + 1;
            },
            None => {
                let line = slice_vec(s, start, s.len());
                let ghost old_r = r@;
                r.push(line);
                assert(views(r@) =~= views(old_r).push(t));
                assert(lines(s@.subrange(s@.len() as int, s@.len() as int)) =~= Seq::<
                    Seq<char>,
                >::empty());
                assert(views(old_r).push(t) =~= views(old_r) + lines(t));
                start = s.len();
            },
        }
    }
    assert(lines(s@.subrange(s@.len() as int, s@.len() as int)) =~= Seq::<Seq<char>>::empty());
    assert(views(r@) + Seq::<Seq<char>>::empty() =~= views(r@));
    r
}


/// Whether `c` is whitespace (see [`is_ws`]).
pub fn is_ws_exec(c: char) -> (b: bool)
    ensures
        b == is_ws(c),
{
    c == ' ' || c == '\t' || c == '\n' || c == '\r' || c == '\x0b' || c == '\x0c' || c == '\u{85}'
        || c == '\u{a0}' || c == '\u{1680}' || ('\u{2000}' <= c && c <= '\u{200a}') || c
        == '\u{2028}' || c == '\u{2029}' || c == '\u{202f}' || c == '\u{205f}' || c == '\u{3000}'
}

/// The length of `s` once trailing whitespace is removed.
pub fn trim_end_len(s: &[char]) -> (n: usize)
    ensures
        n <= s@.len(),
        trim_end(s@) == s@.subrange(0, n as int),
{
    let mut n = s.len();
    assert(s@.subrange(0, n as int) =~= s@);
    while n > 0 && is_ws_exec(s[n - 1])
        invariant
            n <= s@.len(),
            trim_end(s@) == trim_end(s@.subrange(0, n as int)),
        decreases n,
    {
        assert(s@.subrange(0, n as int).drop_last() =~= s@.subrange(0, n - 1));
        n = n - 1;
    }
    n
}

/// The position of the first character of `s` that is not whitespace.
pub fn trim_start_pos(s: &[char]) -> (k: usize)
    ensures
        k <= s@.len(),
        trim_start(s@) == s@.subrange(k as int, s@.len() as int),
{
    let mut k: usize = 0;
    assert(s@.subrange(0, s@.len() as int) =~= s@);
    while k < s.len() && is_ws_exec(s[k])
        invariant
            k <= s@.len(),
            trim_start(s@) == trim_start(s@.subrange(k as int, s@.len() as int)),
        decreases s@.len() - k,
    {
        assert(s@.subrange(k as int, s@.len() as int).drop_first() =~= s@.subrange(
            k + 1,
            s@.len() as int,
        ));
        k = k + 1;
    }
    k
}

/// Whether `s[from..to]` equals `t`.
pub fn range_eq(s: &[char], from: usize, to: usize, t: &[char]) -> (b: bool)
    requires
        from <= to <= s@.len(),
    ensures
        b == (s@.subrange(from as int, to as int) == t@),
{
    if to - from != t.len() {
        return false;
    }
    let mut k: usize = 0;
    while k < t.len()
        invariant
            to - from == t@.len(),
            from <= to <= s@.len(),
            k <= t@.len(),
            forall|j: int| 0 <= j < k ==> s@[from + j] == t@[j],
        decreases t@.len() - k,
    {
        if s[from + k] != t[k] {
            assert(s@.subrange(from as int, to as int)[k as int] != t@[k as int]);
            return false;
        }
        k = k + 1;
    }
    assert(s@.subrange(from as int, to as int) =~= t@);
    true
}

/// Whether `a` and `b` hold the same characters.
pub fn chars_eq(a: &[char], b: &[char]) -> (r: bool)
    ensures
        r == (a@ == b@),
{
    assert(a@.subrange(0, a@.len() as int) =~= a@);
    range_eq(a, 0, a.len(), b)
}

/// Whether `p` is a prefix of `s`.
pub fn starts_with(s: &[char], p: &[char]) -> (b: bool)
    ensures
        b == is_prefix(p@, s@),
{
    if p.len() > s.len() {
        return false;
    }
    range_eq(s, 0, p.len(), p)
}

/// Whether `p` is a suffix of `s`.
pub fn ends_with(s: &[char], p: &[char]) -> (b: bool)
    ensures
        b == is_suffix(p@, s@),
{
    if p.len() > s.len() {
        return false;
    }
    range_eq(s, s.len() - p.len(), s.len(), p)
}

/// `parts` joined with `sep` (see [`join`]).
pub fn join_exec(parts: &[Vec<char>], sep: &[char]) -> (r: Vec<char>)
    ensures
        r@ == join(views(parts@), sep@),
{
    let mut r: Vec<char> = Vec::new();
    let mut i: usize = 0;
    while i < parts.len()
        invariant
            i <= parts@.len(),
            r@ == join(views(parts@.subrange(0, i as int)), sep@),
        decreases parts@.len() - i,
    {
        let ghost before = r@;
        if i > 0 {
            push_all(&mut r, sep);
        }
        push_all(&mut r, parts[i].as_slice());
        proof {
            let a = views(parts@.subrange(0, i + 1));
            assert(a.drop_last() =~= views(parts@.subrange(0, i as int)));
            assert(a.last() == parts@[i as int]@);
            if i == 0 {
                assert(a.len() == 1);
                assert(before =~= Seq::<char>::empty());
                assert(r@ =~= a[0]);
            }
        }
        i = i + 1;
    }
    assert(parts@.subrange(0, parts@.len() as int) =~= parts@);
    r
}


/// `parts[from..to]` joined with `sep`.
pub fn join_range(parts: &[Vec<char>], from: usize, to: usize, sep: &[char]) -> (r: Vec<char>)
    requires
        from <= to <= parts@.len(),
    ensures
        r@ == join(views(parts@.subrange(from as int, to as int)), sep@),
{
    let mut r: Vec<char> = Vec::new();
    let mut i: usize = from;
    while i < to
        invariant
            from <= i <= to <= parts@.len(),
            r@ == join(views(parts@.subrange(from as int, i as int)), sep@),
        decreases to - i,
    {
        let ghost before = r@;
        if i > from {
            push_all(&mut r, sep);
        }
        push_all(&mut r, parts[i].as_slice());
        proof {
            let a = views(parts@.subrange(from as int, i + 1));
            assert(a.drop_last() =~= views(parts@.subrange(from as int, i as int)));
            assert(a.last() == parts@[i as int]@);
            if i == from {
                assert(a.len() == 1);
                assert(before =~= Seq::<char>::empty());
                assert(r@ =~= a[0]);
            }
        }
        i = i + 1;
    }
    r
}


/// The pieces of `s` between `\n` characters (at least one piece).
pub open spec fn split_lf(s: Seq<char>) -> Seq<Seq<char>>
    decreases s.len(),
{
    match find_char(s, '\n') {
        Some(i) => {
            if 0 <= i < s.len() {
                seq![s.subrange(0, i)] + split_lf(s.subrange(i + 1, s.len() as int))
            } else {
                seq![s]
            }
        },
        None => seq![s],
    }
}

/// A single-character pattern occurs exactly where that character is.
pub proof fn lemma_occurs_char(s: Seq<char>, c: char, i: int)
    ensures
        occurs_at(s, seq![c], i) <==> (0 <= i < s.len() && s[i] == c),
{
    if 0 <= i < s.len() {
        if s[i] == c {
            assert(s.subrange(i, i + 1) =~= seq![c]);
        } else {
            assert(s.subrange(i, i + 1)[0] != seq![c][0]);
        }
    }
}

/// Characterisation of the first occurrence: an occurrence with none before
/// it is what the search finds.
pub proof fn lemma_find_from_complete(s: Seq<char>, pat: Seq<char>, from: int, i: int)
    requires
        0 <= from <= i,
        occurs_at(s, pat, i),
        forall|j: int| from <= j < i ==> !occurs_at(s, pat, j),
    ensures
        find_from(s, pat, from) == Some(i),
    decreases i - from,
{
    if from < i {
        assert(!occurs_at(s, pat, from));
        lemma_find_from_complete(s, pat, from + 1, i);
    }
}

/// With no occurrence at or after `from`, the search finds nothing.
pub proof fn lemma_find_from_none(s: Seq<char>, pat: Seq<char>, from: int)
    requires
        0 <= from,
        forall|j: int| from <= j ==> !occurs_at(s, pat, j),
    ensures
        find_from(s, pat, from) is None,
    decreases s.len() + 1 - from,
{
    if from + pat.len() > s.len() {
    } else {
        assert(!occurs_at(s, pat, from));
        lemma_find_from_none(s, pat, from + 1);
    }
}

/// Searching `x + y` for a character finds it in `x` first, else in `y`.
pub proof fn lemma_find_char_cat(x: Seq<char>, y: Seq<char>, c: char)
    ensures
        find_char(x + y, c) == match find_char(x, c) {
            Some(i) => Some(i),
            None => match find_char(y, c) {
                Some(j) => Some(j + x.len()),
                None => None,
            },
        },
{
    let s = x + y;
    lemma_find_from_sound(x, seq![c], 0);
    lemma_find_from_sound(y, seq![c], 0);
    match find_char(x, c) {
        Some(i) => {
            lemma_occurs_char(x, c, i);
            lemma_occurs_char(s, c, i);
            assert forall|j: int| 0 <= j < i implies !occurs_at(s, seq![c], j) by {
                lemma_occurs_char(x, c, j);
                lemma_occurs_char(s, c, j);
            }
            lemma_find_from_complete(s, seq![c], 0, i);
        },
        None => {
            assert forall|j: int| 0 <= j < x.len() implies !occurs_at(s, seq![c], j) by {
                lemma_occurs_char(x, c, j);
                lemma_occurs_char(s, c, j);
            }
            match find_char(y, c) {
                Some(j) => {
                    lemma_occurs_char(y, c, j);
                    lemma_occurs_char(s, c, j + x.len());
                    assert forall|k: int| 0 <= k < j + x.len() implies !occurs_at(s, seq![c], k) by {
                        lemma_occurs_char(s, c, k);
                        if k >= x.len() {
                            lemma_occurs_char(y, c, k - x.len());
                        }
                    }
                    lemma_find_from_complete(s, seq![c], 0, j + x.len());
                },
                None => {
                    assert forall|k: int| 0 <= k implies !occurs_at(s, seq![c], k) by {
                        lemma_occurs_char(s, c, k);
                        if k >= x.len() {
                            lemma_occurs_char(y, c, k - x.len());
                        }
                    }
                    lemma_find_from_none(s, seq![c], 0);
                },
            }
        },
    }
}

/// A sequence without `\n` is a single piece.
pub proof fn lemma_split_lf_no_lf(s: Seq<char>)
    requires
        forall|i: int| 0 <= i < s.len() ==> s[i] != '\n',
    ensures
        split_lf(s) == seq![s],
        find_char(s, '\n') is None,
{
    assert forall|j: int| 0 <= j implies !occurs_at(s, seq!['\n'], j) by {
        lemma_occurs_char(s, '\n', j);
    }
    lemma_find_from_none(s, seq!['\n'], 0);
}

/// The lines of `x + "\n" + y` are the pieces of `x`, then the lines of `y`.
pub proof fn lemma_lines_cat(x: Seq<char>, y: Seq<char>)
    ensures
        lines(x + seq!['\n'] + y) == split_lf(x).map_values(|p: Seq<char>| strip_cr(p)) + lines(y),
    decreases x.len(),
{
    let s = x + seq!['\n'] + y;
    assert(s == x + (seq!['\n'] + y));
    lemma_find_char_cat(x, seq!['\n'] + y, '\n');
    lemma_find_char_cat(seq!['\n'], y, '\n');
    lemma_occurs_char(seq!['\n'], '\n', 0);
    lemma_find_from_complete(seq!['\n'], seq!['\n'], 0, 0);
    match find_char(x, '\n') {
        Some(i) => {
            lemma_find_from_sound(x, seq!['\n'], 0);
            let rest = x.subrange(i + 1, x.len() as int);
            assert(s.subrange(0, i) =~= x.subrange(0, i));
            assert(s.subrange(i + 1, s.len() as int) =~= rest + seq!['\n'] + y);
            lemma_lines_cat(rest, y);
            assert(split_lf(x) == seq![x.subrange(0, i)] + split_lf(rest));
            assert(split_lf(x).map_values(|p: Seq<char>| strip_cr(p)) =~= seq![
                strip_cr(x.subrange(0, i)),
            ] + split_lf(rest).map_values(|p: Seq<char>| strip_cr(p)));
        },
        None => {
            assert(find_char(s, '\n') == Some(x.len() as int));
            assert(s.subrange(0, x.len() as int) =~= x);
            assert(s.subrange(x.len() + 1int, s.len() as int) =~= y);
            assert(split_lf(x).map_values(|p: Seq<char>| strip_cr(p)) =~= seq![strip_cr(x)]);
        },
    }
}

/// Joining the pieces of `s` with `\n` gives `s` back.
pub proof fn lemma_join_split_lf(s: Seq<char>)
    ensures
        join(split_lf(s), seq!['\n']) == s,
        split_lf(s).len() >= 1,
    decreases s.len(),
{
    match find_char(s, '\n') {
        Some(i) => {
            lemma_find_from_sound(s, seq!['\n'], 0);
            lemma_occurs_char(s, '\n', i);
            let rest = s.subrange(i + 1, s.len() as int);
            lemma_join_split_lf(rest);
            lemma_join_prepend(s.subrange(0, i), split_lf(rest), seq!['\n']);
            assert(s =~= s.subrange(0, i) + seq!['\n'] + rest);
        },
        None => {},
    }
}

/// Joining `seq![a] + rest` (with `rest` non-empty) puts `a` and a separator
/// in front of the joined rest.
pub proof fn lemma_join_prepend(a: Seq<char>, rest: Seq<Seq<char>>, sep: Seq<char>)
    requires
        rest.len() >= 1,
    ensures
        join(seq![a] + rest, sep) == a + sep + join(rest, sep),
    decreases rest.len(),
{
    let all = seq![a] + rest;
    assert(all.len() >= 2);
    if rest.len() == 1 {
        assert(all.drop_last() =~= seq![a]);
        assert(all.last() == rest[0]);
        assert(join(seq![a], sep) == a);
        assert(join(rest, sep) == rest[0]);
        assert(join(all, sep) == join(all.drop_last(), sep) + sep + all.last());
    } else {
        assert(join(rest, sep) == join(rest.drop_last(), sep) + sep + rest.last());
        assert(join(all, sep) == join(all.drop_last(), sep) + sep + all.last());
        lemma_join_prepend(a, rest.drop_last(), sep);
        assert(all.drop_last() =~= seq![a] + rest.drop_last());
        assert(all.last() == rest.last());
        assert((a + sep + join(rest.drop_last(), sep)) + sep + rest.last() =~= a + sep + (join(
            rest.drop_last(),
            sep,
        ) + sep + rest.last()));
    }
}

/// The last piece of `s` is empty exactly when `s` is empty or ends in `\n`.
pub proof fn lemma_split_lf_last(s: Seq<char>)
    ensures
        split_lf(s).len() >= 1,
        (split_lf(s).last().len() == 0) <==> (s.len() == 0 || s.last() == '\n'),
    decreases s.len(),
{
    match find_char(s, '\n') {
        Some(i) => {
            lemma_find_from_sound(s, seq!['\n'], 0);
            lemma_occurs_char(s, '\n', i);
            let rest = s.subrange(i + 1, s.len() as int);
            lemma_split_lf_last(rest);
            if rest.len() > 0 {
                assert(rest.last() == s.last());
            }
        },
        None => {
            lemma_find_from_sound(s, seq!['\n'], 0);
            if s.len() > 0 {
                lemma_occurs_char(s, '\n', s.len() - 1);
            }
        },
    }
}


/// The name for the standard library's `Debug` rendering of a string (quoted,
/// with escapes).
pub uninterp spec fn spec_debug_str(s: Seq<char>) -> Seq<char>;

/// The `Debug` rendering of `s`, as `format!("{s:?}")` produces it.
///
/// Trusted: calls the standard library's `Debug` formatting for `str`; the
/// contract only names the result, which depends on `s` alone.
#[verifier::external_body]
pub fn debug_str(s: &str) -> (r: String)
    ensures
        r@ == spec_debug_str(s@),
{
    format!("{s:?}")
}

/// `s` split at its first `c`: the text before and the text after it.
pub open spec fn split_once_char(s: Seq<char>, c: char) -> Option<(Seq<char>, Seq<char>)> {
    match find_char(s, c) {
        Some(i) => Some((s.subrange(0, i), s.subrange(i + 1, s.len() as int))),
        None => None,
    }
}

/// Append `prefix`, then `s`, to form an error message.
pub fn message_with(prefix: &str, s: &[char]) -> (r: String)
    ensures
        r@ == prefix@ + s@,
{
    let mut out = chars_of(prefix);
    push_all(&mut out, s);
    string_of(out.as_slice())
}

/// `prefix` followed by the `Debug` rendering of `s`.
pub fn message_debug(prefix: &str, s: &[char]) -> (r: String)
    ensures
        r@ == prefix@ + spec_debug_str(s@),
{
    let text = string_of(s);
    let quoted = chars_of(debug_str(text.as_str()).as_str());
    message_with(prefix, quoted.as_slice())
}

/// Whether `set` holds `c`.
pub fn set_has(set: &[char], c: char) -> (b: bool)
    ensures
        b == set@.contains(c),
{
    let mut i: usize = 0;
    while i < set.len()
        invariant
            i <= set@.len(),
            forall|k: int| 0 <= k < i ==> set@[k] != c,
        decreases set@.len() - i,
    {
        if set[i] == c {
            proof {
                assert(set@[i as int] == c);
            }
            return true;
        }
        i = i + 1;
    }
    false
}

/// The position where `s` stops starting with characters of `set`.
pub fn trim_start_set_pos(s: &[char], set: &[char]) -> (k: usize)
    ensures
        k <= s@.len(),
        trim_start_set(s@, set@) == s@.subrange(k as int, s@.len() as int),
{
    let mut k: usize = 0;
    assert(s@.subrange(0, s@.len() as int) =~= s@);
    while k < s.len() && set_has(set, s[k])
        invariant
            k <= s@.len(),
            trim_start_set(s@, set@) == trim_start_set(s@.subrange(k as int, s@.len() as int), set@),
        decreases s@.len() - k,
    {
        assert(s@.subrange(k as int, s@.len() as int).drop_first() =~= s@.subrange(k + 1, s@.len() as int));
        k = k + 1;
    }
    k
}

/// The length of `s` without its trailing characters of `set`.
pub fn trim_end_set_len(s: &[char], set: &[char]) -> (n: usize)
    ensures
        n <= s@.len(),
        trim_end_set(s@, set@) == s@.subrange(0, n as int),
{
    let mut n = s.len();
    assert(s@.subrange(0, n as int) =~= s@);
    while n > 0 && set_has(set, s[n - 1])
        invariant
            n <= s@.len(),
            trim_end_set(s@, set@) == trim_end_set(s@.subrange(0, n as int), set@),
        decreases n,
    {
        assert(s@.subrange(0, n as int).drop_last() =~= s@.subrange(0, n - 1));
        n = n - 1;
    }
    n
}


/// Unfolding [`replace_char`] at position `i`.
pub proof fn lemma_replace_char_step(s: Seq<char>, c: char, rep: Seq<char>, i: int)
    requires
        0 <= i < s.len(),
    ensures
        replace_char(s.skip(i), c, rep) == (if s[i] == c { rep } else { seq![s[i]] }) + replace_char(
            s.skip(i + 1),
            c,
            rep,
        ),
{
    assert(s.skip(i).drop_first() =~= s.skip(i + 1));
}

/// Append `s` with every `c` replaced by `rep` (see [`replace_char`]).
pub fn push_replaced(out: &mut Vec<char>, s: &[char], c: char, rep: &[char])
    ensures
        final(out)@ == old(out)@ + replace_char(s@, c, rep@),
{
    let mut i: usize = 0;
    proof {
        assert(s@.skip(0) =~= s@);
    }
    while i < s.len()
        invariant
            i <= s@.len(),
            out@ + replace_char(s@.skip(i as int), c, rep@) == old(out)@ + replace_char(s@, c, rep@),
        decreases s@.len() - i,
    {
        proof {
            lemma_replace_char_step(s@, c, rep@, i as int);
        }
        let ghost before = out@;
        if s[i] == c {
            push_all(out, rep);
        } else {
            out.push(s[i]);
        }
        proof {
            assert(out@ + replace_char(s@.skip(i + 1), c, rep@) =~= before + replace_char(s@.skip(i as int), c, rep@));
        }
        i = i + 1;
    }
    proof {
        assert(s@.skip(i as int) =~= Seq::<char>::empty());
        assert(out@ + Seq::<char>::empty() =~= out@);
    }
}
/// `s` holds no `c`.
pub open spec fn free_of(s: Seq<char>, c: char) -> bool {
    forall|i: int| 0 <= i < s.len() ==> s[i] != c
}

/// The lines of a text hold no line feed, and no carriage return when the
/// text holds none.
pub proof fn lemma_lines_free(s: Seq<char>)
    ensures
        forall|k: int| 0 <= k < lines(s).len() ==> free_of(#[trigger] lines(s)[k], '\n'),
        free_of(s, '\r') ==> forall|k: int| 0 <= k < lines(s).len() ==> free_of(#[trigger] lines(s)[k], '\r'),
        s.len() > 0 ==> lines(s).len() > 0,
    decreases s.len(),
{
    if s.len() > 0 {
        match find_char(s, '\n') {
            None => {
                lemma_find_from_sound(s, seq!['\n'], 0);
                assert forall|i: int| 0 <= i < s.len() implies s[i] != '\n' by {
                    lemma_occurs_char(s, '\n', i);
                }
            },
            Some(i) => {
                lemma_find_from_sound(s, seq!['\n'], 0);
                let head = s.subrange(0, i);
                let rest = s.subrange(i + 1, s.len() as int);
                lemma_lines_free(rest);
                assert forall|j: int| 0 <= j < head.len() implies head[j] != '\n' by {
                    lemma_occurs_char(s, '\n', j);
                }
                let ls = lines(s);
                assert(ls == seq![strip_cr(head)] + lines(rest));
                assert forall|k: int| 0 <= k < ls.len() implies free_of(#[trigger] ls[k], '\n') by {
                    if k > 0 {
                        assert(ls[k] == lines(rest)[k - 1]);
                    }
                }
                if free_of(s, '\r') {
                    assert(free_of(rest, '\r'));
                    assert forall|k: int| 0 <= k < ls.len() implies free_of(#[trigger] ls[k], '\r') by {
                        if k > 0 {
                            assert(ls[k] == lines(rest)[k - 1]);
                        }
                    }
                }
            },
        }
    }
}

/// Joining the lines of a text gives it back, when it holds no carriage
/// return and does not end with a line feed.
pub proof fn lemma_join_lines(s: Seq<char>)
    requires
        free_of(s, '\r'),
        !(s.len() > 0 && s.last() == '\n'),
    ensures
        join(lines(s), seq!['\n']) == s,
    decreases s.len(),
{
    if s.len() > 0 {
        match find_char(s, '\n') {
            None => {},
            Some(i) => {
                lemma_find_from_sound(s, seq!['\n'], 0);
                lemma_occurs_char(s, '\n', i);
                let head = s.subrange(0, i);
                let rest = s.subrange(i + 1, s.len() as int);
                assert(i < s.len() - 1) by {
                    assert(s[i] == '\n');
                }
                assert(rest.len() > 0 && rest.last() == s.last());
                lemma_join_lines(rest);
                lemma_lines_free(rest);
                assert(strip_cr(head) == head) by {
                    if head.len() > 0 {
                        assert(head.last() == s[i - 1]);
                    }
                }
                lemma_join_prepend(head, lines(rest), seq!['\n']);
                assert(s =~= head + seq!['\n'] + rest);
            },
        }
    }
}

/// The lines of texts joined by line feeds are those texts, when none holds
/// a line feed, none ends with a carriage return, and the last is not empty.
pub proof fn lemma_lines_join(e: Seq<Seq<char>>)
    requires
        forall|k: int| 0 <= k < e.len() ==> free_of(#[trigger] e[k], '\n'),
        forall|k: int| 0 <= k < e.len() ==> !(#[trigger] e[k].len() > 0 && e[k].last() == '\r'),
        e.len() > 0 ==> e.last().len() > 0,
    ensures
        lines(join(e, seq!['\n'])) == e,
    decreases e.len(),
{
    if e.len() == 1 {
        lemma_split_lf_no_lf(e[0]);
        assert(e =~= seq![e[0]]);
    } else if e.len() > 1 {
        let rest = e.drop_first();
        assert forall|k: int| 0 <= k < rest.len() implies free_of(#[trigger] rest[k], '\n') by {
            assert(rest[k] == e[k + 1]);
        }
        assert forall|k: int| 0 <= k < rest.len() implies !(#[trigger] rest[k].len() > 0 && rest[k].last() == '\r') by {
            assert(rest[k] == e[k + 1]);
        }
        lemma_lines_join(rest);
        assert(e =~= seq![e[0]] + rest);
        lemma_join_prepend(e[0], rest, seq!['\n']);
        assert(free_of(e[0], '\n'));
        lemma_split_lf_no_lf(e[0]);
        lemma_lines_cat(e[0], join(rest, seq!['\n']));
        assert(split_lf(e[0]).map_values(|p: Seq<char>| strip_cr(p)) =~= seq![e[0]]);
    }
}


/// The first `c` of `s` is at `i` when `s[i]` is `c` and no earlier
/// character is.
pub proof fn lemma_find_char_first(s: Seq<char>, c: char, i: int)
    requires
        0 <= i < s.len(),
        s[i] == c,
        forall|j: int| 0 <= j < i ==> s[j] != c,
    ensures
        find_char(s, c) == Some(i),
{
    lemma_occurs_char(s, c, i);
    assert forall|j: int| 0 <= j < i implies !occurs_at(s, seq![c], j) by {
        lemma_occurs_char(s, c, j);
    }
    lemma_find_from_complete(s, seq![c], 0, i);
}

/// A text that neither starts nor ends with whitespace is its own trim.
pub proof fn lemma_trim_no_ws(s: Seq<char>)
    requires
        s.len() > 0 ==> !is_ws(s[0]) && !is_ws(s.last()),
    ensures
        trim(s) == s,
{
}

/// The pieces between line feeds of texts joined by line feeds are those
/// texts, when none holds a line feed.
pub proof fn lemma_split_join(e: Seq<Seq<char>>)
    requires
        e.len() >= 1,
        forall|k: int| 0 <= k < e.len() ==> free_of(#[trigger] e[k], '\n'),
    ensures
        split_lf(join(e, seq!['\n'])) == e,
    decreases e.len(),
{
    if e.len() == 1 {
        lemma_split_lf_no_lf(e[0]);
        assert(e =~= seq![e[0]]);
    } else {
        let rest = e.drop_first();
        assert forall|k: int| 0 <= k < rest.len() implies free_of(#[trigger] rest[k], '\n') by {
            assert(rest[k] == e[k + 1]);
        }
        lemma_split_join(rest);
        assert(e =~= seq![e[0]] + rest);
        lemma_join_prepend(e[0], rest, seq!['\n']);
        let x = e[0];
        let y = join(rest, seq!['\n']);
        let s = x + seq!['\n'] + y;
        assert(free_of(x, '\n'));
        assert forall|j: int| 0 <= j < x.len() implies s[j] != '\n' by {
            assert(s[j] == x[j]);
        }
        assert(s[x.len() as int] == '\n');
        lemma_find_char_first(s, '\n', x.len() as int);
        assert(s.subrange(0, x.len() as int) =~= x);
        assert(s.subrange(x.len() as int + 1, s.len() as int) =~= y);
    }
}

/// Trimming the end of `a + b` trims `b`, and `a` only when nothing of `b`
/// is left.
pub proof fn lemma_trim_end_append(a: Seq<char>, b: Seq<char>)
    ensures
        trim_end(a + b) == if trim_end(b).len() > 0 {
            a + trim_end(b)
        } else {
            trim_end(a)
        },
    decreases b.len(),
{
    if b.len() == 0 {
        assert(a + b =~= a);
    } else if is_ws(b.last()) {
        assert((a + b).drop_last() =~= a + b.drop_last());
        lemma_trim_end_append(a, b.drop_last());
    } else {
        assert((a + b).last() == b.last());
    }
}
/// Trailing trimming leaves nothing exactly when every character is
/// whitespace.
pub proof fn lemma_trim_end_empty(s: Seq<char>)
    ensures
        (trim_end(s).len() == 0) == (forall|i: int| 0 <= i < s.len() ==> is_ws(#[trigger] s[i])),
    decreases s.len(),
{
    if s.len() > 0 && is_ws(s.last()) {
        lemma_trim_end_empty(s.drop_last());
        if trim_end(s).len() == 0 {
            assert forall|i: int| 0 <= i < s.len() implies is_ws(#[trigger] s[i]) by {
                if i < s.len() - 1 {
                    assert(s.drop_last()[i] == s[i]);
                }
            }
        } else {
            if forall|i: int| 0 <= i < s.len() ==> is_ws(#[trigger] s[i]) {
                assert forall|i: int| 0 <= i < s.drop_last().len() implies is_ws(#[trigger] s.drop_last()[i]) by {
                    assert(s.drop_last()[i] == s[i]);
                }
            }
        }
    } else if s.len() > 0 {
        assert(!is_ws(s[s.len() - 1]));
    }
}

/// Leading trimming stops at a character that is not whitespace, and leaves
/// nothing exactly when every character is whitespace.
pub proof fn lemma_trim_start_first(s: Seq<char>)
    ensures
        trim_start(s).len() > 0 ==> !is_ws(trim_start(s)[0]),
        (trim_start(s).len() == 0) == (forall|i: int| 0 <= i < s.len() ==> is_ws(#[trigger] s[i])),
        s.len() > 0 && !is_ws(s[0]) ==> trim_start(s) == s,
    decreases s.len(),
{
    if s.len() > 0 && is_ws(s[0]) {
        lemma_trim_start_first(s.drop_first());
        if forall|i: int| 0 <= i < s.len() ==> is_ws(#[trigger] s[i]) {
            assert forall|i: int| 0 <= i < s.drop_first().len() implies is_ws(#[trigger] s.drop_first()[i]) by {
                assert(s.drop_first()[i] == s[i + 1]);
            }
        }
        if forall|i: int| 0 <= i < s.drop_first().len() ==> is_ws(#[trigger] s.drop_first()[i]) {
            assert forall|i: int| 0 <= i < s.len() implies is_ws(#[trigger] s[i]) by {
                if i > 0 {
                    assert(s.drop_first()[i - 1] == s[i]);
                }
            }
        }
    }
}

/// Trimming both ends leaves nothing exactly when trimming the end does.
pub proof fn lemma_trim_empty(s: Seq<char>)
    ensures
        (trim(s).len() == 0) == (trim_end(s).len() == 0),
{
    lemma_trim_end_empty(s);
    lemma_trim_start_first(s);
    let t = trim_start(s);
    lemma_trim_end_empty(t);
    if t.len() > 0 {
        assert(!is_ws(t[0]));
    }
}

/// Trailing trimming keeps the first character.
pub proof fn lemma_trim_end_first(s: Seq<char>)
    ensures
        trim_end(s).len() > 0 ==> trim_end(s)[0] == s[0],
    decreases s.len(),
{
    if s.len() > 0 && is_ws(s.last()) {
        lemma_trim_end_first(s.drop_last());
    }
}

} // verus!
