//! Reusable item collections and their validation.
//!
//! Items are content records authored as Markdown files with a YAML
//! frontmatter block. Each declares the component schema it conforms to
//! (`$schema`), the collection it belongs to (`$collection`), optional tags
//! and a set of user inputs. Validation checks an item's inputs against its
//! component schema: required inputs present, image inputs resolvable next to
//! the item.
use vstd::prelude::*;

use crate::cli::{last_index, strip_tail};
use crate::inputs::{entries, insert_input, is_sorted, map_get, map_insert, seq_lt};
use crate::model::InputKind;
use crate::schema::{ComponentSchema, InputSchema};
use crate::text::{
    chars_eq, chars_of, find_char_from, find_from, is_prefix, push_all, push_str, slice_vec, starts_with, string_of,
    trim_end_set, trim_end_set_len, trim_start_set, trim_start_set_pos,
};

verus! {

/// A single parsed item record.
#[derive(Debug, Clone, PartialEq)]
pub struct Item {
    /// The component schema this item conforms to (`$schema`).
    pub schema: String,
    /// The collection this item belongs to (`$collection`).
    pub collection: String,
    /// Tags from `$tags`; empty when absent.
    pub tags: Vec<String>,
    /// User-defined inputs, in sorted key order, each rendered to text.
    pub inputs: Vec<(String, String)>,
    /// Path of the source file the item was parsed from.
    pub source_path: String,
}

/// A single validation problem found on an item.
#[derive(Debug, Clone, PartialEq)]
pub struct ItemIssue {
    /// Path of the item file that produced the issue.
    pub source_path: String,
    /// Stable issue code (`unknown-schema`, `missing-input`, `missing-image`).
    pub code: String,
    /// Human-readable message naming the offending field.
    pub message: String,
}

/// An issue as text: path, code and message.
pub open spec fn issue_view(i: ItemIssue) -> (Seq<char>, Seq<char>, Seq<char>) {
    (i.source_path@, i.code@, i.message@)
}

/// The issues as text.
pub open spec fn issue_views(v: Seq<ItemIssue>) -> Seq<(Seq<char>, Seq<char>, Seq<char>)> {
    v.map_values(|i: ItemIssue| issue_view(i))
}

// ---------------------------------------------------------------------------
// Frontmatter.
// ---------------------------------------------------------------------------

/// The characters skipped before an item's opening fence.
pub open spec fn lead_chars() -> Seq<char> {
    seq!['\u{feff}', ' ', '\t', '\r', '\n']
}

/// The position of the first line from `off` on that is exactly `---` once
/// its line break is removed (lines split after each `\n`, the last one
/// possibly without).
pub open spec fn closing_fence_from(rest: Seq<char>, off: int) -> Option<int>
    decreases rest.len() - off,
{
    if off < 0 || off >= rest.len() {
        None
    } else {
        let end = match find_from(rest, seq!['\n'], off) {
            Some(e) => e + 1,
            None => rest.len() as int,
        };
        if end <= off || end > rest.len() {
            None
        } else if trim_end_set(rest.subrange(off, end), seq!['\n', '\r']) == "---"@ {
            Some(off)
        } else {
            closing_fence_from(rest, end)
        }
    }
}

/// The YAML of an item's frontmatter: after optional BOM, blanks and line
/// breaks, a `---` line opens it and the next line that is exactly `---`
/// closes it; the line breaks that end the YAML are removed.
pub open spec fn item_frontmatter_spec(content: Seq<char>) -> Option<Seq<char>> {
    let t = trim_start_set(content, lead_chars());
    if !is_prefix("---"@, t) {
        None
    } else {
        let a = t.skip(3);
        let body = if is_prefix(seq!['\n'], a) {
            Some(a.skip(1))
        } else if is_prefix("\r\n"@, a) {
            Some(a.skip(2))
        } else {
            None
        };
        match body {
            None => None,
            Some(b) => match closing_fence_from(b, 0) {
                Some(c) => Some(trim_end_set(b.take(c), seq!['\n', '\r'])),
                None => None,
            },
        }
    }
}

fn closing_fence(rest: &[char]) -> (r: Option<usize>)
    ensures
        match r {
            Some(c) => closing_fence_from(rest@, 0) == Some(c as int) && c <= rest@.len(),
            None => closing_fence_from(rest@, 0) is None,
        },
{
    let fence = chars_of("---");
    let breaks = vec!['\n', '\r'];
    proof {
        assert(breaks@ =~= seq!['\n', '\r']);
    }
    let mut off: usize = 0;
    while off < rest.len()
        invariant
            off <= rest@.len(),
            fence@ == "---"@,
            breaks@ == seq!['\n', '\r'],
            closing_fence_from(rest@, 0) == closing_fence_from(rest@, off as int),
        decreases rest@.len() - off,
    {
        let end = match find_char_from(rest, '\n', off) {
            Some(e) => {
                proof {
                    crate::text::lemma_find_from_sound(rest@, seq!['\n'], off as int);
                }
                e + 1
            },
            None => rest.len(),
        };
        let line = slice_vec(rest, off, end);
        let n = trim_end_set_len(line.as_slice(), breaks.as_slice());
        let trimmed = slice_vec(line.as_slice(), 0, n);
        if chars_eq(trimmed.as_slice(), fence.as_slice()) {
            return Some(off);
        }
        off = end;
    }
    None
}

/// Extract the YAML text of an item's leading `---`-fenced frontmatter
/// block (see [`item_frontmatter_spec`]).
pub fn item_frontmatter(content: &str) -> (r: Option<String>)
    ensures
        match r {
            Some(y) => item_frontmatter_spec(content@) == Some(y@),
            None => item_frontmatter_spec(content@) is None,
        },
{
    let cs = chars_of(content);
    let lead = vec!['\u{feff}', ' ', '\t', '\r', '\n'];
    proof {
        assert(lead@ =~= lead_chars());
        reveal_strlit("---");
        reveal_strlit("\r\n");
    }
    let k = trim_start_set_pos(cs.as_slice(), lead.as_slice());
    let t = slice_vec(cs.as_slice(), k, cs.len());
    let fence = chars_of("---");
    if !starts_with(t.as_slice(), fence.as_slice()) {
        return None;
    }
    let a = slice_vec(t.as_slice(), 3, t.len());
    proof {
        assert(a@ =~= t@.skip(3));
    }
    let lf = vec!['\n'];
    let crlf = chars_of("\r\n");
    proof {
        assert(lf@ =~= seq!['\n']);
    }
    let skip: usize = if starts_with(a.as_slice(), lf.as_slice()) {
        1
    } else if starts_with(a.as_slice(), crlf.as_slice()) {
        2
    } else {
        return None;
    };
    let b = slice_vec(a.as_slice(), skip, a.len());
    proof {
        assert(b@ =~= a@.skip(skip as int));
    }
    let c = match closing_fence(b.as_slice()) {
        Some(c) => c,
        None => {
            return None;
        },
    };
    let head = slice_vec(b.as_slice(), 0, c);
    let breaks = vec!['\n', '\r'];
    let n = trim_end_set_len(head.as_slice(), breaks.as_slice());
    proof {
        assert(breaks@ =~= seq!['\n', '\r']);
        assert(head@ =~= b@.take(c as int));
        assert(head@.subrange(0, n as int) == trim_end_set(b@.take(c as int), seq!['\n', '\r']));
    }
    Some(crate::text::slice_string(head.as_slice(), 0, n))
}

// ---------------------------------------------------------------------------
// Collections.
// ---------------------------------------------------------------------------

/// The number of items counted for each collection after the first `n`
/// items, collections in ascending order.
pub open spec fn collection_counts(cols: Seq<Seq<char>>, n: int) -> Seq<(Seq<char>, usize)>
    decreases n,
{
    if n <= 0 {
        seq![]
    } else {
        let prev = collection_counts(cols, n - 1);
        let c = match map_get(prev, cols[n - 1]) {
            Some(k) => k,
            None => 0,
        };
        map_insert(prev, cols[n - 1], (c + 1) as usize)
    }
}

/// The collection names of the items.
pub open spec fn collections_of(items: Seq<Item>) -> Seq<Seq<char>> {
    items.map_values(|i: Item| i.collection@)
}

fn lookup_count(m: &Vec<(String, usize)>, key: &[char]) -> (r: usize)
    ensures
        r == match map_get(entries(m@), key@) {
            Some(k) => k,
            None => 0usize,
        },
{
    let ghost e = entries(m@);
    let mut i: usize = 0;
    proof {
        assert(e.subrange(0, e.len() as int) =~= e);
    }
    while i < m.len()
        invariant
            i <= m@.len(),
            e == entries(m@),
            e.len() == m@.len(),
            map_get(e, key@) == map_get(e.subrange(i as int, e.len() as int), key@),
        decreases m@.len() - i,
    {
        let ghost rest = e.subrange(i as int, e.len() as int);
        proof {
            assert(rest[0] == (m@[i as int].0@, m@[i as int].1));
            assert(rest.drop_first() =~= e.subrange(i + 1, e.len() as int));
        }
        let n = chars_of(m[i].0.as_str());
        if chars_eq(n.as_slice(), key) {
            return m[i].1;
        }
        i = i + 1;
    }
    0
}

/// A count in the table is at most the number of items counted.
proof fn lemma_counts_bounded(cols: Seq<Seq<char>>, n: int, key: Seq<char>)
    requires
        0 <= n <= cols.len(),
    ensures
        match map_get(collection_counts(cols, n), key) {
            Some(k) => k <= n,
            None => true,
        },
    decreases n,
{
    if n > 0 {
        let prev = collection_counts(cols, n - 1);
        lemma_counts_bounded(cols, n - 1, key);
        lemma_counts_bounded(cols, n - 1, cols[n - 1]);
        let c = match map_get(prev, cols[n - 1]) {
            Some(k) => k,
            None => 0,
        };
        crate::inputs::law_get_after_insert(prev, cols[n - 1], (c + 1) as usize, key);
    }
}

/// How many of the first `n` collection names are `c`.
pub open spec fn count_of(cols: Seq<Seq<char>>, n: int, c: Seq<char>) -> nat
    decreases n,
{
    if n <= 0 {
        0
    } else {
        count_of(cols, n - 1, c) + (if cols[n - 1] == c { 1nat } else { 0nat })
    }
}

/// The sum of the counts of a summary.
pub open spec fn count_total(m: Seq<(Seq<char>, usize)>) -> int
    decreases m.len(),
{
    if m.len() == 0 {
        0
    } else {
        m[0].1 + count_total(m.drop_first())
    }
}

/// Setting a count in a sorted summary changes the total by the difference.
proof fn lemma_total_insert(m: Seq<(Seq<char>, usize)>, k: Seq<char>, v: usize)
    requires
        is_sorted(m),
    ensures
        count_total(map_insert(m, k, v)) == count_total(m) + v - match map_get(m, k) {
            Some(c) => c as int,
            None => 0int,
        },
    decreases m.len(),
{
    let r = map_insert(m, k, v);
    if m.len() == 0 {
        assert(r.drop_first() =~= Seq::<(Seq<char>, usize)>::empty());
        assert(count_total(r) == r[0].1 + count_total(r.drop_first()));
    } else if m[0].0 == k {
        assert(r.drop_first() =~= m.drop_first());
        assert(count_total(r) == r[0].1 + count_total(r.drop_first()));
        assert(count_total(m) == m[0].1 + count_total(m.drop_first()));
    } else if seq_lt(k, m[0].0) {
        assert(r.drop_first() =~= m);
        assert(count_total(r) == r[0].1 + count_total(r.drop_first()));
        crate::inputs::lemma_sorted_before_absent(m, k);
    } else {
        assert(map_get(m, k) == map_get(m.drop_first(), k));
        assert(count_total(m) == m[0].1 + count_total(m.drop_first()));
        let rest = m.drop_first();
        assert forall|i: int, j: int| 0 <= i < j < rest.len() implies seq_lt(#[trigger] rest[i].0, #[trigger] rest[j].0) by {
            assert(rest[i] == m[i + 1]);
            assert(rest[j] == m[j + 1]);
        }
        lemma_total_insert(rest, k, v);
        assert(r.drop_first() =~= map_insert(rest, k, v));
        assert(r[0] == m[0]);
        assert(count_total(r) == r[0].1 + count_total(r.drop_first()));
    }
}

/// The counts after `n` items add up to `n`.
proof fn lemma_counts_total(cols: Seq<Seq<char>>, n: int)
    requires
        0 <= n <= cols.len(),
        n <= usize::MAX,
    ensures
        count_total(collection_counts(cols, n)) == n,
    decreases n,
{
    if n > 0 {
        let prev = collection_counts(cols, n - 1);
        let key = cols[n - 1];
        lemma_counts_total(cols, n - 1);
        lemma_counts_exact(cols, n - 1, key);
        let k = match map_get(prev, key) {
            Some(k) => k,
            None => 0,
        };
        lemma_total_insert(prev, key, (k + 1) as usize);
    }
}

proof fn lemma_counts_exact(cols: Seq<Seq<char>>, n: int, c: Seq<char>)
    requires
        0 <= n <= cols.len(),
        n <= usize::MAX,
    ensures
        map_get(collection_counts(cols, n), c) == (if count_of(cols, n, c) > 0 {
            Some(count_of(cols, n, c) as usize)
        } else {
            None
        }),
        is_sorted(collection_counts(cols, n)),
        count_of(cols, n, c) <= n,
    decreases n,
{
    if n > 0 {
        let prev = collection_counts(cols, n - 1);
        let key = cols[n - 1];
        lemma_counts_exact(cols, n - 1, c);
        lemma_counts_exact(cols, n - 1, key);
        let k = match map_get(prev, key) {
            Some(k) => k,
            None => 0,
        };
        crate::inputs::law_get_after_insert(prev, key, (k + 1) as usize, c);
        crate::inputs::law_insert_keeps_sorted(prev, key, (k + 1) as usize);
    }
}

/// The summary of a list of items names each collection that some item
/// belongs to exactly once, in ascending order, with the number of items in
/// it; a name no item uses is absent, and the counts add up to the number
/// of items.
pub proof fn law_collection_counts(items: Seq<Item>, c: Seq<char>)
    requires
        items.len() <= usize::MAX,
    ensures
        is_sorted(collection_counts(collections_of(items), items.len() as int)),
        count_total(collection_counts(collections_of(items), items.len() as int)) == items.len(),
        map_get(collection_counts(collections_of(items), items.len() as int), c) == (if count_of(
            collections_of(items),
            items.len() as int,
            c,
        ) > 0 {
            Some(count_of(collections_of(items), items.len() as int, c) as usize)
        } else {
            None
        }),
{
    lemma_counts_exact(collections_of(items), items.len() as int, c);
    lemma_counts_total(collections_of(items), items.len() as int);
}

/// Count items per collection, in ascending collection-name order.
pub fn summarise_collections(items: &[Item]) -> (r: Vec<(String, usize)>)
    ensures
        entries(r@) == collection_counts(collections_of(items@), items@.len() as int),
{
    let ghost cols = collections_of(items@);
    let mut counts: Vec<(String, usize)> = Vec::new();
    let mut i: usize = 0;
    while i < items.len()
        invariant
            i <= items@.len(),
            cols == collections_of(items@),
            entries(counts@) == collection_counts(cols, i as int),
        decreases items@.len() - i,
    {
        let key = chars_of(items[i].collection.as_str());
        proof {
            assert(cols[i as int] == items@[i as int].collection@);
            lemma_counts_bounded(cols, i as int, key@);
        }
        let c = lookup_count(&counts, key.as_slice());
        insert_input(&mut counts, string_of(key.as_slice()), c + 1);
        i = i + 1;
    }
    counts
}

// ---------------------------------------------------------------------------
// Validation.
// ---------------------------------------------------------------------------

/// The directory of a path, as `std::path::Path::parent` gives it (`.` where
/// it gives none): once the ignored end is dropped (see [`strip_tail`]),
/// the path before its final component, itself without an ignored end;
/// `/` when only the root is left before it, empty for a path of one
/// component, and `.` for an empty path or the root alone.
pub open spec fn path_parent(p: Seq<char>) -> Seq<char> {
    let s = strip_tail(p);
    if s.len() == 0 {
        seq!['.']
    } else {
        match last_index(s, '/') {
            None => seq![],
            Some(i) => {
                let t = strip_tail(s.take(i));
                if t.len() == 0 {
                    seq!['/']
                } else {
                    t
                }
            },
        }
    }
}

/// The directory of a path (see [`path_parent`]).
fn parent_dir(p: &[char]) -> (r: Vec<char>)
    ensures
        r@ == path_parent(p@),
{
    let n = crate::cli::tail_len(p);
    if n == 0 {
        return vec!['.'];
    }
    let s = slice_vec(p, 0, n);
    match crate::cli::last_index_exec(s.as_slice(), '/') {
        None => Vec::new(),
        Some(i) => {
            let rest = slice_vec(s.as_slice(), 0, i);
            let m = crate::cli::tail_len(rest.as_slice());
            proof {
                assert(rest@ =~= s@.take(i as int));
            }
            if m == 0 {
                vec!['/']
            } else {
                slice_vec(rest.as_slice(), 0, m)
            }
        },
    }
}

/// `name` taken relative to `dir`: an absolute name stands alone, and a
/// `/` separates the two unless `dir` is empty or already ends with one.
pub open spec fn path_join(dir: Seq<char>, name: Seq<char>) -> Seq<char> {
    if is_prefix(seq!['/'], name) || dir.len() == 0 {
        name
    } else if dir.last() == '/' {
        dir + name
    } else {
        dir + seq!['/'] + name
    }
}

/// Where an image input of an item is looked for: next to the item.
pub open spec fn image_location(source_path: Seq<char>, value: Seq<char>) -> Seq<char> {
    path_join(path_parent(source_path), value)
}

fn image_location_exec(source_path: &str, value: &str) -> (r: String)
    ensures
        r@ == image_location(source_path@, value@),
{
    let p = chars_of(source_path);
    let v = chars_of(value);
    let slash = vec!['/'];
    proof {
        assert(slash@ =~= seq!['/']);
    }
    let dir: Vec<char> = parent_dir(p.as_slice());
    proof {
        assert(dir@ =~= path_parent(source_path@));
    }
    let mut out: Vec<char> = Vec::new();
    if starts_with(v.as_slice(), slash.as_slice()) || dir.len() == 0 {
        push_all(&mut out, v.as_slice());
    } else if dir[dir.len() - 1] == '/' {
        push_all(&mut out, dir.as_slice());
        push_all(&mut out, v.as_slice());
    } else {
        push_all(&mut out, dir.as_slice());
        out.push('/');
        push_all(&mut out, v.as_slice());
    }
    proof {
        assert(out@ =~= image_location(source_path@, value@));
    }
    string_of(out.as_slice())
}

/// The issues of one item against its schema, from the `k`-th declared
/// input on: a required input that is absent is `missing-input`; an image
/// input with a value whose location is not among `present` is
/// `missing-image`.
pub open spec fn input_issues(
    path: Seq<char>,
    inputs: Seq<(Seq<char>, Seq<char>)>,
    decl: Seq<InputSchema>,
    present: Seq<Seq<char>>,
    k: int,
) -> Seq<(Seq<char>, Seq<char>, Seq<char>)>
    decreases decl.len() - k,
{
    if k < 0 || k >= decl.len() {
        seq![]
    } else {
        let d = decl[k];
        (match map_get(inputs, d.name@) {
            None => if d.required {
                seq![(path, "missing-input"@, "required input '"@ + d.name@ + "' is missing"@)]
            } else {
                seq![]
            },
            Some(v) => if d.kind == InputKind::Image && v.len() > 0 && !present.contains(image_location(path, v)) {
                seq![
                    (
                        path,
                        "missing-image"@,
                        "image input '"@ + d.name@ + "' references '"@ + v + "' which does not exist at '"@
                            + image_location(path, v) + "'"@,
                    ),
                ]
            } else {
                seq![]
            },
        }) + input_issues(path, inputs, decl, present, k + 1)
    }
}

/// The first component named `name`.
pub open spec fn component_named(cs: Seq<ComponentSchema>, name: Seq<char>) -> Option<ComponentSchema>
    decreases cs.len(),
{
    if cs.len() == 0 {
        None
    } else if cs[0].name@ == name {
        Some(cs[0])
    } else {
        component_named(cs.drop_first(), name)
    }
}

/// The issues of the items from the `i`-th on.
pub open spec fn item_issues(
    items: Seq<Item>,
    cs: Seq<ComponentSchema>,
    present: Seq<Seq<char>>,
    i: int,
) -> Seq<(Seq<char>, Seq<char>, Seq<char>)>
    decreases items.len() - i,
{
    if i < 0 || i >= items.len() {
        seq![]
    } else {
        let it = items[i];
        (match component_named(cs, it.schema@) {
            None => seq![
                (
                    it.source_path@,
                    "unknown-schema"@,
                    "item declares '$schema: "@ + it.schema@
                        + "' which is not a component in the items directory"@,
                ),
            ],
            Some(c) => input_issues(it.source_path@, entries(it.inputs@), c.inputs@, present, 0),
        }) + item_issues(items, cs, present, i + 1)
    }
}

fn find_component<'a>(components: &'a [ComponentSchema], name: &str) -> (r: Option<&'a ComponentSchema>)
    ensures
        match r {
            Some(c) => component_named(components@, name@) == Some(*c),
            None => component_named(components@, name@) is None,
        },
{
    let target = chars_of(name);
    let mut i: usize = 0;
    proof {
        assert(components@.subrange(0, components@.len() as int) =~= components@);
    }
    while i < components.len()
        invariant
            i <= components@.len(),
            target@ == name@,
            component_named(components@, name@) == component_named(
                components@.subrange(i as int, components@.len() as int),
                name@,
            ),
        decreases components@.len() - i,
    {
        let ghost rest = components@.subrange(i as int, components@.len() as int);
        proof {
            assert(rest[0] == components@[i as int]);
            assert(rest.drop_first() =~= components@.subrange(i + 1, components@.len() as int));
        }
        let n = chars_of(components[i].name.as_str());
        if chars_eq(n.as_slice(), target.as_slice()) {
            return Some(&components[i]);
        }
        i = i + 1;
    }
    None
}

fn lookup_input(m: &Vec<(String, String)>, key: &str) -> (r: Option<String>)
    ensures
        match r {
            Some(v) => map_get(entries(m@), key@) == Some(v@),
            None => map_get(entries(m@), key@) is None,
        },
{
    let ghost e = entries(m@);
    let k = chars_of(key);
    let mut i: usize = 0;
    proof {
        assert(e.subrange(0, e.len() as int) =~= e);
    }
    while i < m.len()
        invariant
            i <= m@.len(),
            e == entries(m@),
            e.len() == m@.len(),
            k@ == key@,
            map_get(e, key@) == map_get(e.subrange(i as int, e.len() as int), key@),
        decreases m@.len() - i,
    {
        let ghost rest = e.subrange(i as int, e.len() as int);
        proof {
            assert(rest[0] == (m@[i as int].0@, m@[i as int].1@));
            assert(rest.drop_first() =~= e.subrange(i + 1, e.len() as int));
        }
        let n = chars_of(m[i].0.as_str());
        if chars_eq(n.as_slice(), k.as_slice()) {
            return Some(string_of(chars_of(m[i].1.as_str()).as_slice()));
        }
        i = i + 1;
    }
    None
}

fn contains_text(v: &[String], s: &str) -> (b: bool)
    ensures
        b == v@.map_values(|x: String| x@).contains(s@),
{
    let ghost w = v@.map_values(|x: String| x@);
    let t = chars_of(s);
    let mut i: usize = 0;
    while i < v.len()
        invariant
            i <= v@.len(),
            w == v@.map_values(|x: String| x@),
            t@ == s@,
            forall|k: int| 0 <= k < i ==> w[k] != s@,
        decreases v@.len() - i,
    {
        let c = chars_of(v[i].as_str());
        if chars_eq(c.as_slice(), t.as_slice()) {
            proof {
                assert(w[i as int] == s@);
            }
            return true;
        }
        i = i + 1;
    }
    false
}

fn issue(path: &str, code: &str, message: &[char]) -> (r: ItemIssue)
    ensures
        issue_view(r) == (path@, code@, message@),
{
    ItemIssue {
        source_path: string_of(chars_of(path).as_slice()),
        code: string_of(chars_of(code).as_slice()),
        message: string_of(message),
    }
}

/// Validate a single item's inputs against its component schema; an image
/// location counts as found when it is among `present`.
pub fn validate_item_against_schema(
    item: &Item,
    schema: &ComponentSchema,
    present: &[String],
    issues: &mut Vec<ItemIssue>,
)
    ensures
        issue_views(final(issues)@) == issue_views(old(issues)@) + input_issues(
            item.source_path@,
            entries(item.inputs@),
            schema.inputs@,
            present@.map_values(|x: String| x@),
            0,
        ),
{
    let ghost pv = present@.map_values(|x: String| x@);
    let ghost path = item.source_path@;
    let ghost ins = entries(item.inputs@);
    let ghost decl = schema.inputs@;
    let mut k: usize = 0;
    while k < schema.inputs.len()
        invariant
            k <= decl.len(),
            decl == schema.inputs@,
            pv == present@.map_values(|x: String| x@),
            path == item.source_path@,
            ins == entries(item.inputs@),
            issue_views(issues@) + input_issues(path, ins, decl, pv, k as int) == issue_views(old(issues)@)
                + input_issues(path, ins, decl, pv, 0),
        decreases decl.len() - k,
    {
        let ghost before = issue_views(issues@);
        let input = &schema.inputs[k];
        match lookup_input(&item.inputs, input.name.as_str()) {
            None => {
                if input.required {
                    let mut m = chars_of("required input '");
                    push_str(&mut m, input.name.as_str());
                    push_str(&mut m, "' is missing");
                    issues.push(issue(item.source_path.as_str(), "missing-input", m.as_slice()));
                }
            },
            Some(value) => {
                if input.kind == InputKind::Image && chars_of(value.as_str()).len() > 0 {
                    let loc = image_location_exec(item.source_path.as_str(), value.as_str());
                    if !contains_text(present, loc.as_str()) {
                        let mut m = chars_of("image input '");
                        push_str(&mut m, input.name.as_str());
                        push_str(&mut m, "' references '");
                        push_str(&mut m, value.as_str());
                        push_str(&mut m, "' which does not exist at '");
                        push_str(&mut m, loc.as_str());
                        push_str(&mut m, "'");
                        issues.push(issue(item.source_path.as_str(), "missing-image", m.as_slice()));
                    }
                }
            },
        }
        proof {
            assert(issue_views(issues@) + input_issues(path, ins, decl, pv, k + 1) =~= before + input_issues(
                path,
                ins,
                decl,
                pv,
                k as int,
            ));
        }
        k = k + 1;
    }
    proof {
        assert(issue_views(issues@) + Seq::<(Seq<char>, Seq<char>, Seq<char>)>::empty() =~= issue_views(issues@));
    }
}

/// Validate every item against its component schema (the first component
/// named by its `$schema`): an unknown schema, a missing required input, or
/// an image input whose location (next to the item) is not among `present`
/// is an issue naming the item's path. Issues come in item, then schema
/// declaration order.
pub fn validate_items(items: &[Item], components: &[ComponentSchema], present: &[String]) -> (r: Vec<ItemIssue>)
    ensures
        issue_views(r@) == item_issues(items@, components@, present@.map_values(|x: String| x@), 0),
{
    let ghost pv = present@.map_values(|x: String| x@);
    let mut issues: Vec<ItemIssue> = Vec::new();
    let mut i: usize = 0;
    proof {
        assert(issue_views(issues@) =~= Seq::<(Seq<char>, Seq<char>, Seq<char>)>::empty());
    }
    while i < items.len()
        invariant
            i <= items@.len(),
            pv == present@.map_values(|x: String| x@),
            issue_views(issues@) + item_issues(items@, components@, pv, i as int) == item_issues(
                items@,
                components@,
                pv,
                0,
            ),
        decreases items@.len() - i,
    {
        let ghost before = issue_views(issues@);
        let item = &items[i];
        match find_component(components, item.schema.as_str()) {
            None => {
                let mut m = chars_of("item declares '$schema: ");
                push_str(&mut m, item.schema.as_str());
                push_str(&mut m, "' which is not a component in the items directory");
                issues.push(issue(item.source_path.as_str(), "unknown-schema", m.as_slice()));
            },
            Some(c) => {
                validate_item_against_schema(item, c, present, &mut issues);
            },
        }
        proof {
            assert(issue_views(issues@) + item_issues(items@, components@, pv, i + 1) =~= before + item_issues(
                items@,
                components@,
                pv,
                i as int,
            ));
        }
        i = i + 1;
    }
    proof {
        assert(issue_views(issues@) + Seq::<(Seq<char>, Seq<char>, Seq<char>)>::empty() =~= issue_views(issues@));
    }
    issues
}

/// The image locations that validation looks for, item by item in schema
/// declaration order: for each item whose schema is known, each image input
/// with a value.
pub open spec fn image_checks(items: Seq<Item>, cs: Seq<ComponentSchema>, i: int) -> Seq<Seq<char>>
    decreases items.len() - i,
{
    if i < 0 || i >= items.len() {
        seq![]
    } else {
        (match component_named(cs, items[i].schema@) {
            None => seq![],
            Some(c) => image_inputs(items[i].source_path@, entries(items[i].inputs@), c.inputs@, 0),
        }) + image_checks(items, cs, i + 1)
    }
}

/// The image locations of one item, from the `k`-th declared input on.
pub open spec fn image_inputs(
    path: Seq<char>,
    inputs: Seq<(Seq<char>, Seq<char>)>,
    decl: Seq<InputSchema>,
    k: int,
) -> Seq<Seq<char>>
    decreases decl.len() - k,
{
    if k < 0 || k >= decl.len() {
        seq![]
    } else {
        (match map_get(inputs, decl[k].name@) {
            Some(v) => if decl[k].kind == InputKind::Image && v.len() > 0 {
                seq![image_location(path, v)]
            } else {
                seq![]
            },
            None => seq![],
        }) + image_inputs(path, inputs, decl, k + 1)
    }
}

/// List the image locations that [`validate_items`] checks, so the caller
/// can look each one up on disk.
pub fn image_locations(items: &[Item], components: &[ComponentSchema]) -> (r: Vec<String>)
    ensures
        r@.map_values(|x: String| x@) == image_checks(items@, components@, 0),
{
    let mut out: Vec<String> = Vec::new();
    let mut i: usize = 0;
    while i < items.len()
        invariant
            i <= items@.len(),
            out@.map_values(|x: String| x@) + image_checks(items@, components@, i as int) == image_checks(
                items@,
                components@,
                0,
            ),
        decreases items@.len() - i,
    {
        let ghost before = out@.map_values(|x: String| x@);
        let item = &items[i];
        if let Some(c) = find_component(components, item.schema.as_str()) {
            let ghost ins = entries(item.inputs@);
            let mut k: usize = 0;
            while k < c.inputs.len()
                invariant
                    k <= c.inputs@.len(),
                    ins == entries(item.inputs@),
                    out@.map_values(|x: String| x@) + image_inputs(item.source_path@, ins, c.inputs@, k as int) == before
                        + image_inputs(item.source_path@, ins, c.inputs@, 0),
                decreases c.inputs@.len() - k,
            {
                let ghost b2 = out@.map_values(|x: String| x@);
                let input = &c.inputs[k];
                if let Some(value) = lookup_input(&item.inputs, input.name.as_str()) {
                    if input.kind == InputKind::Image && chars_of(value.as_str()).len() > 0 {
                        out.push(image_location_exec(item.source_path.as_str(), value.as_str()));
                    }
                }
                proof {
                    assert(out@.map_values(|x: String| x@) + image_inputs(item.source_path@, ins, c.inputs@, k + 1)
                        =~= b2 + image_inputs(item.source_path@, ins, c.inputs@, k as int));
                }
                k = k + 1;
            }
            proof {
                assert(out@.map_values(|x: String| x@) + Seq::<Seq<char>>::empty() =~= out@.map_values(
                    |x: String| x@,
                ));
            }
        }
        proof {
            assert(out@.map_values(|x: String| x@) + image_checks(items@, components@, i + 1) =~= before
                + image_checks(items@, components@, i as int));
        }
        i = i + 1;
    }
    proof {
        assert(out@.map_values(|x: String| x@) + Seq::<Seq<char>>::empty() =~= out@.map_values(|x: String| x@));
    }
    out
}

} // verus!
