//! Named input maps: inputs kept sorted by name, each name once.
//!
//! Nodes and documents carry their inputs as a list of `(name, value)`
//! pairs ordered by name (character by character), the order in which they
//! are written out. Inserting a name that is present replaces its value.
use vstd::prelude::*;

use crate::model::{input_view, InputKind, InputValue, JsonV};
use crate::text::chars_of;

verus! {

/// `a` sorts strictly before `b`, comparing characters in order.
pub open spec fn seq_lt(a: Seq<char>, b: Seq<char>) -> bool
    decreases a.len(),
{
    if a.len() == 0 {
        b.len() > 0
    } else if b.len() == 0 {
        false
    } else if a[0] != b[0] {
        a[0] < b[0]
    } else {
        seq_lt(a.drop_first(), b.drop_first())
    }
}

/// Compare two names character by character.
pub fn chars_lt(a: &[char], b: &[char]) -> (r: bool)
    ensures
        r == seq_lt(a@, b@),
{
    let mut i: usize = 0;
    proof {
        assert(a@.subrange(0, a@.len() as int) =~= a@);
        assert(b@.subrange(0, b@.len() as int) =~= b@);
    }
    while i < a.len() && i < b.len() && a[i] == b[i]
        invariant
            i <= a@.len(),
            i <= b@.len(),
            seq_lt(a@, b@) == seq_lt(a@.subrange(i as int, a@.len() as int), b@.subrange(i as int, b@.len() as int)),
        decreases a@.len() - i,
    {
        let ghost x = a@.subrange(i as int, a@.len() as int);
        let ghost y = b@.subrange(i as int, b@.len() as int);
        proof {
            assert(x.drop_first() =~= a@.subrange(i + 1, a@.len() as int));
            assert(y.drop_first() =~= b@.subrange(i + 1, b@.len() as int));
        }
        i = i + 1;
    }
    proof {
        let x = a@.subrange(i as int, a@.len() as int);
        let y = b@.subrange(i as int, b@.len() as int);
        if i < a@.len() && i < b@.len() {
            assert(x[0] == a@[i as int] && y[0] == b@[i as int]);
        }
    }
    if i == a.len() {
        i < b.len()
    } else if i == b.len() {
        false
    } else {
        a[i] < b[i]
    }
}

/// The names and values of an input list.
pub open spec fn entries<V: View>(m: Seq<(String, V)>) -> Seq<(Seq<char>, V::V)> {
    m.map_values(|p: (String, V)| (p.0@, p.1@))
}

/// The names are in strictly increasing order.
pub open spec fn is_sorted<V>(m: Seq<(Seq<char>, V)>) -> bool {
    forall|i: int, j: int| 0 <= i < j < m.len() ==> seq_lt(#[trigger] m[i].0, #[trigger] m[j].0)
}

/// The value stored under `k`.
pub open spec fn map_get<V>(m: Seq<(Seq<char>, V)>, k: Seq<char>) -> Option<V>
    decreases m.len(),
{
    if m.len() == 0 {
        None
    } else if m[0].0 == k {
        Some(m[0].1)
    } else {
        map_get(m.drop_first(), k)
    }
}

/// The list with `k` set to `v`: replaced in place when present, otherwise
/// inserted before the first larger name.
pub open spec fn map_insert<V>(m: Seq<(Seq<char>, V)>, k: Seq<char>, v: V) -> Seq<(Seq<char>, V)>
    decreases m.len(),
{
    if m.len() == 0 {
        seq![(k, v)]
    } else if m[0].0 == k {
        seq![(k, v)] + m.drop_first()
    } else if seq_lt(k, m[0].0) {
        seq![(k, v)] + m
    } else {
        seq![m[0]] + map_insert(m.drop_first(), k, v)
    }
}

/// Whether the list has an entry named `key`.
pub fn has_key<V: View>(m: &Vec<(String, V)>, key: &[char]) -> (b: bool)
    ensures
        b == map_get(entries(m@), key@) is Some,
{
    let ghost e = entries(m@);
    let mut i: usize = 0;
    proof {
        assert(e.subrange(0, e.len() as int) =~= e);
    }
    while i < m.len()
        invariant
            i <= m@.len(),
            e == entries(m@),
            e.len() == m@.len(),
            map_get(e, key@) == map_get(e.subrange(i as int, e.len() as int), key@),
        decreases m@.len() - i,
    {
        let ghost rest = e.subrange(i as int, e.len() as int);
        proof {
            assert(rest[0] == (m@[i as int].0@, m@[i as int].1@));
            assert(rest.drop_first() =~= e.subrange(i + 1, e.len() as int));
        }
        let k = chars_of(m[i].0.as_str());
        if crate::text::chars_eq(k.as_slice(), key) {
            return true;
        }
        i = i + 1;
    }
    false
}

/// Set `key` to `value` in a sorted input list.
pub fn insert_input<V: View>(m: &mut Vec<(String, V)>, key: String, value: V)
    ensures
        entries(final(m)@) == map_insert(entries(old(m)@), key@, value@),
{
    let ghost k = key@;
    let ghost iv = value@;
    let ghost old_e = entries(m@);
    let kc = chars_of(key.as_str());
    let mut i: usize = 0;
    proof {
        assert(old_e.subrange(0, old_e.len() as int) =~= old_e);
        assert(old_e.subrange(0, 0) =~= Seq::<(Seq<char>, V::V)>::empty());
    }
    while i < m.len()
        invariant
            i <= m@.len(),
            m@ == old(m)@,
            old_e == entries(m@),
            kc@ == k,
            k == key@,
            iv == value@,
            map_insert(old_e, k, iv) == old_e.subrange(0, i as int) + map_insert(
                old_e.subrange(i as int, old_e.len() as int),
                k,
                iv,
            ),
        decreases m@.len() - i,
    {
        let ghost rest = old_e.subrange(i as int, old_e.len() as int);
        let name = chars_of(m[i].0.as_str());
        proof {
            assert(rest[0] == (m@[i as int].0@, m@[i as int].1@));
            assert(rest.drop_first() =~= old_e.subrange(i + 1, old_e.len() as int));
        }
        if crate::text::chars_eq(name.as_slice(), kc.as_slice()) {
            m.set(i, (key, value));
            proof {
                assert(entries(m@) =~= old_e.subrange(0, i as int) + (seq![(k, iv)]
                    + rest.drop_first()));
            }
            return;
        }
        if chars_lt(kc.as_slice(), name.as_slice()) {
            m.insert(i, (key, value));
            proof {
                assert(entries(m@) =~= old_e.subrange(0, i as int) + (seq![(k, iv)] + rest));
            }
            return;
        }
        proof {
            assert(old_e.subrange(0, i + 1) =~= old_e.subrange(0, i as int) + seq![rest[0]]);
            assert(old_e.subrange(0, i as int) + (seq![rest[0]] + map_insert(rest.drop_first(), k, iv))
                =~= old_e.subrange(0, i + 1) + map_insert(rest.drop_first(), k, iv));
        }
        i = i + 1;
    }
    m.push((key, value));
    proof {
        assert(old_e.subrange(i as int, old_e.len() as int) =~= Seq::<(Seq<char>, V::V)>::empty());
        assert(entries(m@) =~= old_e + seq![(k, iv)]);
    }
}

/// Reading a name back after setting it gives the value set; every other
/// name keeps its value.
pub proof fn law_get_after_insert<V>(m: Seq<(Seq<char>, V)>, k: Seq<char>, v: V, other: Seq<char>)
    ensures
        map_get(map_insert(m, k, v), k) == Some(v),
        other != k ==> map_get(map_insert(m, k, v), other) == map_get(m, other),
    decreases m.len(),
{
    let r = map_insert(m, k, v);
    if m.len() == 0 {
        assert(r.drop_first() =~= Seq::<(Seq<char>, V)>::empty());
        assert(r[0] == (k, v));
        if other != k {
            assert(map_get(r, other) == map_get(r.drop_first(), other));
        }
    } else if m[0].0 == k {
        assert(r.drop_first() =~= m.drop_first());
        assert(r[0] == (k, v));
        if other != k {
            assert(map_get(r, other) == map_get(r.drop_first(), other));
            assert(map_get(m, other) == map_get(m.drop_first(), other));
        }
    } else if seq_lt(k, m[0].0) {
        assert(r.drop_first() =~= m);
        assert(r[0] == (k, v));
        if other != k {
            assert(map_get(r, other) == map_get(r.drop_first(), other));
        }
    } else {
        law_get_after_insert(m.drop_first(), k, v, other);
        assert(r.drop_first() =~= map_insert(m.drop_first(), k, v));
        assert(r[0] == m[0]);
    }
}

/// A name that sorts before another differs from it and does not sort
/// after it.
pub proof fn lemma_seq_lt_asym(a: Seq<char>, b: Seq<char>)
    ensures
        seq_lt(a, b) ==> a != b && !seq_lt(b, a),
    decreases a.len(),
{
    if a.len() > 0 && b.len() > 0 && a[0] == b[0] {
        lemma_seq_lt_asym(a.drop_first(), b.drop_first());
        if seq_lt(a, b) && a == b {
            assert(a.drop_first() == b.drop_first());
        }
    }
}

/// The order on names is transitive.
pub proof fn lemma_seq_lt_trans(a: Seq<char>, b: Seq<char>, c: Seq<char>)
    requires
        seq_lt(a, b),
        seq_lt(b, c),
    ensures
        seq_lt(a, c),
    decreases a.len(),
{
    if a.len() > 0 && a[0] == b[0] && b[0] == c[0] {
        lemma_seq_lt_trans(a.drop_first(), b.drop_first(), c.drop_first());
    }
}

/// Of two different names, one sorts before the other.
pub proof fn lemma_seq_lt_total(a: Seq<char>, b: Seq<char>)
    requires
        a != b,
    ensures
        seq_lt(a, b) || seq_lt(b, a),
    decreases a.len(),
{
    if a.len() > 0 && b.len() > 0 && a[0] == b[0] {
        assert(a =~= seq![a[0]] + a.drop_first());
        assert(b =~= seq![b[0]] + b.drop_first());
        lemma_seq_lt_total(a.drop_first(), b.drop_first());
    } else if a.len() == 0 && b.len() == 0 {
        assert(a =~= b);
    }
}

/// Every name of the list after setting `k` is `k` or a name it had before.
pub proof fn lemma_insert_names<V>(m: Seq<(Seq<char>, V)>, k: Seq<char>, v: V, i: int)
    requires
        0 <= i < map_insert(m, k, v).len(),
    ensures
        map_insert(m, k, v).len() <= m.len() + 1,
        map_insert(m, k, v)[i].0 == k || exists|j: int| 0 <= j < m.len() && #[trigger] m[j].0 == map_insert(m, k, v)[i].0,
    decreases m.len(),
{
    let r = map_insert(m, k, v);
    if m.len() > 0 {
        if m[0].0 == k {
            if i > 0 {
                assert(r[i] == m[i]);
            }
        } else if seq_lt(k, m[0].0) {
            if i > 0 {
                assert(r[i] == m[i - 1]);
            }
        } else {
            let rest = m.drop_first();
            if i > 0 {
                lemma_insert_names(rest, k, v, i - 1);
                assert(r[i] == map_insert(rest, k, v)[i - 1]);
                if r[i].0 != k {
                    let j = choose|j: int| 0 <= j < rest.len() && #[trigger] rest[j].0 == map_insert(rest, k, v)[i - 1].0;
                    assert(m[j + 1] == rest[j]);
                }
            } else {
                assert(r[0] == m[0]);
            }
            if i == 0 {
                lemma_insert_names(rest, k, v, 0);
            }
        }
    }
}

/// Setting a name keeps a sorted list sorted: each name stays once, in
/// ascending order.
pub proof fn law_insert_keeps_sorted<V>(m: Seq<(Seq<char>, V)>, k: Seq<char>, v: V)
    requires
        is_sorted(m),
    ensures
        is_sorted(map_insert(m, k, v)),
    decreases m.len(),
{
    let r = map_insert(m, k, v);
    if m.len() == 0 {
    } else if m[0].0 == k {
        assert forall|i: int, j: int| 0 <= i < j < r.len() implies seq_lt(#[trigger] r[i].0, #[trigger] r[j].0) by {
            assert(r[j] == m[j]);
            if i > 0 {
                assert(r[i] == m[i]);
            }
        }
    } else if seq_lt(k, m[0].0) {
        assert forall|i: int, j: int| 0 <= i < j < r.len() implies seq_lt(#[trigger] r[i].0, #[trigger] r[j].0) by {
            assert(r[j] == m[j - 1]);
            if i > 0 {
                assert(r[i] == m[i - 1]);
            } else if j > 1 {
                lemma_seq_lt_trans(k, m[0].0, m[j - 1].0);
            }
        }
    } else {
        let rest = m.drop_first();
        assert forall|i: int, j: int| 0 <= i < j < rest.len() implies seq_lt(#[trigger] rest[i].0, #[trigger] rest[j].0) by {
            assert(rest[i] == m[i + 1]);
            assert(rest[j] == m[j + 1]);
        }
        law_insert_keeps_sorted(rest, k, v);
        lemma_seq_lt_total(k, m[0].0);
        let t = map_insert(rest, k, v);
        assert forall|i: int, j: int| 0 <= i < j < r.len() implies seq_lt(#[trigger] r[i].0, #[trigger] r[j].0) by {
            assert(r[j] == t[j - 1]);
            if i > 0 {
                assert(r[i] == t[i - 1]);
            } else {
                assert(r[0] == m[0]);
                lemma_insert_names(rest, k, v, j - 1);
                if t[j - 1].0 != k {
                    let q = choose|q: int| 0 <= q < rest.len() && #[trigger] rest[q].0 == t[j - 1].0;
                    assert(rest[q] == m[q + 1]);
                }
            }
        }
    }
}

/// A name that sorts before the first name of a sorted list is not in it.
pub proof fn lemma_sorted_before_absent<V>(m: Seq<(Seq<char>, V)>, k: Seq<char>)
    requires
        is_sorted(m),
        m.len() > 0,
        seq_lt(k, m[0].0),
    ensures
        map_get(m, k) is None,
    decreases m.len(),
{
    lemma_seq_lt_asym(k, m[0].0);
    let rest = m.drop_first();
    assert(map_get(m, k) == map_get(rest, k));
    if rest.len() > 0 {
        assert(rest[0] == m[1]);
        assert(seq_lt(m[0].0, m[1].0));
        lemma_seq_lt_trans(k, m[0].0, rest[0].0);
        assert forall|i: int, j: int| 0 <= i < j < rest.len() implies seq_lt(#[trigger] rest[i].0, #[trigger] rest[j].0) by {
            assert(rest[i] == m[i + 1]);
            assert(rest[j] == m[j + 1]);
        }
        lemma_sorted_before_absent(rest, k);
    }
}

/// The list without the entry for `k`.
pub open spec fn map_remove<V>(m: Seq<(Seq<char>, V)>, k: Seq<char>) -> Seq<(Seq<char>, V)>
    decreases m.len(),
{
    if m.len() == 0 {
        seq![]
    } else if m[0].0 == k {
        map_remove(m.drop_first(), k)
    } else {
        seq![m[0]] + map_remove(m.drop_first(), k)
    }
}

/// Remove the entry for `key`, if any.
pub fn remove_input<V: View>(m: Vec<(String, V)>, key: &str) -> (r: Vec<(String, V)>)
    ensures
        entries(r@) == map_remove(entries(m@), key@),
{
    let k = chars_of(key);
    let mut out: Vec<(String, V)> = Vec::new();
    let mut m = m;
    let ghost orig = m@;
    let ghost e = entries(orig);
    proof {
        assert(e.subrange(0, e.len() as int) =~= e);
        assert(entries(out@) =~= Seq::<(Seq<char>, V::V)>::empty());
    }
    while m.len() > 0
        invariant
            k@ == key@,
            e == entries(orig),
            m@.len() <= orig.len(),
            m@ == orig.subrange(orig.len() - m@.len(), orig.len() as int),
            entries(out@) + map_remove(e.subrange(orig.len() - m@.len(), orig.len() as int), key@)
                == map_remove(e, key@),
        decreases m@.len(),
    {
        let ghost done = orig.len() - m@.len();
        let ghost rest = e.subrange(done, orig.len() as int);
        let ghost before = entries(out@);
        let (name, v) = m.remove(0);
        proof {
            assert(orig[done] == (name, v));
            assert(m@ =~= orig.subrange(orig.len() - m@.len(), orig.len() as int));
            assert(rest[0] == (name@, v@));
            assert(rest.drop_first() =~= e.subrange(done + 1, orig.len() as int));
        }
        let nc = chars_of(name.as_str());
        if !crate::text::chars_eq(nc.as_slice(), k.as_slice()) {
            out.push((name, v));
            proof {
                assert(entries(out@) =~= before + seq![(nc@, v@)]);
                assert(entries(out@) + map_remove(rest.drop_first(), key@) =~= before + map_remove(rest, key@));
            }
        }
    }
    proof {
        assert(e.subrange(orig.len() as int, orig.len() as int) =~= Seq::<(Seq<char>, V::V)>::empty());
        assert(entries(out@) + Seq::<(Seq<char>, V::V)>::empty() =~= entries(out@));
    }
    out
}

} // verus!
