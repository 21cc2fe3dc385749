//! Edits of a document's node tree: finding a node by id, adding a node as
//! a child or sibling, and removing a node with or without its subtree.
//!
//! A search by id looks first at the nodes of one level, then inside each
//! of them in order. An unknown target leaves the tree unchanged.
use vstd::prelude::*;

use crate::inputs::{entries, insert_input, map_insert};
use crate::model::{ids_of, input_entries, lemma_node_views, node_view, node_views, InputKind, InputValue, JsonV, Node, NodeV};
use crate::text::{chars_eq, chars_of};

verus! {

/// The first node of the level whose id is `id`.
pub open spec fn level_index(ns: Seq<NodeV>, id: Seq<char>) -> Option<int>
    decreases ns.len(),
{
    if ns.len() == 0 {
        None
    } else if ns[0].id == id {
        Some(0)
    } else {
        match level_index(ns.drop_first(), id) {
            Some(i) => Some(i + 1),
            None => None,
        }
    }
}

/// The node with id `id`, in document order (each node before its
/// children, children before later siblings).
pub open spec fn find_spec(ns: Seq<NodeV>, id: Seq<char>) -> Option<NodeV>
    decreases ns,
{
    if ns.len() == 0 {
        None
    } else if ns[0].id == id {
        Some(ns[0])
    } else {
        match find_spec(ns[0].children, id) {
            Some(n) => Some(n),
            None => find_spec(ns.drop_first(), id),
        }
    }
}

/// `n` with its children replaced.
pub open spec fn set_children(n: NodeV, cs: Seq<NodeV>) -> NodeV {
    NodeV { children: cs, ..n }
}

/// `p` in front of the forest `o` holds, if it holds one.
pub open spec fn lift(p: Seq<NodeV>, o: Option<Seq<NodeV>>) -> Option<Seq<NodeV>> {
    match o {
        Some(r) => Some(p + r),
        None => None,
    }
}

/// The forest with `n` appended to the children of the node `pid`, or
/// `None` when no node has that id.
pub open spec fn insert_child_spec(ns: Seq<NodeV>, pid: Seq<char>, n: NodeV) -> Option<Seq<NodeV>>
    decreases ns, 1int,
{
    match level_index(ns, pid) {
        Some(i) => if 0 <= i < ns.len() {
            Some(ns.update(i, set_children(ns[i], ns[i].children.push(n))))
        } else {
            None
        },
        None => descend_child(ns, pid, n),
    }
}

/// [`insert_child_spec`] tried inside each node of the level in turn.
pub open spec fn descend_child(ns: Seq<NodeV>, pid: Seq<char>, n: NodeV) -> Option<Seq<NodeV>>
    decreases ns, 0int,
{
    if ns.len() == 0 {
        None
    } else {
        match insert_child_spec(ns[0].children, pid, n) {
            Some(k) => Some(seq![set_children(ns[0], k)] + ns.drop_first()),
            None => lift(seq![ns[0]], descend_child(ns.drop_first(), pid, n)),
        }
    }
}

/// The forest with `n` inserted next to the node `tid` (after it when
/// `after`, else before it), or `None` when no node has that id.
pub open spec fn insert_sibling_spec(ns: Seq<NodeV>, tid: Seq<char>, n: NodeV, after: bool) -> Option<Seq<NodeV>>
    decreases ns, 1int,
{
    match level_index(ns, tid) {
        Some(i) => if 0 <= i < ns.len() {
            Some(ns.insert(if after { i + 1 } else { i }, n))
        } else {
            None
        },
        None => descend_sibling(ns, tid, n, after),
    }
}

/// [`insert_sibling_spec`] tried inside each node of the level in turn.
pub open spec fn descend_sibling(ns: Seq<NodeV>, tid: Seq<char>, n: NodeV, after: bool) -> Option<Seq<NodeV>>
    decreases ns, 0int,
{
    if ns.len() == 0 {
        None
    } else {
        match insert_sibling_spec(ns[0].children, tid, n, after) {
            Some(k) => Some(seq![set_children(ns[0], k)] + ns.drop_first()),
            None => lift(seq![ns[0]], descend_sibling(ns.drop_first(), tid, n, after)),
        }
    }
}

/// The forest without the node `tid`: its whole subtree dropped when
/// `with_children`, else its children put in its place. `None` when no node
/// has that id.
pub open spec fn remove_spec(ns: Seq<NodeV>, tid: Seq<char>, with_children: bool) -> Option<Seq<NodeV>>
    decreases ns, 1int,
{
    match level_index(ns, tid) {
        Some(i) => if 0 <= i < ns.len() {
            Some(
                if with_children {
                    ns.remove(i)
                } else {
                    ns.subrange(0, i) + ns[i].children + ns.subrange(i + 1, ns.len() as int)
                },
            )
        } else {
            None
        },
        None => descend_remove(ns, tid, with_children),
    }
}

/// [`remove_spec`] tried inside each node of the level in turn.
pub open spec fn descend_remove(ns: Seq<NodeV>, tid: Seq<char>, with_children: bool) -> Option<Seq<NodeV>>
    decreases ns, 0int,
{
    if ns.len() == 0 {
        None
    } else {
        match remove_spec(ns[0].children, tid, with_children) {
            Some(k) => Some(seq![set_children(ns[0], k)] + ns.drop_first()),
            None => lift(seq![ns[0]], descend_remove(ns.drop_first(), tid, with_children)),
        }
    }
}

// ---------------------------------------------------------------------------
// Executable edits.
// ---------------------------------------------------------------------------

fn level_index_exec(nodes: &Vec<Node>, id: &[char]) -> (r: Option<usize>)
    ensures
        match r {
            Some(i) => level_index(node_views(nodes@), id@) == Some(i as int) && i < nodes@.len(),
            None => level_index(node_views(nodes@), id@) is None,
        },
{
    let ghost v = node_views(nodes@);
    proof {
        lemma_node_views(nodes@);
        assert(v.subrange(0, v.len() as int) =~= v);
    }
    let mut i: usize = 0;
    while i < nodes.len()
        invariant
            i <= nodes@.len(),
            v == node_views(nodes@),
            v.len() == nodes@.len(),
            forall|k: int| 0 <= k < nodes@.len() ==> #[trigger] v[k] == node_view(nodes@[k]),
            level_index(v, id@) == match level_index(v.subrange(i as int, v.len() as int), id@) {
                Some(j) => Some(j + i),
                None => None,
            },
        decreases nodes@.len() - i,
    {
        let ghost rest = v.subrange(i as int, v.len() as int);
        proof {
            assert(rest[0] == node_view(nodes@[i as int]));
            assert(rest.drop_first() =~= v.subrange(i + 1, v.len() as int));
        }
        let c = chars_of(nodes[i].id.0.as_str());
        if chars_eq(c.as_slice(), id) {
            return Some(i);
        }
        i = i + 1;
    }
    None
}

/// A reference to the node with `id`, in document order.
pub fn find_node<'a>(nodes: &'a Vec<Node>, id: &str) -> (r: Option<&'a Node>)
    ensures
        match r {
            Some(n) => find_spec(node_views(nodes@), id@) == Some(node_view(*n)),
            None => find_spec(node_views(nodes@), id@) is None,
        },
    decreases nodes@,
{
    let ghost v = node_views(nodes@);
    proof {
        lemma_node_views(nodes@);
        assert(v.subrange(0, v.len() as int) =~= v);
    }
    let target = chars_of(id);
    let mut i: usize = 0;
    while i < nodes.len()
        invariant
            i <= nodes@.len(),
            target@ == id@,
            v == node_views(nodes@),
            v.len() == nodes@.len(),
            forall|k: int| 0 <= k < nodes@.len() ==> #[trigger] v[k] == node_view(nodes@[k]),
            find_spec(v, id@) == find_spec(v.subrange(i as int, v.len() as int), id@),
        decreases nodes@.len() - i,
    {
        let ghost rest = v.subrange(i as int, v.len() as int);
        let node = &nodes[i];
        proof {
            assert(rest[0] == node_view(*node));
            assert(rest.drop_first() =~= v.subrange(i + 1, v.len() as int));
            assert(decreases_to!(nodes@ => nodes@[i as int]));
            assert(decreases_to!(nodes@[i as int] => nodes@[i as int].children));
        }
        let c = chars_of(node.id.0.as_str());
        if chars_eq(c.as_slice(), target.as_slice()) {
            return Some(node);
        }
        match find_node(&node.children, id) {
            Some(found) => {
                return Some(found);
            },
            None => {},
        }
        i = i + 1;
    }
    None
}

/// The values of two forests side by side.
pub proof fn lemma_views_cat(a: Seq<Node>, b: Seq<Node>)
    ensures
        node_views(a + b) == node_views(a) + node_views(b),
{
    lemma_node_views(a);
    lemma_node_views(b);
    lemma_node_views(a + b);
    assert forall|k: int| 0 <= k < (a + b).len() implies #[trigger] node_views(a + b)[k] == (
    node_views(a) + node_views(b))[k] by {
        if k < a.len() {
            assert((a + b)[k] == a[k]);
        } else {
            assert((a + b)[k] == b[k - a.len()]);
        }
    }
    assert(node_views(a + b) =~= node_views(a) + node_views(b));
}

/// The values of part of a forest.
pub proof fn lemma_views_sub(a: Seq<Node>, i: int, j: int)
    requires
        0 <= i <= j <= a.len(),
    ensures
        node_views(a.subrange(i, j)) == node_views(a).subrange(i, j),
{
    lemma_node_views(a);
    lemma_node_views(a.subrange(i, j));
    assert(node_views(a.subrange(i, j)) =~= node_views(a).subrange(i, j));
}

/// The values of a forest with one node replaced.
pub proof fn lemma_views_update(a: Seq<Node>, i: int, n: Node)
    requires
        0 <= i < a.len(),
    ensures
        node_views(a.update(i, n)) == node_views(a).update(i, node_view(n)),
{
    lemma_node_views(a);
    lemma_node_views(a.update(i, n));
    assert(node_views(a.update(i, n)) =~= node_views(a).update(i, node_view(n)));
}

/// The values of a forest with one node inserted.
pub proof fn lemma_views_insert(a: Seq<Node>, i: int, n: Node)
    requires
        0 <= i <= a.len(),
    ensures
        node_views(a.insert(i, n)) == node_views(a).insert(i, node_view(n)),
{
    lemma_node_views(a);
    lemma_node_views(a.insert(i, n));
    assert(node_views(a.insert(i, n)) =~= node_views(a).insert(i, node_view(n)));
}

/// Append `node` to the children of the node `pid`; hand `node` back when no
/// node has that id.
fn insert_child_rec(nodes: &mut Vec<Node>, pid: &[char], node: Node) -> (r: Option<Node>)
    ensures
        match insert_child_spec(node_views(old(nodes)@), pid@, node_view(node)) {
            Some(v) => r is None && node_views(final(nodes)@) == v,
            None => r == Some(node) && node_views(final(nodes)@) == node_views(old(nodes)@),
        },
    decreases old(nodes)@,
{
    let ghost v0 = node_views(nodes@);
    let ghost nv = node_view(node);
    proof {
        lemma_node_views(nodes@);
    }
    match level_index_exec(nodes, pid) {
        Some(i) => {
            let mut target = nodes.remove(i);
            let ghost t0 = target;
            let ghost kids0 = target.children@;
            target.children.push(node);
            proof {
                lemma_node_views(kids0);
                lemma_node_views(target.children@);
                assert(target.children@ == kids0.push(node));
                assert(node_views(target.children@) =~= node_views(kids0).push(nv));
                assert(node_view(target) == set_children(node_view(t0), node_view(t0).children.push(nv)));
            }
            nodes.insert(i, target);
            proof {
                assert(nodes@ =~= old(nodes)@.update(i as int, target));
                lemma_views_update(old(nodes)@, i as int, target);
            }
            return None;
        },
        None => {},
    }
    let mut pending = node;
    let mut i: usize = 0;
    proof {
        assert(v0.subrange(0, 0) =~= Seq::<NodeV>::empty());
        assert(v0.subrange(0, v0.len() as int) =~= v0);
        assert(lift(Seq::<NodeV>::empty(), descend_child(v0, pid@, nv)) == descend_child(v0, pid@, nv)) by {
            match descend_child(v0, pid@, nv) {
                Some(r) => { assert(Seq::<NodeV>::empty() + r =~= r); },
                None => {},
            }
        }
    }
    while i < nodes.len()
        invariant
            i <= nodes@.len(),
            nodes@.len() == old(nodes)@.len(),
            forall|k: int| i <= k < nodes@.len() ==> #[trigger] nodes@[k] == old(nodes)@[k],
            v0 == node_views(old(nodes)@),
            node_views(nodes@) == v0,
            v0.len() == nodes@.len(),
            forall|k: int| 0 <= k < nodes@.len() ==> #[trigger] v0[k] == node_view(nodes@[k]),
            pending == node,
            nv == node_view(node),
            level_index(v0, pid@) is None,
            descend_child(v0, pid@, nv) == lift(
                v0.subrange(0, i as int),
                descend_child(v0.subrange(i as int, v0.len() as int), pid@, nv),
            ),
        decreases nodes@.len() - i,
    {
        let ghost rest = v0.subrange(i as int, v0.len() as int);
        let ghost cur = nodes@;
        let mut c = nodes.remove(i);
        let ghost c0 = c;
        proof {
            assert(c0 == old(nodes)@[i as int]);
            assert(decreases_to!(old(nodes)@ => old(nodes)@[i as int]));
            assert(decreases_to!(old(nodes)@[i as int] => old(nodes)@[i as int].children));
            assert(rest[0] == node_view(c0));
            assert(rest.drop_first() =~= v0.subrange(i + 1, v0.len() as int));
        }
        let back = insert_child_rec(&mut c.children, pid, pending);
        nodes.insert(i, c);
        match back {
            None => {
                proof {
                    let k = node_views(c.children@);
                    assert(node_view(c) == set_children(node_view(c0), k));
                    assert(nodes@ =~= cur.update(i as int, c));
                    lemma_views_update(cur, i as int, c);
                    assert(v0.subrange(0, i as int) + (seq![set_children(rest[0], k)] + rest.drop_first())
                        =~= v0.update(i as int, node_view(c)));
                }
                return None;
            },
            Some(nd) => {
                proof {
                    assert(node_view(c) == node_view(c0));
                    assert(nodes@ =~= cur.update(i as int, c));
                    lemma_views_update(cur, i as int, c);
                    assert(node_views(nodes@) =~= v0);
                    lemma_node_views(nodes@);
                    assert(v0.subrange(0, i as int) + seq![rest[0]] =~= v0.subrange(0, i + 1));
                    match descend_child(rest.drop_first(), pid@, nv) {
                        Some(r) => {
                            assert(v0.subrange(0, i as int) + (seq![rest[0]] + r) =~= v0.subrange(0, i + 1) + r);
                        },
                        None => {},
                    }
                }
                pending = nd;
            },
        }
        i = i + 1;
    }
    proof {
        assert(v0.subrange(i as int, v0.len() as int) =~= Seq::<NodeV>::empty());
    }
    Some(pending)
}

/// Insert `node` next to the node `tid`; hand `node` back when no node has
/// that id.
fn insert_sibling_rec(nodes: &mut Vec<Node>, pid: &[char], node: Node, after: bool) -> (r: Option<Node>)
    ensures
        match insert_sibling_spec(node_views(old(nodes)@), pid@, node_view(node), after) {
            Some(v) => r is None && node_views(final(nodes)@) == v,
            None => r == Some(node) && node_views(final(nodes)@) == node_views(old(nodes)@),
        },
    decreases old(nodes)@,
{
    let ghost v0 = node_views(nodes@);
    let ghost nv = node_view(node);
    proof {
        lemma_node_views(nodes@);
    }
    match level_index_exec(nodes, pid) {
        Some(i) => {
            let _n = nodes.len();
            let at = if after { i + 1 } else { i };
            nodes.insert(at, node);
            proof {
                lemma_views_insert(old(nodes)@, at as int, node);
            }
            return None;
        },
        None => {},
    }
    let mut pending = node;
    let mut i: usize = 0;
    proof {
        assert(v0.subrange(0, 0) =~= Seq::<NodeV>::empty());
        assert(v0.subrange(0, v0.len() as int) =~= v0);
        assert(lift(Seq::<NodeV>::empty(), descend_sibling(v0, pid@, nv, after)) == descend_sibling(v0, pid@, nv, after)) by {
            match descend_sibling(v0, pid@, nv, after) {
                Some(r) => { assert(Seq::<NodeV>::empty() + r =~= r); },
                None => {},
            }
        }
    }
    while i < nodes.len()
        invariant
            i <= nodes@.len(),
            nodes@.len() == old(nodes)@.len(),
            forall|k: int| i <= k < nodes@.len() ==> #[trigger] nodes@[k] == old(nodes)@[k],
            v0 == node_views(old(nodes)@),
            node_views(nodes@) == v0,
            v0.len() == nodes@.len(),
            forall|k: int| 0 <= k < nodes@.len() ==> #[trigger] v0[k] == node_view(nodes@[k]),
            pending == node,
            nv == node_view(node),
            level_index(v0, pid@) is None,
            descend_sibling(v0, pid@, nv, after) == lift(
                v0.subrange(0, i as int),
                descend_sibling(v0.subrange(i as int, v0.len() as int), pid@, nv, after),
            ),
        decreases nodes@.len() - i,
    {
        let ghost rest = v0.subrange(i as int, v0.len() as int);
        let ghost cur = nodes@;
        let mut c = nodes.remove(i);
        let ghost c0 = c;
        proof {
            assert(c0 == old(nodes)@[i as int]);
            assert(decreases_to!(old(nodes)@ => old(nodes)@[i as int]));
            assert(decreases_to!(old(nodes)@[i as int] => old(nodes)@[i as int].children));
            assert(rest[0] == node_view(c0));
            assert(rest.drop_first() =~= v0.subrange(i + 1, v0.len() as int));
        }
        let back = insert_sibling_rec(&mut c.children, pid, pending, after);
        nodes.insert(i, c);
        match back {
            None => {
                proof {
                    let k = node_views(c.children@);
                    assert(node_view(c) == set_children(node_view(c0), k));
                    assert(nodes@ =~= cur.update(i as int, c));
                    lemma_views_update(cur, i as int, c);
                    assert(v0.subrange(0, i as int) + (seq![set_children(rest[0], k)] + rest.drop_first())
                        =~= v0.update(i as int, node_view(c)));
                }
                return None;
            },
            Some(nd) => {
                proof {
                    assert(node_view(c) == node_view(c0));
                    assert(nodes@ =~= cur.update(i as int, c));
                    lemma_views_update(cur, i as int, c);
                    assert(node_views(nodes@) =~= v0);
                    lemma_node_views(nodes@);
                    assert(v0.subrange(0, i as int) + seq![rest[0]] =~= v0.subrange(0, i + 1));
                    match descend_sibling(rest.drop_first(), pid@, nv, after) {
                        Some(r) => {
                            assert(v0.subrange(0, i as int) + (seq![rest[0]] + r) =~= v0.subrange(0, i + 1) + r);
                        },
                        None => {},
                    }
                }
                pending = nd;
            },
        }
        i = i + 1;
    }
    proof {
        assert(v0.subrange(i as int, v0.len() as int) =~= Seq::<NodeV>::empty());
    }
    Some(pending)
}

/// Append `node` as the last child of the node with `parent_id`, searching
/// the whole tree. Returns whether the parent was found; when it was not,
/// `nodes` is unchanged.
pub fn insert_as_child(nodes: &mut Vec<Node>, parent_id: &str, node: Node) -> (found: bool)
    ensures
        match insert_child_spec(node_views(old(nodes)@), parent_id@, node_view(node)) {
            Some(v) => found && node_views(final(nodes)@) == v,
            None => !found && node_views(final(nodes)@) == node_views(old(nodes)@),
        },
{
    let pid = chars_of(parent_id);
    insert_child_rec(nodes, pid.as_slice(), node).is_none()
}

/// Insert `node` as a sibling next to the node with `target_id` (after it
/// when `after`, otherwise before it), searching the whole tree. Returns
/// whether the target was found; when it was not, `nodes` is unchanged.
pub fn insert_sibling(nodes: &mut Vec<Node>, target_id: &str, node: Node, after: bool) -> (found: bool)
    ensures
        match insert_sibling_spec(node_views(old(nodes)@), target_id@, node_view(node), after) {
            Some(v) => found && node_views(final(nodes)@) == v,
            None => !found && node_views(final(nodes)@) == node_views(old(nodes)@),
        },
{
    let tid = chars_of(target_id);
    insert_sibling_rec(nodes, tid.as_slice(), node, after).is_none()
}

fn remove_rec(nodes: &mut Vec<Node>, tid: &[char], with_children: bool) -> (found: bool)
    ensures
        match remove_spec(node_views(old(nodes)@), tid@, with_children) {
            Some(v) => found && node_views(final(nodes)@) == v,
            None => !found && node_views(final(nodes)@) == node_views(old(nodes)@),
        },
    decreases old(nodes)@,
{
    let ghost v0 = node_views(nodes@);
    proof {
        lemma_node_views(nodes@);
    }
    match level_index_exec(nodes, tid) {
        Some(i) => {
            let removed = nodes.remove(i);
            proof {
                assert(nodes@ =~= old(nodes)@.subrange(0, i as int) + old(nodes)@.subrange(i + 1, old(nodes)@.len() as int));
                lemma_views_cat(old(nodes)@.subrange(0, i as int), old(nodes)@.subrange(i + 1, old(nodes)@.len() as int));
                lemma_views_sub(old(nodes)@, 0, i as int);
                lemma_views_sub(old(nodes)@, i + 1, old(nodes)@.len() as int);
                assert(v0.remove(i as int) =~= v0.subrange(0, i as int) + v0.subrange(i + 1, v0.len() as int));
            }
            if !with_children {
                let ghost head = nodes@.subrange(0, i as int);
                let mut tail = nodes.split_off(i);
                let mut kids = removed.children;
                let ghost kv = kids@;
                let ghost tv = tail@;
                nodes.append(&mut kids);
                nodes.append(&mut tail);
                proof {
                    assert(head =~= old(nodes)@.subrange(0, i as int));
                    assert(tv =~= old(nodes)@.subrange(i + 1, old(nodes)@.len() as int));
                    assert(nodes@ =~= head + kv + tv);
                    lemma_views_cat(head + kv, tv);
                    lemma_views_cat(head, kv);
                    assert(node_view(removed).children == node_views(kv));
                    assert(v0[i as int] == node_view(removed));
                }
            }
            return true;
        },
        None => {},
    }
    let mut i: usize = 0;
    proof {
        assert(v0.subrange(0, 0) =~= Seq::<NodeV>::empty());
        assert(v0.subrange(0, v0.len() as int) =~= v0);
        assert(lift(Seq::<NodeV>::empty(), descend_remove(v0, tid@, with_children)) == descend_remove(v0, tid@, with_children)) by {
            match descend_remove(v0, tid@, with_children) {
                Some(r) => { assert(Seq::<NodeV>::empty() + r =~= r); },
                None => {},
            }
        }
    }
    while i < nodes.len()
        invariant
            i <= nodes@.len(),
            nodes@.len() == old(nodes)@.len(),
            forall|k: int| i <= k < nodes@.len() ==> #[trigger] nodes@[k] == old(nodes)@[k],
            v0 == node_views(old(nodes)@),
            node_views(nodes@) == v0,
            v0.len() == nodes@.len(),
            forall|k: int| 0 <= k < nodes@.len() ==> #[trigger] v0[k] == node_view(nodes@[k]),
            level_index(v0, tid@) is None,
            descend_remove(v0, tid@, with_children) == lift(
                v0.subrange(0, i as int),
                descend_remove(v0.subrange(i as int, v0.len() as int), tid@, with_children),
            ),
        decreases nodes@.len() - i,
    {
        let ghost rest = v0.subrange(i as int, v0.len() as int);
        let ghost cur = nodes@;
        let mut c = nodes.remove(i);
        let ghost c0 = c;
        proof {
            assert(c0 == old(nodes)@[i as int]);
            assert(decreases_to!(old(nodes)@ => old(nodes)@[i as int]));
            assert(decreases_to!(old(nodes)@[i as int] => old(nodes)@[i as int].children));
            assert(rest[0] == node_view(c0));
            assert(rest.drop_first() =~= v0.subrange(i + 1, v0.len() as int));
        }
        let done = remove_rec(&mut c.children, tid, with_children);
        nodes.insert(i, c);
        proof {
            assert(nodes@ =~= cur.update(i as int, c));
            lemma_views_update(cur, i as int, c);
        }
        if done {
            proof {
                let k = node_views(c.children@);
                assert(node_view(c) == set_children(node_view(c0), k));
                assert(v0.subrange(0, i as int) + (seq![set_children(rest[0], k)] + rest.drop_first())
                    =~= v0.update(i as int, node_view(c)));
            }
            return true;
        }
        proof {
            assert(node_view(c) == node_view(c0));
            assert(node_views(nodes@) =~= v0);
            lemma_node_views(nodes@);
            assert(v0.subrange(0, i as int) + seq![rest[0]] =~= v0.subrange(0, i + 1));
            match descend_remove(rest.drop_first(), tid@, with_children) {
                Some(r) => {
                    assert(v0.subrange(0, i as int) + (seq![rest[0]] + r) =~= v0.subrange(0, i + 1) + r);
                },
                None => {},
            }
        }
        i = i + 1;
    }
    proof {
        assert(v0.subrange(i as int, v0.len() as int) =~= Seq::<NodeV>::empty());
    }
    false
}

/// Remove the node with `target_id` from the tree, returning whether it
/// existed. Without `with_children` its children take its place, in order;
/// with it the whole subtree is dropped.
pub fn remove_node(nodes: &mut Vec<Node>, target_id: &str, with_children: bool) -> (found: bool)
    ensures
        match remove_spec(node_views(old(nodes)@), target_id@, with_children) {
            Some(v) => found && node_views(final(nodes)@) == v,
            None => !found && node_views(final(nodes)@) == node_views(old(nodes)@),
        },
{
    let tid = chars_of(target_id);
    remove_rec(nodes, tid.as_slice(), with_children)
}

/// The text of an optional name.
pub open spec fn opt_text(o: Option<&str>) -> Option<Seq<char>> {
    match o {
        Some(t) => Some(t@),
        None => None,
    }
}

/// The forest with `n` placed: as the last child of `parent`, else before
/// the node `before`, else after the node `after`, else at the end of the
/// top level; or the message refusing an unknown target.
pub open spec fn place_spec(
    ns: Seq<NodeV>,
    n: NodeV,
    parent: Option<Seq<char>>,
    before: Option<Seq<char>>,
    after: Option<Seq<char>>,
) -> Result<Seq<NodeV>, Seq<char>> {
    match (parent, before, after) {
        (Some(p), _, _) => match insert_child_spec(ns, p, n) {
            Some(v) => Ok(v),
            None => Err("unknown parent node id '"@ + p + "'"@),
        },
        (None, Some(t), _) => match insert_sibling_spec(ns, t, n, false) {
            Some(v) => Ok(v),
            None => Err("unknown node id '"@ + t + "'"@),
        },
        (None, None, Some(t)) => match insert_sibling_spec(ns, t, n, true) {
            Some(v) => Ok(v),
            None => Err("unknown node id '"@ + t + "'"@),
        },
        (None, None, None) => Ok(ns.push(n)),
    }
}

/// Place `node` in `nodes`: as the last child of `parent`, before or after
/// the node `before` / `after`, or at the end of the top level when none is
/// given (the first given wins). An unknown target is refused and leaves
/// `nodes` unchanged.
pub fn place_node(
    nodes: &mut Vec<Node>,
    node: Node,
    parent: Option<&str>,
    before: Option<&str>,
    after: Option<&str>,
) -> (r: Result<(), String>)
    ensures
        match place_spec(node_views(old(nodes)@), node_view(node), opt_text(parent), opt_text(before), opt_text(after)) {
            Ok(v) => r is Ok && node_views(final(nodes)@) == v,
            Err(m) => r matches Err(e) && e@ == m && node_views(final(nodes)@) == node_views(old(nodes)@),
        },
{
    if let Some(p) = parent {
        if !insert_as_child(nodes, p, node) {
            let mut m = chars_of("unknown parent node id '");
            crate::text::push_str(&mut m, p);
            crate::text::push_str(&mut m, "'");
            return Err(crate::text::string_of(m.as_slice()));
        }
    } else if let Some(t) = before {
        if !insert_sibling(nodes, t, node, false) {
            let mut m = chars_of("unknown node id '");
            crate::text::push_str(&mut m, t);
            crate::text::push_str(&mut m, "'");
            return Err(crate::text::string_of(m.as_slice()));
        }
    } else if let Some(t) = after {
        if !insert_sibling(nodes, t, node, true) {
            let mut m = chars_of("unknown node id '");
            crate::text::push_str(&mut m, t);
            crate::text::push_str(&mut m, "'");
            return Err(crate::text::string_of(m.as_slice()));
        }
    } else {
        let ghost before_push = nodes@;
        nodes.push(node);
        proof {
            assert(nodes@ =~= before_push.insert(before_push.len() as int, node));
            lemma_views_insert(before_push, before_push.len() as int, node);
            lemma_node_views(before_push);
            assert(node_views(before_push).insert(before_push.len() as int, node_view(node)) =~= node_views(before_push).push(node_view(node)));
        }
    }
    Ok(())
}

// ---------------------------------------------------------------------------
// Laws.
// ---------------------------------------------------------------------------

/// No node of the forest has id `id`.
pub open spec fn absent(ns: Seq<NodeV>, id: Seq<char>) -> bool {
    !ids_of(ns).contains(id)
}

/// An id absent from a forest is absent from its first node, its children
/// and the rest.
proof fn lemma_absent_parts(ns: Seq<NodeV>, id: Seq<char>)
    requires
        ns.len() > 0,
        absent(ns, id),
    ensures
        ns[0].id != id,
        absent(ns[0].children, id),
        absent(ns.drop_first(), id),
{
    let a = ids_of(ns[0].children);
    let b = ids_of(ns.drop_first());
    assert(ids_of(ns) == seq![ns[0].id] + a + b);
    assert(ids_of(ns)[0] == ns[0].id);
    if a.contains(id) {
        let j = choose|j: int| 0 <= j < a.len() && a[j] == id;
        assert(ids_of(ns)[1 + j] == id);
    }
    if b.contains(id) {
        let j = choose|j: int| 0 <= j < b.len() && b[j] == id;
        assert(ids_of(ns)[1 + a.len() + j] == id);
    }
}

/// A search of a forest without `id` finds nothing.
proof fn lemma_find_absent(ns: Seq<NodeV>, id: Seq<char>)
    requires
        absent(ns, id),
    ensures
        find_spec(ns, id) is None,
    decreases ns,
{
    if ns.len() > 0 {
        lemma_absent_parts(ns, id);
        lemma_find_absent(ns[0].children, id);
        lemma_find_absent(ns.drop_first(), id);
    }
}

/// Searching two forests side by side searches the first, then the second.
proof fn lemma_find_cat(a: Seq<NodeV>, b: Seq<NodeV>, id: Seq<char>)
    ensures
        find_spec(a + b, id) == match find_spec(a, id) {
            Some(x) => Some(x),
            None => find_spec(b, id),
        },
    decreases a.len(),
{
    if a.len() > 0 {
        assert((a + b)[0] == a[0]);
        assert((a + b).drop_first() =~= a.drop_first() + b);
        lemma_find_cat(a.drop_first(), b, id);
    } else {
        assert(a + b =~= b);
    }
}

/// Replacing a node of a forest without `id` by one whose subtree finds
/// `n` makes the search find `n`.
proof fn lemma_find_update(ns: Seq<NodeV>, i: int, x: NodeV, id: Seq<char>, n: NodeV)
    requires
        0 <= i < ns.len(),
        absent(ns, id),
        x.id != id,
        find_spec(x.children, id) == Some(n),
    ensures
        find_spec(ns.update(i, x), id) == Some(n),
    decreases i,
{
    let r = ns.update(i, x);
    lemma_absent_parts(ns, id);
    if i == 0 {
        assert(r[0] == x);
    } else {
        assert(r[0] == ns[0]);
        lemma_find_absent(ns[0].children, id);
        assert(r.drop_first() =~= ns.drop_first().update(i - 1, x));
        lemma_find_update(ns.drop_first(), i - 1, x, id, n);
    }
}

/// The level search finds a node of the level with that id.
proof fn lemma_level_index(ns: Seq<NodeV>, id: Seq<char>)
    ensures
        match level_index(ns, id) {
            Some(i) => 0 <= i < ns.len() && ns[i].id == id,
            None => true,
        },
    decreases ns.len(),
{
    if ns.len() > 0 && ns[0].id != id {
        lemma_level_index(ns.drop_first(), id);
    }
}

proof fn lemma_child_found(ns: Seq<NodeV>, pid: Seq<char>, n: NodeV)
    requires
        absent(ns, n.id),
        insert_child_spec(ns, pid, n) is Some,
    ensures
        find_spec(insert_child_spec(ns, pid, n).unwrap(), n.id) == Some(n),
    decreases ns, 1int,
{
    lemma_level_index(ns, pid);
    match level_index(ns, pid) {
        Some(i) => {
            let x = set_children(ns[i], ns[i].children.push(n));
            lemma_absent_all(ns, n.id, i);
            assert(x.id != n.id);
            lemma_absent_all_children(ns, n.id, i);
            lemma_find_cat(ns[i].children, seq![n], n.id);
            lemma_find_absent(ns[i].children, n.id);
            assert(seq![n][0] == n);
            assert(ns[i].children.push(n) =~= ns[i].children + seq![n]);
            lemma_find_update(ns, i, x, n.id, n);
        },
        None => {
            lemma_descend_found(ns, pid, n);
        },
    }
}

proof fn lemma_descend_found(ns: Seq<NodeV>, pid: Seq<char>, n: NodeV)
    requires
        absent(ns, n.id),
        descend_child(ns, pid, n) is Some,
    ensures
        find_spec(descend_child(ns, pid, n).unwrap(), n.id) == Some(n),
    decreases ns, 0int,
{
    lemma_absent_parts(ns, n.id);
    match insert_child_spec(ns[0].children, pid, n) {
        Some(k) => {
            lemma_child_found(ns[0].children, pid, n);
            let r = seq![set_children(ns[0], k)] + ns.drop_first();
            assert(r[0] == set_children(ns[0], k));
        },
        None => {
            lemma_descend_found(ns.drop_first(), pid, n);
            let r2 = descend_child(ns.drop_first(), pid, n).unwrap();
            let r = seq![ns[0]] + r2;
            assert(r[0] == ns[0]);
            assert(r.drop_first() =~= r2);
            lemma_find_absent(ns[0].children, n.id);
        },
    }
}

/// Every node of a forest without `id` has another id.
proof fn lemma_absent_all(ns: Seq<NodeV>, id: Seq<char>, i: int)
    requires
        absent(ns, id),
        0 <= i < ns.len(),
    ensures
        ns[i].id != id,
    decreases i,
{
    lemma_absent_parts(ns, id);
    if i > 0 {
        lemma_absent_all(ns.drop_first(), id, i - 1);
    }
}

/// The children of every node of a forest without `id` lack it too.
proof fn lemma_absent_all_children(ns: Seq<NodeV>, id: Seq<char>, i: int)
    requires
        absent(ns, id),
        0 <= i < ns.len(),
    ensures
        absent(ns[i].children, id),
    decreases i,
{
    lemma_absent_parts(ns, id);
    if i > 0 {
        lemma_absent_all_children(ns.drop_first(), id, i - 1);
    }
}

/// Adding a node whose id is new to the tree as the child of an existing
/// node makes a search by that id find the added node.
pub proof fn law_find_after_insert_child(ns: Seq<NodeV>, pid: Seq<char>, n: NodeV)
    requires
        absent(ns, n.id),
        insert_child_spec(ns, pid, n) is Some,
    ensures
        find_spec(insert_child_spec(ns, pid, n).unwrap(), n.id) == Some(n),
{
    lemma_child_found(ns, pid, n);
}

/// The ids of two forests side by side.
proof fn lemma_ids_cat(a: Seq<NodeV>, b: Seq<NodeV>)
    ensures
        ids_of(a + b) == ids_of(a) + ids_of(b),
    decreases a.len(),
{
    if a.len() == 0 {
        assert(a + b =~= b);
    } else {
        assert((a + b)[0] == a[0]);
        assert((a + b).drop_first() =~= a.drop_first() + b);
        lemma_ids_cat(a.drop_first(), b);
    }
}

/// The ids of a forest around its node `i`.
proof fn lemma_ids_around(ns: Seq<NodeV>, i: int)
    requires
        0 <= i < ns.len(),
    ensures
        ids_of(ns) == ids_of(ns.subrange(0, i)) + seq![ns[i].id] + ids_of(ns[i].children) + ids_of(
            ns.subrange(i + 1, ns.len() as int),
        ),
{
    let a = ns.subrange(0, i);
    let b = ns.subrange(i + 1, ns.len() as int);
    let one = seq![ns[i]];
    assert(ns =~= a + (one + b));
    lemma_ids_cat(a, one + b);
    lemma_ids_cat(one, b);
    assert(one[0] == ns[i]);
    assert(one.drop_first() =~= Seq::<NodeV>::empty());
    assert(ids_of(one.drop_first()) =~= Seq::<Seq<char>>::empty());
    assert(ids_of(one) =~= seq![ns[i].id] + ids_of(ns[i].children));
}

/// Where a removal cuts the document-order ids: from `p`, the position of
/// the removed node, up to `q`, the end of its subtree.
proof fn lemma_remove_ids(ns: Seq<NodeV>, tid: Seq<char>, wc: bool) -> (pq: (int, int))
    requires
        remove_spec(ns, tid, wc) is Some,
    ensures
        0 <= pq.0 < pq.1 <= ids_of(ns).len(),
        ids_of(ns)[pq.0] == tid,
        wc ==> ids_of(remove_spec(ns, tid, wc).unwrap()) == ids_of(ns).subrange(0, pq.0) + ids_of(ns).subrange(
            pq.1,
            ids_of(ns).len() as int,
        ),
        !wc ==> ids_of(remove_spec(ns, tid, wc).unwrap()) == ids_of(ns).remove(pq.0),
    decreases ns, 1int,
{
    lemma_level_index(ns, tid);
    match level_index(ns, tid) {
        Some(i) => {
            let a = ns.subrange(0, i);
            let b = ns.subrange(i + 1, ns.len() as int);
            let ch = ns[i].children;
            lemma_ids_around(ns, i);
            let ia = ids_of(a);
            let ic = ids_of(ch);
            let ib = ids_of(b);
            let all = ids_of(ns);
            assert(all == ia + seq![tid] + ic + ib);
            let p = ia.len() as int;
            let q = p + 1 + ic.len();
            assert(all[p] == tid);
            if wc {
                assert(ns.remove(i) =~= a + b);
                lemma_ids_cat(a, b);
                assert(all.subrange(0, p) =~= ia);
                assert(all.subrange(q, all.len() as int) =~= ib);
            } else {
                lemma_ids_cat(a, ch);
                lemma_ids_cat(a + ch, b);
                assert(all.remove(p) =~= ia + ic + ib);
            }
            (p, q)
        },
        None => lemma_descend_remove_ids(ns, tid, wc),
    }
}

proof fn lemma_descend_remove_ids(ns: Seq<NodeV>, tid: Seq<char>, wc: bool) -> (pq: (int, int))
    requires
        descend_remove(ns, tid, wc) is Some,
    ensures
        0 <= pq.0 < pq.1 <= ids_of(ns).len(),
        ids_of(ns)[pq.0] == tid,
        wc ==> ids_of(descend_remove(ns, tid, wc).unwrap()) == ids_of(ns).subrange(0, pq.0) + ids_of(ns).subrange(
            pq.1,
            ids_of(ns).len() as int,
        ),
        !wc ==> ids_of(descend_remove(ns, tid, wc).unwrap()) == ids_of(ns).remove(pq.0),
    decreases ns, 0int,
{
    let all = ids_of(ns);
    let ch = ns[0].children;
    let rest = ns.drop_first();
    assert(all == seq![ns[0].id] + ids_of(ch) + ids_of(rest));
    match remove_spec(ch, tid, wc) {
        Some(k) => {
            let (p0, q0) = lemma_remove_ids(ch, tid, wc);
            let r = seq![set_children(ns[0], k)] + rest;
            assert(r[0] == set_children(ns[0], k));
            assert(r.drop_first() =~= rest);
            assert(ids_of(r) == seq![ns[0].id] + ids_of(k) + ids_of(rest));
            let ic = ids_of(ch);
            let p = 1 + p0;
            let q = 1 + q0;
            assert(all[p] == ic[p0]);
            if wc {
                assert(ids_of(r) =~= all.subrange(0, p) + all.subrange(q, all.len() as int));
            } else {
                assert(ids_of(r) =~= all.remove(p));
            }
            (p, q)
        },
        None => {
            let (p0, q0) = lemma_descend_remove_ids(rest, tid, wc);
            let r2 = descend_remove(rest, tid, wc).unwrap();
            let r = seq![ns[0]] + r2;
            assert(r[0] == ns[0]);
            assert(r.drop_first() =~= r2);
            assert(ids_of(r) == seq![ns[0].id] + ids_of(ch) + ids_of(r2));
            let ir = ids_of(rest);
            let off: int = (1 + ids_of(ch).len()) as int;
            let p = off + p0;
            let q = off + q0;
            assert(all[p] == ir[p0]);
            if wc {
                assert(ids_of(r) =~= all.subrange(0, p) + all.subrange(q, all.len() as int));
            } else {
                assert(ids_of(r) =~= all.remove(p));
            }
            (p, q)
        },
    }
}

/// An id absent from a forest is absent from its first `j` nodes.
proof fn lemma_absent_prefix(ns: Seq<NodeV>, id: Seq<char>, j: int)
    requires
        absent(ns, id),
        0 <= j <= ns.len(),
    ensures
        absent(ns.subrange(0, j), id),
{
    let a = ns.subrange(0, j);
    let b = ns.subrange(j, ns.len() as int);
    assert(ns =~= a + b);
    lemma_ids_cat(a, b);
    if ids_of(a).contains(id) {
        let k = choose|k: int| 0 <= k < ids_of(a).len() && ids_of(a)[k] == id;
        assert((ids_of(a) + ids_of(b))[k] == id);
    }
}

/// Inserting `n` at position `j` of a forest without its id makes the
/// search find it.
proof fn lemma_find_inserted(ns: Seq<NodeV>, j: int, n: NodeV)
    requires
        absent(ns, n.id),
        0 <= j <= ns.len(),
    ensures
        find_spec(ns.insert(j, n), n.id) == Some(n),
{
    let a = ns.subrange(0, j);
    let rest = seq![n] + ns.subrange(j, ns.len() as int);
    assert(ns.insert(j, n) =~= a + rest);
    lemma_absent_prefix(ns, n.id, j);
    lemma_find_absent(a, n.id);
    lemma_find_cat(a, rest, n.id);
    assert(rest[0] == n);
}

proof fn lemma_sibling_found(ns: Seq<NodeV>, tid: Seq<char>, n: NodeV, after: bool)
    requires
        absent(ns, n.id),
        insert_sibling_spec(ns, tid, n, after) is Some,
    ensures
        find_spec(insert_sibling_spec(ns, tid, n, after).unwrap(), n.id) == Some(n),
    decreases ns, 1int,
{
    match level_index(ns, tid) {
        Some(i) => {
            lemma_find_inserted(ns, if after { i + 1 } else { i }, n);
        },
        None => {
            lemma_descend_sibling_found(ns, tid, n, after);
        },
    }
}

proof fn lemma_descend_sibling_found(ns: Seq<NodeV>, tid: Seq<char>, n: NodeV, after: bool)
    requires
        absent(ns, n.id),
        descend_sibling(ns, tid, n, after) is Some,
    ensures
        find_spec(descend_sibling(ns, tid, n, after).unwrap(), n.id) == Some(n),
    decreases ns, 0int,
{
    lemma_absent_parts(ns, n.id);
    match insert_sibling_spec(ns[0].children, tid, n, after) {
        Some(k) => {
            lemma_sibling_found(ns[0].children, tid, n, after);
            let r = seq![set_children(ns[0], k)] + ns.drop_first();
            assert(r[0] == set_children(ns[0], k));
        },
        None => {
            lemma_descend_sibling_found(ns.drop_first(), tid, n, after);
            let r2 = descend_sibling(ns.drop_first(), tid, n, after).unwrap();
            let r = seq![ns[0]] + r2;
            assert(r[0] == ns[0]);
            assert(r.drop_first() =~= r2);
            lemma_find_absent(ns[0].children, n.id);
        },
    }
}

/// Placing a node whose id is new to the tree, wherever the placement
/// succeeds, makes a search by that id find the placed node.
pub proof fn law_find_after_place(
    ns: Seq<NodeV>,
    n: NodeV,
    parent: Option<Seq<char>>,
    before: Option<Seq<char>>,
    after: Option<Seq<char>>,
)
    requires
        absent(ns, n.id),
        place_spec(ns, n, parent, before, after) is Ok,
    ensures
        find_spec(place_spec(ns, n, parent, before, after)->Ok_0, n.id) == Some(n),
{
    match (parent, before, after) {
        (Some(p), _, _) => {
            lemma_child_found(ns, p, n);
        },
        (None, Some(t), _) => {
            lemma_sibling_found(ns, t, n, false);
        },
        (None, None, Some(t)) => {
            lemma_sibling_found(ns, t, n, true);
        },
        (None, None, None) => {
            assert(ns.push(n) =~= ns.insert(ns.len() as int, n));
            lemma_find_inserted(ns, ns.len() as int, n);
        },
    }
}

/// The ids of a forest with `ids` put in at position `p`.
pub open spec fn ids_with(all: Seq<Seq<char>>, p: int, ids: Seq<Seq<char>>) -> Seq<Seq<char>> {
    all.subrange(0, p) + ids + all.subrange(p, all.len() as int)
}

/// Inserting a node into a level puts its subtree's ids in at the position
/// of the level's node `j` (or at the end).
proof fn lemma_insert_level_ids(ns: Seq<NodeV>, j: int, n: NodeV) -> (p: int)
    requires
        0 <= j <= ns.len(),
    ensures
        0 <= p <= ids_of(ns).len(),
        ids_of(ns.insert(j, n)) == ids_with(ids_of(ns), p, ids_of(seq![n])),
        j < ns.len() ==> p < ids_of(ns).len() && ids_of(ns)[p] == ns[j].id,
        j == ns.len() ==> p == ids_of(ns).len(),
{
    let a = ns.subrange(0, j);
    let b = ns.subrange(j, ns.len() as int);
    let one = seq![n];
    assert(ns =~= a + b);
    assert(ns.insert(j, n) =~= a + (one + b));
    lemma_ids_cat(a, b);
    lemma_ids_cat(a, one + b);
    lemma_ids_cat(one, b);
    let all = ids_of(ns);
    let p = ids_of(a).len() as int;
    assert(all.subrange(0, p) =~= ids_of(a));
    assert(all.subrange(p, all.len() as int) =~= ids_of(b));
    if j < ns.len() {
        assert(b[0] == ns[j]);
        assert(ids_of(b) == seq![b[0].id] + ids_of(b[0].children) + ids_of(b.drop_first()));
        assert(ids_of(b)[0] == ns[j].id);
        assert(all[p] == ids_of(b)[0]);
    }
    p
}

/// Where adding a child puts the new ids.
proof fn lemma_child_ids(ns: Seq<NodeV>, pid: Seq<char>, n: NodeV) -> (p: int)
    requires
        insert_child_spec(ns, pid, n) is Some,
    ensures
        0 <= p <= ids_of(ns).len(),
        ids_of(insert_child_spec(ns, pid, n).unwrap()) == ids_with(ids_of(ns), p, ids_of(seq![n])),
    decreases ns, 1int,
{
    lemma_level_index(ns, pid);
    match level_index(ns, pid) {
        Some(i) => {
            let x = set_children(ns[i], ns[i].children.push(n));
            let r = ns.update(i, x);
            lemma_ids_around(ns, i);
            lemma_ids_around(r, i);
            assert(r.subrange(0, i) =~= ns.subrange(0, i));
            assert(r.subrange(i + 1, r.len() as int) =~= ns.subrange(i + 1, ns.len() as int));
            assert(ns[i].children.push(n) =~= ns[i].children + seq![n]);
            lemma_ids_cat(ns[i].children, seq![n]);
            let all = ids_of(ns);
            let p: int = (ids_of(ns.subrange(0, i)).len() + 1 + ids_of(ns[i].children).len()) as int;
            assert(ids_of(r) =~= ids_with(all, p, ids_of(seq![n])));
            p
        },
        None => lemma_descend_child_ids(ns, pid, n),
    }
}

proof fn lemma_descend_child_ids(ns: Seq<NodeV>, pid: Seq<char>, n: NodeV) -> (p: int)
    requires
        descend_child(ns, pid, n) is Some,
    ensures
        0 <= p <= ids_of(ns).len(),
        ids_of(descend_child(ns, pid, n).unwrap()) == ids_with(ids_of(ns), p, ids_of(seq![n])),
    decreases ns, 0int,
{
    let all = ids_of(ns);
    let ch = ns[0].children;
    let rest = ns.drop_first();
    assert(all == seq![ns[0].id] + ids_of(ch) + ids_of(rest));
    match insert_child_spec(ch, pid, n) {
        Some(k) => {
            let p0 = lemma_child_ids(ch, pid, n);
            let r = seq![set_children(ns[0], k)] + rest;
            assert(r[0] == set_children(ns[0], k));
            assert(r.drop_first() =~= rest);
            assert(ids_of(r) == seq![ns[0].id] + ids_of(k) + ids_of(rest));
            assert(ids_of(r) =~= ids_with(all, 1 + p0, ids_of(seq![n])));
            1 + p0
        },
        None => {
            let p0 = lemma_descend_child_ids(rest, pid, n);
            let r2 = descend_child(rest, pid, n).unwrap();
            let r = seq![ns[0]] + r2;
            assert(r[0] == ns[0]);
            assert(r.drop_first() =~= r2);
            assert(ids_of(r) == seq![ns[0].id] + ids_of(ch) + ids_of(r2));
            let off: int = (1 + ids_of(ch).len()) as int;
            assert(ids_of(r) =~= ids_with(all, off + p0, ids_of(seq![n])));
            off + p0
        },
    }
}

/// Where adding a sibling puts the new ids; before a node, right at it.
proof fn lemma_sibling_ids(ns: Seq<NodeV>, tid: Seq<char>, n: NodeV, after: bool) -> (p: int)
    requires
        insert_sibling_spec(ns, tid, n, after) is Some,
    ensures
        0 <= p <= ids_of(ns).len(),
        ids_of(insert_sibling_spec(ns, tid, n, after).unwrap()) == ids_with(ids_of(ns), p, ids_of(seq![n])),
        !after ==> p < ids_of(ns).len() && ids_of(ns)[p] == tid,
    decreases ns, 1int,
{
    lemma_level_index(ns, tid);
    match level_index(ns, tid) {
        Some(i) => {
            let j = if after { i + 1 } else { i };
            let p = lemma_insert_level_ids(ns, j, n);
            p
        },
        None => lemma_descend_sibling_ids(ns, tid, n, after),
    }
}

proof fn lemma_descend_sibling_ids(ns: Seq<NodeV>, tid: Seq<char>, n: NodeV, after: bool) -> (p: int)
    requires
        descend_sibling(ns, tid, n, after) is Some,
    ensures
        0 <= p <= ids_of(ns).len(),
        ids_of(descend_sibling(ns, tid, n, after).unwrap()) == ids_with(ids_of(ns), p, ids_of(seq![n])),
        !after ==> p < ids_of(ns).len() && ids_of(ns)[p] == tid,
    decreases ns, 0int,
{
    let all = ids_of(ns);
    let ch = ns[0].children;
    let rest = ns.drop_first();
    assert(all == seq![ns[0].id] + ids_of(ch) + ids_of(rest));
    match insert_sibling_spec(ch, tid, n, after) {
        Some(k) => {
            let p0 = lemma_sibling_ids(ch, tid, n, after);
            let r = seq![set_children(ns[0], k)] + rest;
            assert(r[0] == set_children(ns[0], k));
            assert(r.drop_first() =~= rest);
            assert(ids_of(r) == seq![ns[0].id] + ids_of(k) + ids_of(rest));
            assert(ids_of(r) =~= ids_with(all, 1 + p0, ids_of(seq![n])));
            if !after {
                assert(all[1 + p0] == ids_of(ch)[p0]);
            }
            1 + p0
        },
        None => {
            let p0 = lemma_descend_sibling_ids(rest, tid, n, after);
            let r2 = descend_sibling(rest, tid, n, after).unwrap();
            let r = seq![ns[0]] + r2;
            assert(r[0] == ns[0]);
            assert(r.drop_first() =~= r2);
            assert(ids_of(r) == seq![ns[0].id] + ids_of(ch) + ids_of(r2));
            let off: int = (1 + ids_of(ch).len()) as int;
            assert(ids_of(r) =~= ids_with(all, off + p0, ids_of(seq![n])));
            if !after {
                assert(all[off + p0] == ids_of(rest)[p0]);
            }
            off + p0
        },
    }
}

/// Placing a node inserts exactly its subtree's ids into the document-order
/// ids and keeps every other id, in order: before a node, right where that
/// node's id stood; with no target, at the end.
pub proof fn law_place_inserts_only_the_node(
    ns: Seq<NodeV>,
    n: NodeV,
    parent: Option<Seq<char>>,
    before: Option<Seq<char>>,
    after: Option<Seq<char>>,
)
    requires
        place_spec(ns, n, parent, before, after) is Ok,
    ensures
        exists|p: int|
            0 <= p <= ids_of(ns).len() && ids_of(place_spec(ns, n, parent, before, after)->Ok_0) == #[trigger] ids_with(
                ids_of(ns),
                p,
                ids_of(seq![n]),
            ) && (parent is None && before is Some ==> p < ids_of(ns).len() && ids_of(ns)[p] == before->Some_0) && (
            parent is None && before is None && after is None ==> p == ids_of(ns).len()),
{
    let p = match (parent, before, after) {
        (Some(q), _, _) => lemma_child_ids(ns, q, n),
        (None, Some(t), _) => lemma_sibling_ids(ns, t, n, false),
        (None, None, Some(t)) => lemma_sibling_ids(ns, t, n, true),
        (None, None, None) => {
            assert(ns.push(n) =~= ns.insert(ns.len() as int, n));
            lemma_insert_level_ids(ns, ns.len() as int, n)
        },
    };
    assert(ids_with(ids_of(ns), p, ids_of(seq![n])) == ids_with(ids_of(ns), p, ids_of(seq![n])));
}

/// Cutting the run `p..q` out of a sequence without repeats drops the
/// element at `p` and keeps only elements the sequence had.
proof fn lemma_cut_unique(all: Seq<Seq<char>>, p: int, q: int)
    requires
        all.no_duplicates(),
        0 <= p < q <= all.len(),
    ensures
        !(all.subrange(0, p) + all.subrange(q, all.len() as int)).contains(all[p]),
        forall|x: Seq<char>| (all.subrange(0, p) + all.subrange(q, all.len() as int)).contains(x) ==> all.contains(x),
{
    let r = all.subrange(0, p) + all.subrange(q, all.len() as int);
    assert forall|k: int| 0 <= k < r.len() implies #[trigger] r[k] == (if k < p { all[k] } else { all[k - p + q] }) by {}
    if r.contains(all[p]) {
        let k = choose|k: int| 0 <= k < r.len() && r[k] == all[p];
        if k < p {
            assert(all[k] == all[p]);
        } else {
            assert(all[k - p + q] == all[p]);
        }
    }
    assert forall|x: Seq<char>| r.contains(x) implies all.contains(x) by {
        let k = choose|k: int| 0 <= k < r.len() && r[k] == x;
        if k < p {
            assert(all[k] == x);
        } else {
            assert(all[k - p + q] == x);
        }
    }
}

/// Removing the element at `p` of a sequence without repeats drops that
/// element and keeps every other one.
proof fn lemma_remove_unique(all: Seq<Seq<char>>, p: int)
    requires
        all.no_duplicates(),
        0 <= p < all.len(),
    ensures
        !all.remove(p).contains(all[p]),
        forall|x: Seq<char>| x != all[p] ==> (all.remove(p).contains(x) <==> all.contains(x)),
{
    let r = all.remove(p);
    if r.contains(all[p]) {
        let k = choose|k: int| 0 <= k < r.len() && r[k] == all[p];
        if k < p {
            assert(all[k] == all[p]);
        } else {
            assert(all[k + 1] == all[p]);
        }
    }
    assert forall|x: Seq<char>| x != all[p] implies (r.contains(x) <==> all.contains(x)) by {
        if r.contains(x) {
            let k = choose|k: int| 0 <= k < r.len() && r[k] == x;
            if k < p {
                assert(all[k] == x);
            } else {
                assert(all[k + 1] == x);
            }
        }
        if all.contains(x) {
            let k = choose|k: int| 0 <= k < all.len() && all[k] == x;
            if k < p {
                assert(r[k] == x);
            } else {
                assert(k != p);
                assert(r[k - 1] == x);
            }
        }
    }
}

/// In a tree whose ids are unique, removing a node leaves no node with its
/// id; keeping its children, every other id stays; dropping its subtree,
/// no id is added.
pub proof fn law_remove_unique_ids(ns: Seq<NodeV>, tid: Seq<char>, with_children: bool)
    requires
        ids_of(ns).no_duplicates(),
        remove_spec(ns, tid, with_children) is Some,
    ensures
        !ids_of(remove_spec(ns, tid, with_children).unwrap()).contains(tid),
        !with_children ==> forall|x: Seq<char>|
            x != tid ==> (ids_of(remove_spec(ns, tid, with_children).unwrap()).contains(x) <==> ids_of(ns).contains(x)),
        with_children ==> forall|x: Seq<char>|
            ids_of(remove_spec(ns, tid, with_children).unwrap()).contains(x) ==> ids_of(ns).contains(x),
{
    let (p, q) = lemma_remove_ids(ns, tid, with_children);
    if with_children {
        lemma_cut_unique(ids_of(ns), p, q);
    } else {
        lemma_remove_unique(ids_of(ns), p);
    }
}

/// Removing a node takes out that node and nothing else: with its
/// subtree, one run of the document-order ids that starts at the node goes;
/// keeping its children, only the node's own id goes. The other ids stay,
/// in the same order.
pub proof fn law_remove_takes_out_node(ns: Seq<NodeV>, tid: Seq<char>, with_children: bool)
    requires
        remove_spec(ns, tid, with_children) is Some,
    ensures
        with_children ==> exists|p: int, q: int|
            0 <= p < q <= ids_of(ns).len() && ids_of(ns)[p] == tid && ids_of(
                remove_spec(ns, tid, with_children).unwrap(),
            ) == #[trigger] ids_of(ns).subrange(0, p) + #[trigger] ids_of(ns).subrange(q, ids_of(ns).len() as int),
        !with_children ==> exists|p: int|
            0 <= p < ids_of(ns).len() && ids_of(ns)[p] == tid && ids_of(remove_spec(ns, tid, with_children).unwrap())
                == #[trigger] ids_of(ns).remove(p),
{
    let (p, q) = lemma_remove_ids(ns, tid, with_children);
    if with_children {
        assert(ids_of(ns).subrange(0, p) == ids_of(ns).subrange(0, p));
        assert(ids_of(ns).subrange(q, ids_of(ns).len() as int) == ids_of(ns).subrange(q, ids_of(ns).len() as int));
    } else {
        assert(ids_of(ns).remove(p) == ids_of(ns).remove(p));
    }
}


// ---------------------------------------------------------------------------
// Setting a node's input.
// ---------------------------------------------------------------------------

/// `n` with the input `key` set to `v`.
pub open spec fn with_input(n: NodeV, key: Seq<char>, v: (InputKind, JsonV)) -> NodeV {
    NodeV { inputs: map_insert(n.inputs, key, v), ..n }
}

/// The forest with the input `key` of the node `id` (the first in document
/// order) set to `v`, or `None` when no node has that id.
pub open spec fn set_input_spec(ns: Seq<NodeV>, id: Seq<char>, key: Seq<char>, v: (InputKind, JsonV)) -> Option<Seq<NodeV>>
    decreases ns,
{
    if ns.len() == 0 {
        None
    } else if ns[0].id == id {
        Some(ns.update(0, with_input(ns[0], key, v)))
    } else {
        match set_input_spec(ns[0].children, id, key, v) {
            Some(k) => Some(ns.update(0, set_children(ns[0], k))),
            None => lift(seq![ns[0]], set_input_spec(ns.drop_first(), id, key, v)),
        }
    }
}

/// Set the input `key` of the node `id` (the first in document order) to
/// `value`; hand the key and value back when no node has that id.
pub fn set_node_input(nodes: &mut Vec<Node>, id: &[char], key: String, value: InputValue) -> (r: Option<(String, InputValue)>)
    ensures
        match set_input_spec(node_views(old(nodes)@), id@, key@, value@) {
            Some(v) => r is None && node_views(final(nodes)@) == v,
            None => r == Some((key, value)) && node_views(final(nodes)@) == node_views(old(nodes)@),
        },
    decreases old(nodes)@,
{
    let ghost v0 = node_views(nodes@);
    let ghost kv = key@;
    let ghost vv = value@;
    proof {
        lemma_node_views(nodes@);
        assert(v0.subrange(0, 0) =~= Seq::<NodeV>::empty());
        assert(v0.subrange(0, v0.len() as int) =~= v0);
        assert(lift(Seq::<NodeV>::empty(), set_input_spec(v0, id@, kv, vv)) == set_input_spec(v0, id@, kv, vv)) by {
            match set_input_spec(v0, id@, kv, vv) {
                Some(r) => { assert(Seq::<NodeV>::empty() + r =~= r); },
                None => {},
            }
        }
    }
    let mut pending = (key, value);
    let mut i: usize = 0;
    while i < nodes.len()
        invariant
            i <= nodes@.len(),
            nodes@.len() == old(nodes)@.len(),
            forall|k: int| i <= k < nodes@.len() ==> #[trigger] nodes@[k] == old(nodes)@[k],
            v0 == node_views(old(nodes)@),
            node_views(nodes@) == v0,
            v0.len() == nodes@.len(),
            forall|k: int| 0 <= k < nodes@.len() ==> #[trigger] v0[k] == node_view(nodes@[k]),
            pending.0@ == kv,
            pending.1@ == vv,
            pending == (key, value),
            set_input_spec(v0, id@, kv, vv) == lift(
                v0.subrange(0, i as int),
                set_input_spec(v0.subrange(i as int, v0.len() as int), id@, kv, vv),
            ),
        decreases nodes@.len() - i,
    {
        let ghost rest = v0.subrange(i as int, v0.len() as int);
        let ghost cur = nodes@;
        let mut c = nodes.remove(i);
        let ghost c0 = c;
        proof {
            assert(c0 == old(nodes)@[i as int]);
            assert(decreases_to!(old(nodes)@ => old(nodes)@[i as int]));
            assert(decreases_to!(old(nodes)@[i as int] => old(nodes)@[i as int].children));
            assert(rest[0] == node_view(c0));
            assert(rest.drop_first() =~= v0.subrange(i + 1, v0.len() as int));
        }
        let cid = chars_of(c.id.0.as_str());
        if chars_eq(cid.as_slice(), id) {
            let (k, val) = pending;
            proof {
                assert(c.inputs@ == c0.inputs@);
                assert(input_entries(c.inputs@) =~= entries(c.inputs@));
            }
            insert_input(&mut c.inputs, k, val);
            proof {
                assert(input_entries(c.inputs@) =~= entries(c.inputs@));
                assert(node_view(c) == with_input(node_view(c0), kv, vv));
            }
            nodes.insert(i, c);
            proof {
                assert(nodes@ =~= cur.update(i as int, c));
                lemma_views_update(cur, i as int, c);
                assert(v0.subrange(0, i as int) + rest.update(0, with_input(rest[0], kv, vv)) =~= v0.update(
                    i as int,
                    node_view(c),
                ));
            }
            return None;
        }
        let back = set_node_input(&mut c.children, id, pending.0, pending.1);
        nodes.insert(i, c);
        match back {
            None => {
                proof {
                    let k = node_views(c.children@);
                    assert(node_view(c) == set_children(node_view(c0), k));
                    assert(nodes@ =~= cur.update(i as int, c));
                    lemma_views_update(cur, i as int, c);
                    assert(v0.subrange(0, i as int) + rest.update(0, set_children(rest[0], k)) =~= v0.update(
                        i as int,
                        node_view(c),
                    ));
                }
                return None;
            },
            Some(p) => {
                proof {
                    assert(node_view(c) == node_view(c0));
                    assert(nodes@ =~= cur.update(i as int, c));
                    lemma_views_update(cur, i as int, c);
                    assert(node_views(nodes@) =~= v0);
                    lemma_node_views(nodes@);
                    assert(v0.subrange(0, i as int) + seq![rest[0]] =~= v0.subrange(0, i + 1));
                    match set_input_spec(rest.drop_first(), id@, kv, vv) {
                        Some(r) => {
                            assert(v0.subrange(0, i as int) + (seq![rest[0]] + r) =~= v0.subrange(0, i + 1) + r);
                        },
                        None => {},
                    }
                }
                pending = p;
            },
        }
        i = i + 1;
    }
    proof {
        assert(v0.subrange(i as int, v0.len() as int) =~= Seq::<NodeV>::empty());
    }
    Some(pending)
}

/// Reading back a set input: setting the input `key` of the node `id`
/// succeeds exactly when a node has that id, and afterwards the node found
/// by that id is the one found before, with `key` set to `v`.
pub proof fn law_find_after_set(ns: Seq<NodeV>, id: Seq<char>, key: Seq<char>, v: (InputKind, JsonV))
    ensures
        set_input_spec(ns, id, key, v) is Some <==> find_spec(ns, id) is Some,
        match set_input_spec(ns, id, key, v) {
            Some(r) => find_spec(r, id) == Some(with_input(find_spec(ns, id)->Some_0, key, v)),
            None => true,
        },
    decreases ns,
{
    if ns.len() == 0 {
    } else if ns[0].id == id {
        let r = ns.update(0, with_input(ns[0], key, v));
        assert(r[0] == with_input(ns[0], key, v));
    } else {
        law_find_after_set(ns[0].children, id, key, v);
        match set_input_spec(ns[0].children, id, key, v) {
            Some(k) => {
                let r = ns.update(0, set_children(ns[0], k));
                assert(r[0] == set_children(ns[0], k));
            },
            None => {
                law_find_after_set(ns.drop_first(), id, key, v);
                match set_input_spec(ns.drop_first(), id, key, v) {
                    Some(t) => {
                        let r = seq![ns[0]] + t;
                        assert(r[0] == ns[0]);
                        assert(r.drop_first() =~= t);
                    },
                    None => {},
                }
            },
        }
    }
}

} // verus!
