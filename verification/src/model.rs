//! Shared domain types for the document model.
//!
//! Documents are trees of nodes; each node invokes a component with typed
//! inputs. Node ids are stable `{type}-{4hex}` strings that survive reorders.
use vstd::prelude::*;

use crate::text::{chars_eq, chars_of, push_all, push_str, string_of};

verus! {

/// The kind of a typed component input.
#[derive(Debug, Clone, Copy, PartialEq, Eq, Structural)]
pub enum InputKind {
    String,
    Number,
    Boolean,
    Color,
    /// Markdown content, converted to Typst at compose time.
    Content,
    /// Image reference, embedded into the fat file.
    Image,
}

/// The lowercase name of a kind, as written in schemas and JSON.
pub open spec fn kind_name(k: InputKind) -> Seq<char> {
    match k {
        InputKind::String => "string"@,
        InputKind::Number => "number"@,
        InputKind::Boolean => "boolean"@,
        InputKind::Color => "color"@,
        InputKind::Content => "content"@,
        InputKind::Image => "image"@,
    }
}

/// The name of a kind as `Debug` prints it.
pub open spec fn kind_debug_name(k: InputKind) -> Seq<char> {
    match k {
        InputKind::String => "String"@,
        InputKind::Number => "Number"@,
        InputKind::Boolean => "Boolean"@,
        InputKind::Color => "Color"@,
        InputKind::Content => "Content"@,
        InputKind::Image => "Image"@,
    }
}

impl InputKind {
    /// The lowercase name of this kind.
    pub fn name(&self) -> (s: &'static str)
        ensures
            s@ == kind_name(*self),
    {
        match self {
            InputKind::String => "string",
            InputKind::Number => "number",
            InputKind::Boolean => "boolean",
            InputKind::Color => "color",
            InputKind::Content => "content",
            InputKind::Image => "image",
        }
    }

    /// The name of this kind as `Debug` prints it.
    pub fn debug_name(&self) -> (s: &'static str)
        ensures
            s@ == kind_debug_name(*self),
    {
        match self {
            InputKind::String => "String",
            InputKind::Number => "Number",
            InputKind::Boolean => "Boolean",
            InputKind::Color => "Color",
            InputKind::Content => "Content",
            InputKind::Image => "Image",
        }
    }
}

/// A JSON value as the document model stores it. Numbers keep their JSON
/// text.
#[derive(Debug, PartialEq)]
pub enum JsonValue {
    Null,
    Bool(bool),
    Number(String),
    String(String),
    Array(Vec<JsonValue>),
    Object(Vec<(String, JsonValue)>),
}

/// A JSON value as a mathematical object.
pub enum JsonV {
    Null,
    Bool(bool),
    Number(Seq<char>),
    String(Seq<char>),
    Array(Seq<JsonV>),
    Object(Seq<(Seq<char>, JsonV)>),
}

/// The mathematical value a [`JsonValue`] holds.
pub open spec fn json_view(v: JsonValue) -> JsonV
    decreases v, 2int,
{
    match v {
        JsonValue::Null => JsonV::Null,
        JsonValue::Bool(b) => JsonV::Bool(b),
        JsonValue::Number(n) => JsonV::Number(n@),
        JsonValue::String(s) => JsonV::String(s@),
        JsonValue::Array(a) => JsonV::Array(json_views(a@)),
        JsonValue::Object(o) => JsonV::Object(json_fields(o@)),
    }
}

/// The values of a JSON array.
pub open spec fn json_views(a: Seq<JsonValue>) -> Seq<JsonV>
    decreases a, 0int,
{
    if a.len() == 0 {
        seq![]
    } else {
        seq![json_view(a[0])] + json_views(a.drop_first())
    }
}

/// The fields of a JSON object.
pub open spec fn json_fields(o: Seq<(String, JsonValue)>) -> Seq<(Seq<char>, JsonV)>
    decreases o, 0int,
{
    if o.len() == 0 {
        seq![]
    } else {
        seq![(o[0].0@, json_view(o[0].1))] + json_fields(o.drop_first())
    }
}

/// A single typed input value attached to a node.
#[derive(Debug, PartialEq)]
pub struct InputValue {
    pub kind: InputKind,
    /// Raw value as authored; interpretation depends on `kind`.
    pub value: JsonValue,
}

/// The kind and value of an input, as mathematical objects.
pub open spec fn input_view(i: InputValue) -> (InputKind, JsonV) {
    (i.kind, json_view(i.value))
}

impl View for InputValue {
    type V = (InputKind, JsonV);

    open spec fn view(&self) -> (InputKind, JsonV) {
        input_view(*self)
    }
}

/// A stable node identifier of the form `{type}-{4hex}`, e.g. `heading-1a2b`.
#[derive(Debug, Clone, PartialEq, Eq)]
pub struct NodeId(pub String);

impl NodeId {
    /// The identifier text.
    pub fn to_string(&self) -> (s: String)
        ensures
            s@ == self.0@,
    {
        let c = chars_of(self.0.as_str());
        string_of(c.as_slice())
    }
}

/// A node in the document tree: a component invocation with inputs and
/// children. `inputs` is kept sorted by name, each name once.
#[derive(Debug, PartialEq)]
pub struct Node {
    pub id: NodeId,
    /// Component name this node invokes.
    pub component: String,
    /// Named inputs supplied to the component.
    pub inputs: Vec<(String, InputValue)>,
    /// Child nodes, in document order.
    pub children: Vec<Node>,
}

/// A reference to an image embedded in the fat file's IMAGES section: the
/// original file name and the blake3 hash of its bytes.
#[derive(Debug, Clone, PartialEq, Eq)]
pub struct ImageRef {
    /// Original file name of the embedded image (e.g. `logo.png`).
    pub name: String,
    /// 64-character lowercase blake3 hex digest of the image bytes.
    pub hash: String,
}

/// A whole document: the root tree plus document-level inputs.
#[derive(Debug, PartialEq)]
pub struct Document {
    /// Template this document is bound to.
    pub template: String,
    /// Document-level inputs, sorted by name.
    pub inputs: Vec<(String, InputValue)>,
    /// Top-level nodes, in document order.
    pub nodes: Vec<Node>,
    /// Embedded image manifest.
    pub images: Vec<ImageRef>,
}

/// A node as a mathematical object.
pub struct NodeV {
    pub id: Seq<char>,
    pub component: Seq<char>,
    pub inputs: Seq<(Seq<char>, (InputKind, JsonV))>,
    pub children: Seq<NodeV>,
}

/// The input list of a node as names and values.
pub open spec fn input_entries(m: Seq<(String, InputValue)>) -> Seq<(Seq<char>, (InputKind, JsonV))> {
    m.map_values(|p: (String, InputValue)| (p.0@, input_view(p.1)))
}

/// The mathematical value of a node.
pub open spec fn node_view(n: Node) -> NodeV
    decreases n, 1int,
{
    NodeV {
        id: n.id.0@,
        component: n.component@,
        inputs: input_entries(n.inputs@),
        children: node_views(n.children@),
    }
}

/// The mathematical values of a forest.
pub open spec fn node_views(ns: Seq<Node>) -> Seq<NodeV>
    decreases ns, 0int,
{
    if ns.len() == 0 {
        seq![]
    } else {
        seq![node_view(ns[0])] + node_views(ns.drop_first())
    }
}

/// The values of a forest, element by element.
pub proof fn lemma_node_views(ns: Seq<Node>)
    ensures
        node_views(ns).len() == ns.len(),
        forall|i: int| 0 <= i < ns.len() ==> #[trigger] node_views(ns)[i] == node_view(ns[i]),
    decreases ns.len(),
{
    if ns.len() > 0 {
        lemma_node_views(ns.drop_first());
        assert forall|i: int| 0 <= i < ns.len() implies #[trigger] node_views(ns)[i] == node_view(ns[i]) by {
            if i > 0 {
                assert(node_views(ns)[i] == node_views(ns.drop_first())[i - 1]);
            }
        }
    }
}

/// The ids of a forest of node values in document order.
pub open spec fn ids_of(ns: Seq<NodeV>) -> Seq<Seq<char>>
    decreases ns,
{
    if ns.len() == 0 {
        seq![]
    } else {
        seq![ns[0].id] + ids_of(ns[0].children) + ids_of(ns.drop_first())
    }
}

// ---------------------------------------------------------------------------
// Node ids of a tree.
// ---------------------------------------------------------------------------

/// The ids of a forest in document order (each node before its children).
pub open spec fn forest_ids(nodes: Seq<Node>) -> Seq<Seq<char>>
    decreases nodes,
{
    if nodes.len() == 0 {
        seq![]
    } else {
        seq![nodes[0].id.0@] + forest_ids(nodes[0].children@) + forest_ids(nodes.drop_first())
    }
}

/// The ids held by a list of node ids.
pub open spec fn id_views(ids: Seq<NodeId>) -> Seq<Seq<char>> {
    ids.map_values(|i: NodeId| i.0@)
}

/// Append the ids of `nodes[from..]` and their descendants to `acc`.
fn collect_ids(nodes: &Vec<Node>, from: usize, acc: &mut Vec<NodeId>)
    requires
        from <= nodes@.len(),
    ensures
        id_views(final(acc)@) == id_views(old(acc)@) + forest_ids(
            nodes@.subrange(from as int, nodes@.len() as int),
        ),
    decreases nodes@, nodes@.len() - from,
{
    let ghost rest = nodes@.subrange(from as int, nodes@.len() as int);
    if from == nodes.len() {
        proof {
            assert(id_views(acc@) + forest_ids(rest) =~= id_views(acc@));
        }
        return;
    }
    let node = &nodes[from];
    let ghost before = id_views(acc@);
    acc.push(NodeId(node.id.to_string()));
    proof {
        assert(id_views(acc@) =~= before + seq![node.id.0@]);
        assert(decreases_to!(nodes@ => nodes@[from as int]));
        assert(decreases_to!(nodes@[from as int] => nodes@[from as int].children));
    }
    collect_ids(&node.children, 0, acc);
    proof {
        assert(node.children@.subrange(0, node.children@.len() as int) =~= node.children@);
    }
    let ghost mid = id_views(acc@);
    collect_ids(nodes, from + 1, acc);
    proof {
        assert(rest[0] == node);
        assert(rest.drop_first() =~= nodes@.subrange(from + 1, nodes@.len() as int));
        assert(id_views(acc@) =~= before + forest_ids(rest));
    }
}

impl Document {
    /// Every node id in the tree, in document order.
    ///
    /// Each id is listed once, however many nodes carry it.
    pub fn node_ids(&self) -> (ids: Vec<NodeId>)
        ensures
            id_views(ids@).no_duplicates(),
            forall|x: Seq<char>| id_views(ids@).contains(x) <==> forest_ids(self.nodes@).contains(x),
    {
        let mut acc: Vec<NodeId> = Vec::new();
        collect_ids(&self.nodes, 0, &mut acc);
        proof {
            assert(self.nodes@.subrange(0, self.nodes@.len() as int) =~= self.nodes@);
            assert(id_views(Seq::<NodeId>::empty()) =~= Seq::<Seq<char>>::empty());
        }
        let ghost all = id_views(acc@);
        let mut out: Vec<NodeId> = Vec::new();
        let mut i: usize = 0;
        while i < acc.len()
            invariant
                i <= acc@.len(),
                all == id_views(acc@),
                all.len() == acc@.len(),
                id_views(out@).no_duplicates(),
                forall|x: Seq<char>| id_views(out@).contains(x) <==> all.take(i as int).contains(x),
            decreases acc@.len() - i,
        {
            let c = chars_of(acc[i].0.as_str());
            let ghost before = id_views(out@);
            let ghost t0 = all.take(i as int);
            let ghost t1 = all.take(i + 1);
            proof {
                assert(all[i as int] == acc@[i as int].0@);
                assert(t1 =~= t0.push(all[i as int]));
                assert(forall|x: Seq<char>| before.contains(x) <==> t0.contains(x));
            }
            if !contains_id(out.as_slice(), c.as_slice()) {
                out.push(NodeId(string_of(c.as_slice())));
                proof {
                    assert(id_views(out@) =~= before.push(c@));
                    assert forall|a: int, b: int| 0 <= a < b < id_views(out@).len() implies id_views(out@)[a]
                        != id_views(out@)[b] by {
                        if b == before.len() {
                            assert(before[a] == id_views(out@)[a]);
                            assert(before.contains(before[a]));
                        } else {
                            assert(before[a] == id_views(out@)[a]);
                            assert(before[b] == id_views(out@)[b]);
                        }
                    }
                    assert forall|x: Seq<char>| id_views(out@).contains(x) <==> t1.contains(x) by {
                        if id_views(out@).contains(x) {
                            let k = choose|k: int| 0 <= k < id_views(out@).len() && id_views(out@)[k] == x;
                            if k < before.len() {
                                assert(before[k] == x);
                                assert(before.contains(x));
                                let j = choose|j: int| 0 <= j < i && t0[j] == x;
                                assert(t1[j] == x);
                            } else {
                                assert(t1[i as int] == x);
                            }
                        }
                        if t1.contains(x) {
                            let j = choose|j: int| 0 <= j < i + 1 && t1[j] == x;
                            if j < i {
                                assert(t0[j] == x);
                                assert(t0.contains(x));
                                assert(before.contains(x));
                                let k = choose|k: int| 0 <= k < before.len() && before[k] == x;
                                assert(id_views(out@)[k] == x);
                            } else {
                                assert(id_views(out@)[before.len() as int] == x);
                            }
                        }
                    }
                }
            } else {
                proof {
                    assert forall|x: Seq<char>| id_views(out@).contains(x) <==> t1.contains(x) by {
                        if t1.contains(x) {
                            let j = choose|j: int| 0 <= j < i + 1 && t1[j] == x;
                            if j < i {
                                assert(t0[j] == x);
                                assert(t0.contains(x));
                            }
                        }
                        if id_views(out@).contains(x) {
                            assert(t0.contains(x));
                            let j = choose|j: int| 0 <= j < i && t0[j] == x;
                            assert(t1[j] == x);
                        }
                    }
                }
            }
            i = i + 1;
        }
        proof {
            assert(all.take(acc@.len() as int) =~= all);
        }
        out
    }
}


// ---------------------------------------------------------------------------
// Minting node ids.
// ---------------------------------------------------------------------------

/// Two bytes of a salted blake3 digest of a component name: the first two
/// bytes, read little-endian, of the digest of the name's UTF-8 bytes
/// followed by the four little-endian bytes of `salt`.
pub uninterp spec fn spec_salted_suffix(component: Seq<char>, salt: u32) -> u16;

/// Trusted: feeds the name's bytes and then `salt.to_le_bytes()` to a
/// `blake3::Hasher` and reads the first two bytes of `finalize()` with
/// `u16::from_le_bytes`. The contract names the result, a function of the
/// arguments alone.
#[verifier::external_body]
fn salted_suffix(component: &str, salt: u32) -> (r: u16)
    ensures
        r == spec_salted_suffix(component@, salt),
{
    let mut hasher = blake3::Hasher::new();
    hasher.update(component.as_bytes());
    hasher.update(&salt.to_le_bytes());
    let digest = hasher.finalize();
    u16::from_le_bytes([digest.as_bytes()[0], digest.as_bytes()[1]])
}

/// The lowercase hexadecimal digits.
pub open spec fn hex_digits() -> Seq<char> {
    seq!['0', '1', '2', '3', '4', '5', '6', '7', '8', '9', 'a', 'b', 'c', 'd', 'e', 'f']
}

/// `n` in lowercase hexadecimal, zero-padded to at least `w` digits (as
/// `{:0w$x}` writes it).
pub open spec fn hex_pad(n: nat, w: nat) -> Seq<char>
    decreases n, w,
{
    if n == 0 && w == 0 {
        seq![]
    } else {
        hex_pad(n / 16, if w > 0 { (w - 1) as nat } else { 0 }) + seq![hex_digits()[(n % 16) as int]]
    }
}

fn hex_pad_exec(n: u64, w: usize) -> (r: Vec<char>)
    ensures
        r@ == hex_pad(n as nat, w as nat),
{
    let digits = vec!['0', '1', '2', '3', '4', '5', '6', '7', '8', '9', 'a', 'b', 'c', 'd', 'e', 'f'];
    proof {
        assert(digits@ =~= hex_digits());
    }
    let mut acc: Vec<char> = Vec::new();
    let mut m = n;
    let mut k = w;
    proof {
        assert(hex_pad(n as nat, w as nat) =~= hex_pad(m as nat, k as nat) + acc@);
    }
    while !(m == 0 && k == 0)
        invariant
            digits@ == hex_digits(),
            hex_pad(n as nat, w as nat) == hex_pad(m as nat, k as nat) + acc@,
        decreases m + k,
    {
        let d = (m % 16) as usize;
        let ghost before = acc@;
        acc.insert(0, digits[d]);
        proof {
            assert(acc@ =~= seq![hex_digits()[(m % 16) as int]] + before);
        }
        m = m / 16;
        if k > 0 {
            k = k - 1;
        }
        proof {
            assert(hex_pad(n as nat, w as nat) =~= hex_pad(m as nat, k as nat) + acc@);
        }
    }
    proof {
        assert(acc@ =~= hex_pad(m as nat, k as nat) + acc@);
    }
    acc
}

/// The id that the `salt`-th attempt proposes: the component name, `-`,
/// and four hex digits of the salted digest.
pub open spec fn candidate_id(component: Seq<char>, salt: u32) -> Seq<char> {
    component + seq!['-'] + hex_pad(spec_salted_suffix(component, salt) as nat, 4)
}

/// The length of the longest of `ids` (0 when there are none).
pub open spec fn max_len(ids: Seq<Seq<char>>) -> nat
    decreases ids.len(),
{
    if ids.len() == 0 {
        0
    } else {
        let r = max_len(ids.drop_last());
        if ids.last().len() > r {
            ids.last().len()
        } else {
            r
        }
    }
}

/// The wide form of an id: the name, `-`, and `n` in hex padded to `w`
/// digits.
pub open spec fn wide_id(component: Seq<char>, n: nat, w: nat) -> Seq<char> {
    component + seq!['-'] + hex_pad(n, w)
}

/// The fallback id once every salted candidate is taken: the number of ids
/// in hex, padded to `w` digits, the padding widened one digit at a time
/// until `ids` does not hold the id (an id longer than every one of `ids`
/// is never held).
pub open spec fn wide_from(component: Seq<char>, ids: Seq<Seq<char>>, w: nat) -> Seq<char>
    decreases max_len(ids) + 1 - w,
{
    let cand = wide_id(component, ids.len(), w);
    if w > max_len(ids) || !ids.contains(cand) {
        cand
    } else {
        wide_from(component, ids, w + 1)
    }
}

/// The id that minting settles on, trying salts from `salt` up: the first
/// candidate that `ids` does not hold; once all 65,536 salts are used, the
/// name, `-`, and the number of ids in (at least) eight hex digits, widened
/// until free (see [`wide_from`]).
pub open spec fn mint_from(component: Seq<char>, ids: Seq<Seq<char>>, salt: nat) -> Seq<char>
    decreases 65536 - salt,
{
    if salt >= 65536 {
        wide_from(component, ids, 8)
    } else if !ids.contains(candidate_id(component, salt as u32)) {
        candidate_id(component, salt as u32)
    } else {
        mint_from(component, ids, salt + 1)
    }
}

/// Hex padding to `w` digits gives at least `w` digits.
proof fn lemma_hex_pad_len(n: nat, w: nat)
    ensures
        hex_pad(n, w).len() >= w,
    decreases n, w,
{
    if !(n == 0 && w == 0) {
        lemma_hex_pad_len(n / 16, if w > 0 { (w - 1) as nat } else { 0 });
    }
}

/// No id held is longer than the longest.
proof fn lemma_max_len(ids: Seq<Seq<char>>, x: Seq<char>)
    requires
        ids.contains(x),
    ensures
        x.len() <= max_len(ids),
    decreases ids.len(),
{
    if ids.last() != x {
        let j = choose|j: int| 0 <= j < ids.len() && ids[j] == x;
        assert(ids.drop_last()[j] == x);
        lemma_max_len(ids.drop_last(), x);
    }
}

/// The fallback id is never held.
proof fn lemma_wide_from_fresh(component: Seq<char>, ids: Seq<Seq<char>>, w: nat)
    ensures
        !ids.contains(wide_from(component, ids, w)),
    decreases max_len(ids) + 1 - w,
{
    let cand = wide_id(component, ids.len(), w);
    if w > max_len(ids) {
        lemma_hex_pad_len(ids.len(), w);
        if ids.contains(cand) {
            lemma_max_len(ids, cand);
        }
    } else if ids.contains(cand) {
        lemma_wide_from_fresh(component, ids, w + 1);
    }
}

fn contains_id(ids: &[NodeId], id: &[char]) -> (b: bool)
    ensures
        b == id_views(ids@).contains(id@),
{
    let ghost v = id_views(ids@);
    let mut i: usize = 0;
    while i < ids.len()
        invariant
            i <= ids@.len(),
            v == id_views(ids@),
            v.len() == ids@.len(),
            forall|k: int| 0 <= k < i ==> v[k] != id@,
        decreases ids@.len() - i,
    {
        let c = chars_of(ids[i].0.as_str());
        proof {
            assert(v[i as int] == ids@[i as int].0@);
        }
        if chars_eq(c.as_slice(), id) {
            return true;
        }
        i = i + 1;
    }
    false
}

impl NodeId {
    /// Mint a `{component}-{4hex}` id that `existing` does not hold (see
    /// [`mint_from`]): the four hex digits come from a digest of the name
    /// and a salt, and the salt advances until the id is free; should every
    /// salt be taken, a wider suffix is widened until free. The same name and
    /// ids give the same id.
    pub fn mint(component: &str, existing: &[NodeId]) -> (r: NodeId)
        requires
            id_views(existing@).no_duplicates(),
        ensures
            r.0@ == mint_from(component@, id_views(existing@), 0),
            !id_views(existing@).contains(r.0@),
    {
        let ghost ids = id_views(existing@);
        let mut salt: u32 = 0;
        while salt <= 65535
            invariant
                salt <= 65536,
                ids == id_views(existing@),
                mint_from(component@, ids, 0) == mint_from(component@, ids, salt as nat),
            decreases 65536 - salt,
        {
            let suffix = salted_suffix(component, salt);
            let mut cand = chars_of(component);
            cand.push('-');
            let hex = hex_pad_exec(suffix as u64, 4);
            push_all(&mut cand, hex.as_slice());
            proof {
                assert(cand@ =~= candidate_id(component@, salt));
            }
            if !contains_id(existing, cand.as_slice()) {
                return NodeId(string_of(cand.as_slice()));
            }
            salt = salt + 1;
        }
        proof {
            assert(id_views(existing@).len() == existing@.len());
            assert(mint_from(component@, ids, salt as nat) == wide_from(component@, ids, 8));
        }
        let ghost ml = max_len(ids);
        let mut w: usize = 8;
        loop
            invariant
                ids == id_views(existing@),
                ids.len() == existing@.len(),
                ml == max_len(ids),
                8 <= w,
                mint_from(component@, ids, 0) == wide_from(component@, ids, w as nat),
            decreases ml + 1 - w,
        {
            let mut id = chars_of(component);
            id.push('-');
            let hex = hex_pad_exec(existing.len() as u64, w);
            push_all(&mut id, hex.as_slice());
            proof {
                assert(id@ =~= wide_id(component@, ids.len(), w as nat));
            }
            if !contains_id(existing, id.as_slice()) {
                return NodeId(string_of(id.as_slice()));
            }
            proof {
                lemma_max_len(ids, id@);
                lemma_hex_pad_len(ids.len(), w as nat);
                assert(id@.len() == id.len());
            }
            w = w + 1;
        }
    }
}

/// Minting finds a free id: the id is not among `ids`, and it is the
/// component name, `-`, and at least four lowercase hexadecimal digits.
pub proof fn law_mint_fresh(component: Seq<char>, ids: Seq<Seq<char>>)
    ensures
        !ids.contains(mint_from(component, ids, 0)),
        exists|n: nat, w: nat| w >= 4 && mint_from(component, ids, 0) == component + seq!['-'] + #[trigger] hex_pad(n, w),
{
    lemma_mint_from(component, ids, 0);
    lemma_mint_shape(component, ids, 0);
}

proof fn lemma_wide_shape(component: Seq<char>, ids: Seq<Seq<char>>, w: nat)
    requires
        w >= 4,
    ensures
        exists|k: nat| k >= 4 && wide_from(component, ids, w) == component + seq!['-'] + #[trigger] hex_pad(ids.len(), k),
    decreases max_len(ids) + 1 - w,
{
    if !(w > max_len(ids) || !ids.contains(wide_id(component, ids.len(), w))) {
        lemma_wide_shape(component, ids, w + 1);
    } else {
        assert(wide_from(component, ids, w) == component + seq!['-'] + hex_pad(ids.len(), w));
    }
}

proof fn lemma_mint_shape(component: Seq<char>, ids: Seq<Seq<char>>, salt: nat)
    ensures
        exists|n: nat, w: nat| w >= 4 && mint_from(component, ids, salt) == component + seq!['-'] + #[trigger] hex_pad(n, w),
    decreases 65536 - salt,
{
    if salt >= 65536 {
        lemma_wide_shape(component, ids, 8);
        let k = choose|k: nat| k >= 4 && wide_from(component, ids, 8) == component + seq!['-'] + #[trigger] hex_pad(ids.len(), k);
        assert(mint_from(component, ids, salt) == component + seq!['-'] + hex_pad(ids.len(), k));
    } else if ids.contains(candidate_id(component, salt as u32)) {
        lemma_mint_shape(component, ids, salt + 1);
    } else {
        let n = spec_salted_suffix(component, salt as u32) as nat;
        assert(mint_from(component, ids, salt) == component + seq!['-'] + hex_pad(n, 4));
    }
}

proof fn lemma_mint_from(component: Seq<char>, ids: Seq<Seq<char>>, salt: nat)
    ensures
        !ids.contains(mint_from(component, ids, salt)),
    decreases 65536 - salt,
{
    if salt >= 65536 {
        lemma_wide_from_fresh(component, ids, 8);
    } else if ids.contains(candidate_id(component, salt as u32)) {
        lemma_mint_from(component, ids, salt + 1);
    }
}

} // verus!
