//! Authoring operations on documents, as functions from the current text of
//! a document to its new text.
//!
//! Each operation parses the document, applies one change to the model and
//! recomposes it; reading the file and writing the result (to a sibling
//! temporary file, then renamed over the target) is left to the caller.
use vstd::prelude::*;

use crate::error::{Error, IoKind};
use crate::fatfile::{compose, compose_spec, extract, extract_spec, is_four_section, is_four_section_spec, missing_marker_message, FatFileSections};
use crate::text::trim_end;
use crate::fatfile::images::{parse_images_section, parse_images_spec, write_images_section, write_images_spec};
use crate::fatfile::ndoc::{
    blake3_hex, compose_text, compute_entry_hash, entry_round_trips, fresh_entries, law_parse_compose, parse_spec,
    entry_digest, spec_blake3_hex, EntryKind, NdocDocument, NdocEntry,
};
use crate::cli::{coerce_spec, coerce_value, declared_kind, declared_kind_spec, NumberParse};
use crate::doctree::{find_spec, law_find_after_set, opt_text, place_node, place_spec, set_input_spec, with_input};
use crate::inputs::{entries, has_key, insert_input, law_get_after_insert, map_get, map_insert};
use crate::model::{
    forest_ids, id_views, input_entries, law_mint_fresh, mint_from, node_view, node_views, Document, ImageRef,
    InputKind, InputValue, JsonV, Node, NodeId, NodeV,
};
use crate::schema::{component_index, template_index, Catalogue};
use crate::text::{
    chars_eq, chars_of, debug_str, free_of, is_prefix, join, join_exec, lemma_join_lines, lemma_lines_free,
    lemma_lines_join, lines, lines_of, push_all, push_str, slice_vec, spec_debug_str, starts_with, string_of, views,
};

verus! {

/// An entry of a document as a mathematical value: name, kind, content and
/// stored hash.
pub type EntryV = (Seq<char>, EntryKind, Seq<char>, Seq<char>);

/// The first entry named `name`.
pub open spec fn entry_index(es: Seq<EntryV>, name: Seq<char>) -> Option<int>
    decreases es.len(),
{
    if es.len() == 0 {
        None
    } else if es[0].0 == name {
        Some(0)
    } else {
        match entry_index(es.drop_first(), name) {
            Some(i) => Some(i + 1),
            None => None,
        }
    }
}

fn entry_index_exec(doc: &NdocDocument, name: &str) -> (r: Option<usize>)
    ensures
        match r {
            Some(i) => entry_index(doc@, name@) == Some(i as int) && i < doc@.len(),
            None => entry_index(doc@, name@) is None,
        },
{
    let target = chars_of(name);
    let mut i: usize = 0;
    proof {
        assert(doc@.subrange(0, doc@.len() as int) =~= doc@);
    }
    while i < doc.entries.len()
        invariant
            i <= doc@.len(),
            doc@.len() == doc.entries@.len(),
            target@ == name@,
            entry_index(doc@, name@) == match entry_index(doc@.subrange(i as int, doc@.len() as int), name@) {
                Some(k) => Some(k + i),
                None => None,
            },
        decreases doc@.len() - i,
    {
        let ghost rest = doc@.subrange(i as int, doc@.len() as int);
        proof {
            assert(rest[0] == doc.entries@[i as int]@);
            assert(rest.drop_first() =~= doc@.subrange(i + 1, doc@.len() as int));
        }
        let n = chars_of(doc.entries[i].name.as_str());
        if chars_eq(n.as_slice(), target.as_slice()) {
            return Some(i);
        }
        i = i + 1;
    }
    None
}

/// The text of a new, empty document, unless one already exists at `path`.
pub fn create_document(path: &str, exists: bool) -> (r: Result<String, Error>)
    ensures
        exists ==> (r matches Err(e) && e is Io && e->Io_0 == IoKind::AlreadyExists && e->Io_1@ == "document already exists: "@
            + path@),
        !exists ==> (r matches Ok(t) && t@ == compose_text(Seq::<EntryV>::empty())),
{
    if exists {
        let mut m = chars_of("document already exists: ");
        push_str(&mut m, path);
        return Err(Error::Io(IoKind::AlreadyExists, string_of(m.as_slice())));
    }
    Ok(NdocDocument::new().compose())
}

/// The message for a name that is already taken.
pub open spec fn duplicate_message(name: Seq<char>, path: Seq<char>) -> Seq<char> {
    "duplicate-entry: an entry named "@ + spec_debug_str(name) + " already exists in "@ + path
}

/// The message for a name that no entry has.
pub open spec fn not_found_message(name: Seq<char>, path: Seq<char>) -> Seq<char> {
    "entry-not-found: no entry named "@ + spec_debug_str(name) + " in "@ + path
}

/// The entry that adding or editing writes: its hash is that of `content`.
pub open spec fn hashed_entry(name: Seq<char>, kind: EntryKind, content: Seq<char>) -> EntryV {
    (name, kind, content, entry_digest(content))
}

/// Add a named entry to the document whose text is `src` (found at
/// `path`), returning the new text. A text that does not parse gives the
/// parse error; a name already taken gives a `duplicate-entry` error.
pub fn add_entry(src: &str, path: &str, name: &str, kind: EntryKind, content: &str) -> (r: Result<String, Error>)
    ensures
        match parse_spec(src@) {
            Err(m) => r matches Err(e) && e is FatFile && e->FatFile_0@ == m,
            Ok(es) => match entry_index(es, name@) {
                Some(_) => r matches Err(e) && e is Authoring && e->Authoring_0@ == duplicate_message(name@, path@),
                None => r matches Ok(t) && t@ == compose_text(es.push(hashed_entry(name@, kind, content@))),
            },
        },
{
    let mut doc = NdocDocument::parse(src)?;
    if entry_index_exec(&doc, name).is_some() {
        let mut m = chars_of("duplicate-entry: an entry named ");
        push_str(&mut m, debug_str(name).as_str());
        push_str(&mut m, " already exists in ");
        push_str(&mut m, path);
        return Err(Error::Authoring(string_of(m.as_slice())));
    }
    let ghost before = doc@;
    let entry = NdocEntry {
        name: string_of(chars_of(name).as_slice()),
        kind,
        content: string_of(chars_of(content).as_slice()),
        hash: compute_entry_hash(content),
    };
    doc.entries.push(entry);
    proof {
        assert(doc@ =~= before.push(hashed_entry(name@, kind, content@)));
    }
    Ok(doc.compose())
}

/// Replace the content of the first entry named `name` in the document
/// whose text is `src` (found at `path`), returning the new text; the
/// entry's hash is recomputed. A text that does not parse gives the parse
/// error; an unknown name gives an `entry-not-found` error.
pub fn edit_entry(src: &str, path: &str, name: &str, content: &str) -> (r: Result<String, Error>)
    ensures
        match parse_spec(src@) {
            Err(m) => r matches Err(e) && e is FatFile && e->FatFile_0@ == m,
            Ok(es) => match entry_index(es, name@) {
                None => r matches Err(e) && e is Authoring && e->Authoring_0@ == not_found_message(name@, path@),
                Some(i) => r matches Ok(t) && t@ == compose_text(es.update(i, hashed_entry(name@, es[i].1, content@))),
            },
        },
{
    let mut doc = NdocDocument::parse(src)?;
    let i = match entry_index_exec(&doc, name) {
        Some(i) => i,
        None => {
            let mut m = chars_of("entry-not-found: no entry named ");
            push_str(&mut m, debug_str(name).as_str());
            push_str(&mut m, " in ");
            push_str(&mut m, path);
            return Err(Error::Authoring(string_of(m.as_slice())));
        },
    };
    let ghost before = doc@;
    proof {
        lemma_entry_index(before, name@);
    }
    let kind = doc.entries[i].kind;
    let entry = NdocEntry {
        name: string_of(chars_of(name).as_slice()),
        kind,
        content: string_of(chars_of(content).as_slice()),
        hash: compute_entry_hash(content),
    };
    doc.entries.set(i, entry);
    proof {
        assert(doc@ =~= before.update(i as int, hashed_entry(name@, before[i as int].1, content@)));
    }
    Ok(doc.compose())
}

/// A found index names an entry with that name, and no earlier one does.
pub proof fn lemma_entry_index(es: Seq<EntryV>, name: Seq<char>)
    ensures
        match entry_index(es, name) {
            Some(i) => 0 <= i < es.len() && es[i].0 == name && forall|j: int| 0 <= j < i ==> es[j].0 != name,
            None => forall|j: int| 0 <= j < es.len() ==> es[j].0 != name,
        },
    decreases es.len(),
{
    if es.len() > 0 && es[0].0 != name {
        lemma_entry_index(es.drop_first(), name);
        match entry_index(es.drop_first(), name) {
            Some(i) => {
                assert forall|j: int| 0 <= j < i + 1 implies es[j].0 != name by {
                    if j > 0 {
                        assert(es[j] == es.drop_first()[j - 1]);
                    }
                }
            },
            None => {
                assert forall|j: int| 0 <= j < es.len() implies es[j].0 != name by {
                    if j > 0 {
                        assert(es[j] == es.drop_first()[j - 1]);
                    }
                }
            },
        }
    }
}

/// Reading back an added entry: when the entries already in a document and
/// the one added can be written and read back, the document text that
/// [`add_entry`] returns parses to those entries and then the new one, its
/// hash the digest of its content.
pub proof fn law_read_after_add(es: Seq<EntryV>, name: Seq<char>, kind: EntryKind, content: Seq<char>)
    requires
        forall|i: int| 0 <= i < es.len() ==> entry_round_trips(#[trigger] es[i]),
        entry_round_trips(hashed_entry(name, kind, content)),
    ensures
        parse_spec(compose_text(es.push(hashed_entry(name, kind, content)))) == Ok::<_, Seq<char>>(
            fresh_entries(es).push(hashed_entry(name, kind, content)),
        ),
{
    let all = es.push(hashed_entry(name, kind, content));
    assert forall|i: int| 0 <= i < all.len() implies entry_round_trips(#[trigger] all[i]) by {
        if i < es.len() {
            assert(all[i] == es[i]);
        }
    }
    law_parse_compose(all);
    assert(fresh_entries(all) =~= fresh_entries(es).push(hashed_entry(name, kind, content)));
}

/// Reading back an edited entry: the document text that [`edit_entry`]
/// returns parses to the same entries, the edited one with its new content
/// and that content's digest.
pub proof fn law_read_after_edit(es: Seq<EntryV>, i: int, content: Seq<char>)
    requires
        0 <= i < es.len(),
        forall|k: int| 0 <= k < es.len() ==> entry_round_trips(#[trigger] es[k]),
        entry_round_trips(hashed_entry(es[i].0, es[i].1, content)),
    ensures
        parse_spec(compose_text(es.update(i, hashed_entry(es[i].0, es[i].1, content)))) == Ok::<_, Seq<char>>(
            fresh_entries(es).update(i, hashed_entry(es[i].0, es[i].1, content)),
        ),
{
    let all = es.update(i, hashed_entry(es[i].0, es[i].1, content));
    assert forall|k: int| 0 <= k < all.len() implies entry_round_trips(#[trigger] all[k]) by {
        if k != i {
            assert(all[k] == es[k]);
        }
    }
    law_parse_compose(all);
    assert(fresh_entries(all) =~= fresh_entries(es).update(i, hashed_entry(es[i].0, es[i].1, content)));
}

/// The outcome of embedding an image into a document's manifest.
#[derive(Debug, Clone, Copy, PartialEq, Eq, Structural)]
pub enum ImageEmbed {
    /// The image was newly recorded in the manifest.
    Added,
    /// An identical `{name, hash}` entry was already present; nothing changed.
    AlreadyPresent,
}

/// The manifest's entries as name and hash.
pub open spec fn manifest_view(images: Seq<ImageRef>) -> Seq<(Seq<char>, Seq<char>)> {
    images.map_values(|r: ImageRef| (r.name@, r.hash@))
}

/// The first manifest entry named `name`.
pub open spec fn image_index(m: Seq<(Seq<char>, Seq<char>)>, name: Seq<char>) -> Option<int>
    decreases m.len(),
{
    if m.len() == 0 {
        None
    } else if m[0].0 == name {
        Some(0)
    } else {
        match image_index(m.drop_first(), name) {
            Some(i) => Some(i + 1),
            None => None,
        }
    }
}

/// Record an image named `name` whose bytes have the digest `hash` in the
/// manifest. The same name with the same digest changes nothing; the same
/// name with another digest is refused; a new name is appended.
pub fn record_image(images: &mut Vec<ImageRef>, name: &str, hash: &str) -> (r: Result<ImageEmbed, Error>)
    ensures
        match image_index(manifest_view(old(images)@), name@) {
            Some(i) => if manifest_view(old(images)@)[i].1 == hash@ {
                r == Ok::<ImageEmbed, Error>(ImageEmbed::AlreadyPresent) && final(images)@ == old(images)@
            } else {
                r matches Err(e) && e is Authoring && e->Authoring_0@ == "image '"@ + name@
                    + "' is already embedded with different content"@ && final(images)@ == old(images)@
            },
            None => r == Ok::<ImageEmbed, Error>(ImageEmbed::Added) && manifest_view(final(images)@) == manifest_view(
                old(images)@,
            ).push((name@, hash@)),
        },
        r is Ok ==> manifest_view(final(images)@) == recorded(manifest_view(old(images)@), name@, hash@),
{
    let ghost m = manifest_view(images@);
    let target = chars_of(name);
    let mut i: usize = 0;
    proof {
        assert(m.subrange(0, m.len() as int) =~= m);
    }
    while i < images.len()
        invariant
            i <= images@.len(),
            m == manifest_view(images@),
            m.len() == images@.len(),
            images@ == old(images)@,
            target@ == name@,
            image_index(m, name@) == match image_index(m.subrange(i as int, m.len() as int), name@) {
                Some(k) => Some(k + i),
                None => None,
            },
        decreases images@.len() - i,
    {
        let ghost rest = m.subrange(i as int, m.len() as int);
        proof {
            assert(rest[0] == (images@[i as int].name@, images@[i as int].hash@));
            assert(rest.drop_first() =~= m.subrange(i + 1, m.len() as int));
        }
        let n = chars_of(images[i].name.as_str());
        if chars_eq(n.as_slice(), target.as_slice()) {
            let h = chars_of(images[i].hash.as_str());
            let want = chars_of(hash);
            if chars_eq(h.as_slice(), want.as_slice()) {
                return Ok(ImageEmbed::AlreadyPresent);
            }
            let mut msg = chars_of("image '");
            push_str(&mut msg, name);
            push_str(&mut msg, "' is already embedded with different content");
            return Err(Error::Authoring(string_of(msg.as_slice())));
        }
        i = i + 1;
    }
    proof {
        assert(m.subrange(i as int, m.len() as int) =~= Seq::<(Seq<char>, Seq<char>)>::empty());
    }
    images.push(ImageRef { name: string_of(target.as_slice()), hash: string_of(chars_of(hash).as_slice()) });
    proof {
        assert(manifest_view(images@) =~= m.push((name@, hash@)));
    }
    Ok(ImageEmbed::Added)
}

/// The stored images with `bytes` added under `hash`, unless that hash is
/// already stored.
pub open spec fn add_blob(m: Seq<(Seq<char>, Seq<u8>)>, hash: Seq<char>, bytes: Seq<u8>) -> Seq<(Seq<char>, Seq<u8>)> {
    if map_get(m, hash) is Some {
        m
    } else {
        map_insert(m, hash, bytes)
    }
}

/// The manifest after recording `name` with digest `hash`, when the
/// recording is accepted.
pub open spec fn recorded(m: Seq<(Seq<char>, Seq<char>)>, name: Seq<char>, hash: Seq<char>) -> Seq<(Seq<char>, Seq<char>)> {
    match image_index(m, name) {
        Some(_) => m,
        None => m.push((name, hash)),
    }
}

proof fn lemma_image_index(m: Seq<(Seq<char>, Seq<char>)>, name: Seq<char>)
    ensures
        match image_index(m, name) {
            Some(i) => 0 <= i < m.len() && m[i].0 == name,
            None => forall|k: int| 0 <= k < m.len() ==> #[trigger] m[k].0 != name,
        },
    decreases m.len(),
{
    if m.len() > 0 {
        lemma_image_index(m.drop_first(), name);
        if m[0].0 != name {
            assert forall|k: int| 0 < k < m.len() implies m[k] == m.drop_first()[k - 1] by {}
        }
    }
}

proof fn lemma_image_index_push(m: Seq<(Seq<char>, Seq<char>)>, name: Seq<char>, hash: Seq<char>)
    requires
        image_index(m, name) is None,
    ensures
        image_index(m.push((name, hash)), name) == Some(m.len() as int),
    decreases m.len(),
{
    let p = m.push((name, hash));
    if m.len() == 0 {
        assert(p[0] == (name, hash));
    } else {
        assert(p[0] == m[0]);
        assert(p.drop_first() =~= m.drop_first().push((name, hash)));
        lemma_image_index_push(m.drop_first(), name, hash);
    }
}

/// Embedding is idempotent: once an image is accepted under a name (newly
/// added, or already there with the same content), the manifest holds that
/// name with that digest, so embedding the same content under the same name
/// again finds it present and changes nothing, while content with another
/// digest under that name finds a different digest recorded and is refused.
pub proof fn law_embed_again_is_present(
    m: Seq<(Seq<char>, Seq<char>)>,
    name: Seq<char>,
    hash: Seq<char>,
    other: Seq<char>,
)
    requires
        match image_index(m, name) {
            Some(i) => m[i].1 == hash,
            None => true,
        },
    ensures
        image_index(recorded(m, name, hash), name) matches Some(i) && recorded(m, name, hash)[i].1 == hash,
        recorded(recorded(m, name, hash), name, hash) == recorded(m, name, hash),
        other != hash ==> (image_index(recorded(m, name, hash), name) matches Some(i) && recorded(
            m,
            name,
            hash,
        )[i].1 != other),
{
    lemma_image_index(m, name);
    if image_index(m, name) is None {
        lemma_image_index_push(m, name, hash);
    }
}

/// Embed the image `image_bytes` under `image_name` in a document whose
/// sections are `sections` and whose image manifest is `images`.
///
/// The image is keyed by the blake3 digest of its bytes. Embedding the same
/// bytes under a name already present changes nothing; other bytes under a
/// name already present are refused. A new name is appended to the
/// manifest, and the IMAGES section then stores the bytes under their
/// digest, unless bytes with that digest are stored already.
pub fn embed_image(
    sections: &mut FatFileSections,
    images: &mut Vec<ImageRef>,
    image_name: &str,
    image_bytes: &[u8],
) -> (r: Result<ImageEmbed, Error>)
    ensures
        ({
            let h = spec_blake3_hex(image_bytes@);
            match image_index(manifest_view(old(images)@), image_name@) {
                Some(i) => if manifest_view(old(images)@)[i].1 == h {
                    r == Ok::<ImageEmbed, Error>(ImageEmbed::AlreadyPresent) && final(images)@ == old(images)@
                        && final(sections)@ == old(sections)@
                } else {
                    r matches Err(e) && e is Authoring && e->Authoring_0@ == "image '"@ + image_name@
                        + "' is already embedded with different content"@ && final(images)@ == old(images)@
                        && final(sections)@ == old(sections)@
                },
                None => r == Ok::<ImageEmbed, Error>(ImageEmbed::Added) && manifest_view(final(images)@)
                    == manifest_view(old(images)@).push((image_name@, h)) && final(sections)@ == (
                    old(sections)@.0,
                    old(sections)@.1,
                    old(sections)@.2,
                    write_images_spec(add_blob(parse_images_spec(old(sections)@.3), h, image_bytes@)),
                ),
            }
        }),
        r is Ok ==> manifest_view(final(images)@) == recorded(
            manifest_view(old(images)@),
            image_name@,
            spec_blake3_hex(image_bytes@),
        ),
{
    let hash = blake3_hex(image_bytes);
    let outcome = record_image(images, image_name, hash.as_str());
    match outcome {
        Ok(ImageEmbed::Added) => {},
        other => {
            return other;
        },
    }
    let mut blobs = parse_images_section(sections.images.as_str());
    let hc = chars_of(hash.as_str());
    if !has_key(&blobs, hc.as_slice()) {
        insert_input(&mut blobs, hash, vstd::slice::slice_to_vec(image_bytes));
    }
    sections.images = write_images_section(&blobs);
    Ok(ImageEmbed::Added)
}


/// The kind declared for the input `key` of the target: the document's
/// template (when `node_id` is `None`) or the component of the node
/// `node_id`; or the message that refuses the target.
pub open spec fn set_kind_spec(
    template: Seq<char>,
    nodes: Seq<NodeV>,
    cat: Catalogue,
    node_id: Option<Seq<char>>,
    key: Seq<char>,
) -> Result<InputKind, Seq<char>> {
    match node_id {
        None => match template_index(cat.templates@, template) {
            None => Err("no schema for template '"@ + template + "'"@),
            Some(t) => match declared_kind_spec(cat.templates@[t].document_inputs@, key) {
                None => Err("input '"@ + key + "' is not in the schema for template '"@ + template + "'"@),
                Some(k) => Ok(k),
            },
        },
        Some(id) => match find_spec(nodes, id) {
            None => Err("unknown node id '"@ + id + "'"@),
            Some(n) => match component_index(cat.components@, n.component) {
                None => Err("no schema for component '"@ + n.component + "'"@),
                Some(c) => match declared_kind_spec(cat.components@[c].inputs@, key) {
                    None => Err(
                        "input '"@ + key + "' is not in the schema for component '"@ + n.component + "'"@,
                    ),
                    Some(k) => Ok(k),
                },
            },
        },
    }
}

/// The names of the images a document embeds.
pub open spec fn image_names(images: Seq<ImageRef>) -> Seq<Seq<char>> {
    images.map_values(|r: ImageRef| r.name@)
}

/// What setting an input does to a document's inputs and nodes: exactly one
/// target (a node id, or the document) must be named; the key must be
/// declared for the target; the value is coerced to the declared kind and
/// stored under the key.
pub open spec fn doc_set_spec(
    template: Seq<char>,
    inputs: Seq<(Seq<char>, (InputKind, JsonV))>,
    nodes: Seq<NodeV>,
    images: Seq<ImageRef>,
    cat: Catalogue,
    node_id: Option<Seq<char>>,
    document_level: bool,
    key: Seq<char>,
    value: Seq<char>,
    number: NumberParse,
) -> Result<(Seq<(Seq<char>, (InputKind, JsonV))>, Seq<NodeV>), Seq<char>> {
    if document_level != (node_id is None) {
        Err("specify exactly one target: a <node_id> or --document"@)
    } else {
        match set_kind_spec(template, nodes, cat, node_id, key) {
            Err(m) => Err(m),
            Ok(kind) => match coerce_spec(kind, value, image_names(images), number) {
                Err(m) => Err(m),
                Ok(j) => match node_id {
                    None => Ok((map_insert(inputs, key, (kind, j)), nodes)),
                    Some(id) => match set_input_spec(nodes, id, key, (kind, j)) {
                        Some(ns) => Ok((inputs, ns)),
                        None => Err("unknown node id '"@ + id + "'"@),
                    },
                },
            },
        }
    }
}

/// Reading back an accepted set: the value, converted to the kind that the
/// target declares for the key, is what the key then holds: among the
/// document's inputs (the nodes untouched), or on the node named (the
/// document's inputs untouched), which is otherwise the node it was.
pub proof fn law_read_after_doc_set(
    template: Seq<char>,
    inputs: Seq<(Seq<char>, (InputKind, JsonV))>,
    nodes: Seq<NodeV>,
    images: Seq<ImageRef>,
    cat: Catalogue,
    node_id: Option<Seq<char>>,
    document_level: bool,
    key: Seq<char>,
    value: Seq<char>,
    number: NumberParse,
)
    ensures
        match doc_set_spec(template, inputs, nodes, images, cat, node_id, document_level, key, value, number) {
            Ok((ins, ns)) => set_kind_spec(template, nodes, cat, node_id, key) matches Ok(kind) && coerce_spec(
                kind,
                value,
                image_names(images),
                number,
            ) matches Ok(j) && match node_id {
                None => map_get(ins, key) == Some((kind, j)) && ns == nodes,
                Some(id) => ins == inputs && find_spec(nodes, id) is Some && find_spec(ns, id) == Some(
                    with_input(find_spec(nodes, id)->Some_0, key, (kind, j)),
                ),
            },
            Err(_) => true,
        },
{
    if document_level == (node_id is None) {
        if let Ok(kind) = set_kind_spec(template, nodes, cat, node_id, key) {
            if let Ok(j) = coerce_spec(kind, value, image_names(images), number) {
                match node_id {
                    None => {
                        law_get_after_insert(inputs, key, (kind, j), key);
                    },
                    Some(id) => {
                        law_find_after_set(nodes, id, key, (kind, j));
                    },
                }
            }
        }
    }
}

fn image_name_list(images: &Vec<ImageRef>) -> (r: Vec<String>)
    ensures
        crate::cli::names(r@) == image_names(images@),
{
    let mut names: Vec<String> = Vec::new();
    let mut i: usize = 0;
    while i < images.len()
        invariant
            i <= images@.len(),
            names@.len() == i,
            crate::cli::names(names@) == image_names(images@.subrange(0, i as int)),
        decreases images@.len() - i,
    {
        let ghost before = names@;
        names.push(string_of(chars_of(images[i].name.as_str()).as_slice()));
        proof {
            assert(images@.subrange(0, i + 1) =~= images@.subrange(0, i as int).push(images@[i as int]));
            assert(names@ =~= before.push(names@[i as int]));
            assert(crate::cli::names(names@) =~= crate::cli::names(before).push(names@[i as int]@));
            assert(image_names(images@.subrange(0, i + 1)) =~= image_names(images@.subrange(0, i as int)).push(
                images@[i as int].name@,
            ));
            assert(crate::cli::names(names@) =~= image_names(images@.subrange(0, i + 1)));
        }
        i = i + 1;
    }
    proof {
        assert(images@.subrange(0, images@.len() as int) =~= images@);
    }
    names
}

fn msg3(prefix: &str, a: &str, suffix: &str) -> (m: String)
    ensures
        m@ == prefix@ + a@ + suffix@,
{
    let mut out = chars_of(prefix);
    push_str(&mut out, a);
    push_str(&mut out, suffix);
    string_of(out.as_slice())
}

fn kind_message(prefix: &str, a: &str, mid: &str, b: &[char], suffix: &str) -> (m: String)
    ensures
        m@ == prefix@ + a@ + mid@ + b@ + suffix@,
{
    let mut out = chars_of(prefix);
    push_str(&mut out, a);
    push_str(&mut out, mid);
    crate::text::push_all(&mut out, b);
    push_str(&mut out, suffix);
    string_of(out.as_slice())
}

/// Set the input `key` of one target of a document to `value`: the node
/// `node_id`, or the document itself when `document_level` (see
/// [`doc_set_spec`]). `number` is how `value` reads as a number. A refused
/// request leaves the document unchanged.
pub fn apply_doc_set(
    doc: &mut Document,
    catalogue: &Catalogue,
    node_id: Option<&str>,
    document_level: bool,
    key: &str,
    value: &str,
    number: NumberParse,
) -> (r: Result<(), String>)
    ensures
        match doc_set_spec(
            old(doc).template@,
            input_entries(old(doc).inputs@),
            node_views(old(doc).nodes@),
            old(doc).images@,
            *catalogue,
            match node_id {
                Some(i) => Some(i@),
                None => None,
            },
            document_level,
            key@,
            value@,
            number,
        ) {
            Ok((ins, ns)) => r is Ok && input_entries(final(doc).inputs@) == ins && node_views(final(doc).nodes@) == ns
                && final(doc).template == old(doc).template && final(doc).images == old(doc).images,
            Err(m) => r matches Err(e) && e@ == m && *final(doc) == *old(doc),
        },
{
    if document_level != node_id.is_none() {
        return Err(string_of(chars_of("specify exactly one target: a <node_id> or --document").as_slice()));
    }
    let kind = match node_id {
        None => {
            let t = match catalogue.template(doc.template.as_str()) {
                Some(t) => t,
                None => {
                    return Err(msg3("no schema for template '", doc.template.as_str(), "'"));
                },
            };
            match declared_kind(t.document_inputs.as_slice(), key) {
                Some(k) => k,
                None => {
                    let tc = chars_of(doc.template.as_str());
                    return Err(
                        kind_message("input '", key, "' is not in the schema for template '", tc.as_slice(), "'"),
                    );
                },
            }
        },
        Some(id) => {
            let n = match crate::doctree::find_node(&doc.nodes, id) {
                Some(n) => n,
                None => {
                    return Err(msg3("unknown node id '", id, "'"));
                },
            };
            let sc = match catalogue.component(n.component.as_str()) {
                Some(sc) => sc,
                None => {
                    return Err(msg3("no schema for component '", n.component.as_str(), "'"));
                },
            };
            match declared_kind(sc.inputs.as_slice(), key) {
                Some(k) => k,
                None => {
                    let cc = chars_of(n.component.as_str());
                    return Err(
                        kind_message("input '", key, "' is not in the schema for component '", cc.as_slice(), "'"),
                    );
                },
            }
        },
    };
    let names = image_name_list(&doc.images);
    let json = coerce_value(kind, value, names.as_slice(), number)?;
    let input = InputValue { kind, value: json };
    let owned_key = string_of(chars_of(key).as_slice());
    match node_id {
        None => {
            proof {
                assert(input_entries(doc.inputs@) =~= entries(doc.inputs@));
            }
            insert_input(&mut doc.inputs, owned_key, input);
            proof {
                assert(input_entries(doc.inputs@) =~= entries(doc.inputs@));
            }
            Ok(())
        },
        Some(id) => {
            let idc = chars_of(id);
            proof {
                crate::doctree::law_find_after_set(node_views(doc.nodes@), id@, key@, input@);
            }
            match crate::doctree::set_node_input(&mut doc.nodes, idc.as_slice(), owned_key, input) {
                None => Ok(()),
                Some(_) => {
                    proof {
                        assert(false);
                    }
                    Ok(())
                },
            }
        },
    }
}

/// The node a new node of type `component` with the given id and inputs
/// starts as: no children.
pub open spec fn new_node_view(id: Seq<char>, component: Seq<char>, inputs: Seq<(String, InputValue)>) -> NodeV {
    NodeV { id, component, inputs: input_entries(inputs), children: seq![] }
}

/// `d` lists the ids of the forest `nodes`, each once.
pub open spec fn lists_ids_once(d: Seq<Seq<char>>, nodes: Seq<Node>) -> bool {
    &&& d.no_duplicates()
    &&& forall|x: Seq<char>| d.contains(x) <==> forest_ids(nodes).contains(x)
}

/// Add a node of type `node_type` with `inputs` to a document, placed as
/// [`place_node`] places it, under an id minted fresh for the document's
/// tree (see [`NodeId::mint`]). The id is returned; an unknown placement
/// target is refused and leaves the document unchanged.
pub fn add_node(
    doc: &mut Document,
    node_type: &str,
    inputs: Vec<(String, InputValue)>,
    parent: Option<&str>,
    before: Option<&str>,
    after: Option<&str>,
) -> (r: Result<NodeId, String>)
    ensures
        exists|d: Seq<Seq<char>>|
            #![trigger mint_from(node_type@, d, 0)]
            lists_ids_once(d, old(doc).nodes@) && match place_spec(
                node_views(old(doc).nodes@),
                new_node_view(mint_from(node_type@, d, 0), node_type@, inputs@),
                opt_text(parent),
                opt_text(before),
                opt_text(after),
            ) {
                Ok(v) => r matches Ok(id) && id.0@ == mint_from(node_type@, d, 0) && node_views(final(doc).nodes@) == v
                    && final(doc).template == old(doc).template && final(doc).inputs == old(doc).inputs
                    && final(doc).images == old(doc).images,
                Err(m) => r matches Err(e) && e@ == m && node_views(final(doc).nodes@) == node_views(old(doc).nodes@)
                    && final(doc).template == old(doc).template && final(doc).inputs == old(doc).inputs
                    && final(doc).images == old(doc).images,
            },
        r matches Ok(id) ==> !forest_ids(old(doc).nodes@).contains(id.0@),
{
    let ids = doc.node_ids();
    let id = NodeId::mint(node_type, ids.as_slice());
    let ghost d = id_views(ids@);
    proof {
        law_mint_fresh(node_type@, d);
        assert(!forest_ids(doc.nodes@).contains(id.0@));
    }
    let node = Node {
        id: NodeId(string_of(chars_of(id.0.as_str()).as_slice())),
        component: string_of(chars_of(node_type).as_slice()),
        inputs,
        children: Vec::new(),
    };
    proof {
        assert(node_views(node.children@) =~= Seq::<NodeV>::empty());
        assert(node_view(node) == new_node_view(id.0@, node_type@, node.inputs@));
    }
    let ghost old_doc = *doc;
    match place_node(&mut doc.nodes, node, parent, before, after) {
        Ok(()) => {
            assert(lists_ids_once(d, old_doc.nodes@));
            Ok(id)
        },
        Err(e) => {
            assert(lists_ids_once(d, old_doc.nodes@));
            Err(e)
        },
    }
}



// ---------------------------------------------------------------------------
// The STATE section of an authoring document.
// ---------------------------------------------------------------------------

/// One JSON line as a STATE line: behind `// `, or `//` alone for an empty
/// line, so that the section is inert Typst.
pub open spec fn encode_line(l: Seq<char>) -> Seq<char> {
    if l.len() == 0 {
        "//"@
    } else {
        "// "@ + l
    }
}

/// One STATE line back as JSON: without its `// ` (or `//`) prefix.
pub open spec fn decode_line(l: Seq<char>) -> Seq<char> {
    if is_prefix("// "@, l) {
        l.skip(3)
    } else if is_prefix("//"@, l) {
        l.skip(2)
    } else {
        l
    }
}

/// The STATE section that holds a JSON text: each of its lines encoded,
/// joined by `\n`.
pub open spec fn encode_state_spec(json: Seq<char>) -> Seq<char> {
    join(lines(json).map_values(|l: Seq<char>| encode_line(l)), seq!['\n'])
}

/// The JSON text a STATE section holds: each of its lines decoded, joined
/// by `\n`.
pub open spec fn decode_state_spec(state: Seq<char>) -> Seq<char> {
    join(lines(state).map_values(|l: Seq<char>| decode_line(l)), seq!['\n'])
}

/// Comment-prefix each line of `json` so the STATE block is inert Typst.
pub fn encode_state(json: &str) -> (r: String)
    ensures
        r@ == encode_state_spec(json@),
{
    let cs = chars_of(json);
    let ls = lines_of(cs.as_slice());
    let mut out: Vec<Vec<char>> = Vec::new();
    let mut i: usize = 0;
    proof {
        reveal_strlit("//");
        reveal_strlit("// ");
    }
    while i < ls.len()
        invariant
            i <= ls@.len(),
            out@.len() == i,
            forall|k: int| 0 <= k < i ==> #[trigger] out@[k]@ == encode_line(ls@[k]@),
        decreases ls@.len() - i,
    {
        let line = if ls[i].len() == 0 {
            chars_of("//")
        } else {
            let mut l = chars_of("// ");
            push_all(&mut l, ls[i].as_slice());
            l
        };
        out.push(line);
        i = i + 1;
    }
    let sep = vec!['\n'];
    let r = join_exec(out.as_slice(), sep.as_slice());
    proof {
        assert(sep@ =~= seq!['\n']);
        assert(views(out@) =~= views(ls@).map_values(|l: Seq<char>| encode_line(l)));
    }
    string_of(r.as_slice())
}

/// Strip the `// ` comment prefix from each STATE line, recovering the JSON.
pub fn decode_state(state: &str) -> (r: String)
    ensures
        r@ == decode_state_spec(state@),
{
    let cs = chars_of(state);
    let ls = lines_of(cs.as_slice());
    let p3 = chars_of("// ");
    let p2 = chars_of("//");
    let mut out: Vec<Vec<char>> = Vec::new();
    let mut i: usize = 0;
    while i < ls.len()
        invariant
            i <= ls@.len(),
            out@.len() == i,
            p3@ == "// "@,
            p2@ == "//"@,
            forall|k: int| 0 <= k < i ==> #[trigger] out@[k]@ == decode_line(ls@[k]@),
        decreases ls@.len() - i,
    {
        let l = &ls[i];
        proof {
            reveal_strlit("//");
            reveal_strlit("// ");
        }
        let line = if starts_with(l.as_slice(), p3.as_slice()) {
            slice_vec(l.as_slice(), 3, l.len())
        } else if starts_with(l.as_slice(), p2.as_slice()) {
            slice_vec(l.as_slice(), 2, l.len())
        } else {
            crate::text::to_vec(l.as_slice())
        };
        proof {
            assert(line@ =~= decode_line(l@));
        }
        out.push(line);
        i = i + 1;
    }
    let sep = vec!['\n'];
    let r = join_exec(out.as_slice(), sep.as_slice());
    proof {
        assert(sep@ =~= seq!['\n']);
        assert(views(out@) =~= views(ls@).map_values(|l: Seq<char>| decode_line(l)));
    }
    string_of(r.as_slice())
}

/// Reading back the STATE section: decoding the section that encodes a
/// JSON text gives that text, when it holds no carriage return and does not
/// end with a line feed.
pub proof fn law_decode_encode_state(json: Seq<char>)
    requires
        free_of(json, '\r'),
        !(json.len() > 0 && json.last() == '\n'),
    ensures
        decode_state_spec(encode_state_spec(json)) == json,
{
    reveal_strlit("//");
    reveal_strlit("// ");
    let ls = lines(json);
    lemma_lines_free(json);
    let e = ls.map_values(|l: Seq<char>| encode_line(l));
    assert forall|k: int| 0 <= k < e.len() implies free_of(#[trigger] e[k], '\n') by {
        assert(free_of(ls[k], '\n'));
        if ls[k].len() > 0 {
            assert(e[k] == "// "@ + ls[k]);
        }
    }
    assert forall|k: int| 0 <= k < e.len() implies !(#[trigger] e[k].len() > 0 && e[k].last() == '\r') by {
        assert(free_of(ls[k], '\r'));
        if ls[k].len() > 0 {
            assert(e[k].last() == ls[k].last());
        }
    }
    lemma_lines_join(e);
    let d = e.map_values(|l: Seq<char>| decode_line(l));
    assert forall|k: int| 0 <= k < d.len() implies #[trigger] d[k] == ls[k] by {
        assert(d[k] == decode_line(e[k]));
        assert(e[k] == encode_line(ls[k]));
        if ls[k].len() > 0 {
            assert(e[k] == "// "@ + ls[k]);
            assert(e[k].subrange(0, 3) =~= "// "@);
            assert(is_prefix("// "@, e[k]));
            assert(e[k].skip(3) =~= ls[k]);
        } else {
            assert(e[k] == "//"@);
            assert(!is_prefix("// "@, e[k]));
            assert(e[k].subrange(0, 2) =~= "//"@);
            assert(is_prefix("//"@, e[k]));
            assert(e[k].skip(2) =~= ls[k]);
        }
    }
    assert(d =~= ls);
    lemma_join_lines(json);
}


/// The JSON text of the document model that an authoring document (found
/// at `path`) keeps in its STATE section. A text that is not a
/// four-section document, or whose sections cannot be found, is refused.
pub fn document_json(src: &str, path: &str) -> (r: Result<String, Error>)
    ensures
        !is_four_section_spec(src@) ==> (r matches Err(e) && e is FatFile && e->FatFile_0@
            == "not a four-section authoring document: "@ + path@),
        is_four_section_spec(src@) ==> match extract_spec(src@) {
            Ok(secs) => r matches Ok(j) && j@ == decode_state_spec(secs.0),
            Err(m) => r matches Err(e) && e is FatFile && e->FatFile_0@ == missing_marker_message(m),
        },
{
    if !is_four_section(src) {
        let mut m = chars_of("not a four-section authoring document: ");
        push_str(&mut m, path);
        return Err(Error::FatFile(string_of(m.as_slice())));
    }
    let sections = extract(src)?;
    Ok(decode_state(sections.state.as_str()))
}

/// The text of an authoring document whose STATE section holds `json`: the
/// other sections are kept from `existing` when that is a four-section
/// document, and empty otherwise.
pub fn write_document_text(existing: Option<&str>, json: &str) -> (r: Result<String, Error>)
    ensures
        match existing {
            Some(src) if is_four_section_spec(src@) => match extract_spec(src@) {
                Ok(secs) => r matches Ok(t) && t@ == compose_spec(encode_state_spec(json@), secs.1, secs.2, secs.3),
                Err(m) => r matches Err(e) && e is FatFile && e->FatFile_0@ == missing_marker_message(m),
            },
            _ => r matches Ok(t) && t@ == compose_spec(encode_state_spec(json@), seq![], seq![], seq![]),
        },
{
    let empty = FatFileSections {
        state: String::new(),
        template: String::new(),
        document: String::new(),
        images: String::new(),
    };
    let mut sections = match existing {
        Some(src) => if is_four_section(src) {
            extract(src)?
        } else {
            empty
        },
        None => empty,
    };
    sections.state = encode_state(json);
    compose(&sections)
}


/// Reading back a written document: the text [`write_document_text`]
/// writes for a new document holding `json` is a four-section document,
/// its sections extract as the encoded STATE and three empty sections, and
/// its STATE decodes to `json` — so [`document_json`] gives `json` back.
/// This holds when `json` has no carriage return, does not end with a line
/// feed, and has no line that reads `=== TEMPLATE ===` once its trailing
/// whitespace is removed (as pretty-printed JSON never does).
pub proof fn law_read_after_write_document(json: Seq<char>)
    requires
        free_of(json, '\r'),
        !(json.len() > 0 && json.last() == '\n'),
        forall|k: int| 0 <= k < lines(json).len() ==> trim_end(#[trigger] lines(json)[k]) != "=== TEMPLATE ==="@,
    ensures
        is_four_section_spec(compose_spec(encode_state_spec(json), seq![], seq![], seq![])),
        extract_spec(compose_spec(encode_state_spec(json), seq![], seq![], seq![])) == Ok::<_, Seq<char>>(
            (encode_state_spec(json), Seq::<char>::empty(), Seq::<char>::empty(), Seq::<char>::empty()),
        ),
        decode_state_spec(encode_state_spec(json)) == json,
{
    reveal_strlit("//");
    reveal_strlit("// ");
    reveal_strlit("=== TEMPLATE ===");
    reveal_strlit("// === TEMPLATE ===");
    let e = Seq::<char>::empty();
    let st = encode_state_spec(json);
    law_decode_encode_state(json);
    crate::fatfile::law_compose_is_four_section(st, e, e, e);
    let ls = lines(json);
    lemma_lines_free(json);
    let enc = ls.map_values(|l: Seq<char>| encode_line(l));
    assert forall|k: int| 0 <= k < enc.len() implies free_of(#[trigger] enc[k], '\n') && !(enc[k].len() > 0
        && enc[k].last() == '\r') && trim_end(enc[k]) != crate::fatfile::markers::TEMPLATE@ by {
        assert(free_of(ls[k], '\n'));
        assert(free_of(ls[k], '\r'));
        if ls[k].len() > 0 {
            assert(enc[k] == "// "@ + ls[k]);
            assert(enc[k].last() == ls[k].last());
            crate::text::lemma_trim_end_append("// "@, ls[k]);
            if trim_end(ls[k]).len() > 0 {
                if trim_end(enc[k]) == crate::fatfile::markers::TEMPLATE@ {
                    assert(trim_end(ls[k]) =~= crate::fatfile::markers::TEMPLATE@.skip(3));
                    assert(crate::fatfile::markers::TEMPLATE@.skip(3) =~= "=== TEMPLATE ==="@);
                }
            } else {
                assert(trim_end("// "@) =~= "//"@) by {
                    let t = "// "@;
                    assert(t.len() == 3 && t.last() == ' ');
                    assert(crate::text::is_ws(' '));
                    assert(trim_end(t) == trim_end(t.drop_last()));
                    assert(t.drop_last() =~= "//"@);
                    assert("//"@.last() == '/');
                    assert(!crate::text::is_ws('/'));
                }
            }
        } else {
            assert(enc[k] == "//"@);
        }
    }
    if enc.len() > 0 {
        crate::text::lemma_split_join(enc);
    } else {
        assert(st =~= Seq::<char>::empty());
        crate::text::lemma_split_lf_no_lf(st);
    }
    assert(crate::fatfile::keeps_line_ends(st));
    assert(crate::fatfile::has_no_marker_line(st, crate::fatfile::markers::TEMPLATE@));
    crate::text::lemma_split_lf_no_lf(e);
    reveal_strlit("// === DOCUMENT ===");
    reveal_strlit("// === IMAGES ===");
    crate::fatfile::law_extract_compose(st, e, e, e);
}

// ---------------------------------------------------------------------------
// Transactions.
// ---------------------------------------------------------------------------

/// A single authoring transaction over a working document.
pub struct AuthoringTransaction {
    document: Document,
}

impl AuthoringTransaction {
    /// The document the transaction is working on.
    pub closed spec fn working(&self) -> Document {
        self.document
    }

    /// Begin a transaction over an already-parsed document.
    pub fn new(document: Document) -> (t: AuthoringTransaction)
        ensures
            t.working() == document,
    {
        AuthoringTransaction { document }
    }

    /// Borrow the working document.
    pub fn document(&self) -> (d: &Document)
        ensures
            *d == self.working(),
    {
        &self.document
    }

    /// Validate the working document. No rule refuses a document yet, so
    /// every document passes.
    pub fn validate(&self) -> (r: Result<(), Error>)
        ensures
            r is Ok,
    {
        Ok(())
    }

    /// Commit the transaction, giving back the working document once it
    /// validates.
    pub fn commit(self) -> (r: Result<Document, Error>)
        ensures
            r == Ok::<Document, Error>(self.working()),
    {
        self.validate()?;
        Ok(self.document)
    }
}

} // verus!
