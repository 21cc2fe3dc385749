//! Component / template input schemas and the catalogue.
//!
//! Components (`.ncmp.typ`) and templates (`.ndoct.typ`) declare typed
//! inputs. [`Catalogue::from_builtins`] returns the canonical built-in
//! catalogue used by validation: four structural [`DocumentConstraint`]
//! rules and a handful of built-in component and template schemas.
use vstd::prelude::*;

use crate::model::InputKind;
use crate::text::{chars_eq, chars_of, string_of};

verus! {

/// A single declared input on a component or template.
#[derive(Debug, Clone, PartialEq)]
pub struct InputSchema {
    pub name: String,
    pub kind: InputKind,
    pub required: bool,
}

/// A component's inputs: its declared inputs, then each content block it
/// declares (name and whether it is required) as a `content` input.
pub fn with_content_inputs(inputs: Vec<InputSchema>, content: &Vec<(String, bool)>) -> (r: Vec<InputSchema>)
    ensures
        r@.len() == inputs@.len() + content@.len(),
        forall|k: int| 0 <= k < inputs@.len() ==> #[trigger] r@[k] == inputs@[k],
        forall|j: int|
            0 <= j < content@.len() ==> (#[trigger] r@[inputs@.len() + j]).name@ == content@[j].0@ && r@[inputs@.len()
                + j].kind == InputKind::Content && r@[inputs@.len() + j].required == content@[j].1,
{
    let mut out = inputs;
    let ghost base = out@;
    let mut j: usize = 0;
    while j < content.len()
        invariant
            j <= content@.len(),
            out@.len() == base.len() + j,
            forall|k: int| 0 <= k < base.len() ==> #[trigger] out@[k] == base[k],
            forall|i: int|
                0 <= i < j ==> (#[trigger] out@[base.len() + i]).name@ == content@[i].0@ && out@[base.len() + i].kind
                    == InputKind::Content && out@[base.len() + i].required == content@[i].1,
        decreases content@.len() - j,
    {
        let name = string_of(chars_of(content[j].0.as_str()).as_slice());
        out.push(InputSchema { name, kind: InputKind::Content, required: content[j].1 });
        j = j + 1;
    }
    out
}

/// The parsed schema for one component.
#[derive(Debug, Clone, PartialEq)]
pub struct ComponentSchema {
    pub name: String,
    pub inputs: Vec<InputSchema>,
    /// Whether the component accepts child nodes.
    pub has_body: bool,
    /// Component names permitted as direct children; empty means any.
    pub allowed_children: Vec<String>,
}

/// A `String` holding the characters of `s`.
pub fn owned(s: &str) -> (r: String)
    ensures
        r@ == s@,
{
    let c = chars_of(s);
    string_of(c.as_slice())
}

impl ComponentSchema {
    /// An empty schema for a named component: body-bearing, no inputs, no
    /// child restriction.
    pub fn new(name: &str) -> (s: ComponentSchema)
        ensures
            s.name@ == name@,
            s.inputs@.len() == 0,
            s.has_body,
            s.allowed_children@.len() == 0,
    {
        ComponentSchema {
            name: owned(name),
            inputs: Vec::new(),
            has_body: true,
            allowed_children: Vec::new(),
        }
    }
}

/// The schema for one template: its document-level inputs and the
/// components it permits (empty means all).
#[derive(Debug, Clone, PartialEq)]
pub struct TemplateSchema {
    pub name: String,
    pub document_inputs: Vec<InputSchema>,
    pub allowed_components: Vec<String>,
}

impl TemplateSchema {
    /// An empty schema for a named template.
    pub fn new(name: &str) -> (s: TemplateSchema)
        ensures
            s.name@ == name@,
            s.document_inputs@.len() == 0,
            s.allowed_components@.len() == 0,
    {
        TemplateSchema { name: owned(name), document_inputs: Vec::new(), allowed_components: Vec::new() }
    }
}

/// The declarative category of a structural constraint on a document.
#[derive(Debug, Clone, Copy, PartialEq, Eq, Structural)]
pub enum ConstraintKind {
    /// The document must begin with the `// ndoc document v1` header line.
    HeaderPresence,
    /// All entry names within the document must be unique.
    EntryNameUniqueness,
    /// Every entry `kind=` attribute must be `component` or `template`.
    ValidEntryKind,
    /// A Markdown frontmatter block, if present, must parse as YAML.
    MarkdownFrontmatterValid,
}

/// A single structural rule that must hold for a document to be valid.
#[derive(Debug, Clone, PartialEq)]
pub struct DocumentConstraint {
    pub kind: ConstraintKind,
    /// Human-readable description surfaced when the rule is violated.
    pub description: String,
}

/// The structural rules that apply to all documents.
#[derive(Debug, Clone, PartialEq)]
pub struct DocumentConstraints {
    pub rules: Vec<DocumentConstraint>,
}

impl Default for DocumentConstraints {
    fn default() -> (d: DocumentConstraints)
        ensures
            d.rules@.len() == 0,
    {
        DocumentConstraints { rules: Vec::new() }
    }
}

/// A catalogue of components and templates.
#[derive(Debug, PartialEq)]
pub struct Catalogue {
    pub components: Vec<ComponentSchema>,
    pub templates: Vec<TemplateSchema>,
    pub document_constraints: DocumentConstraints,
}

impl Default for Catalogue {
    fn default() -> (c: Catalogue)
        ensures
            c.components@.len() == 0,
            c.templates@.len() == 0,
            c.document_constraints.rules@.len() == 0,
    {
        Catalogue::new()
    }
}

/// The index of the first component named `name`.
pub open spec fn component_index(cs: Seq<ComponentSchema>, name: Seq<char>) -> Option<int> {
    if exists|i: int| 0 <= i < cs.len() && #[trigger] cs[i].name@ == name {
        Some(
            choose|i: int|
                0 <= i < cs.len() && cs[i].name@ == name && forall|j: int|
                    0 <= j < i ==> #[trigger] cs[j].name@ != name,
        )
    } else {
        None
    }
}

/// The index of the first template named `name`.
pub open spec fn template_index(ts: Seq<TemplateSchema>, name: Seq<char>) -> Option<int> {
    if exists|i: int| 0 <= i < ts.len() && #[trigger] ts[i].name@ == name {
        Some(
            choose|i: int|
                0 <= i < ts.len() && ts[i].name@ == name && forall|j: int|
                    0 <= j < i ==> #[trigger] ts[j].name@ != name,
        )
    } else {
        None
    }
}

/// An input declaration built from its parts.
fn input(name: &str, kind: InputKind, required: bool) -> (i: InputSchema)
    ensures
        i.name@ == name@,
        i.kind == kind,
        i.required == required,
{
    InputSchema { name: owned(name), kind, required }
}

/// A constraint built from its parts.
fn rule(kind: ConstraintKind, description: &str) -> (r: DocumentConstraint)
    ensures
        r.kind == kind,
        r.description@ == description@,
{
    DocumentConstraint { kind, description: owned(description) }
}

/// The built-in catalogue, as plain data: the `heading` and `paragraph`
/// components, the `default` template and the four structural rules.
pub open spec fn is_builtin_catalogue(c: Catalogue) -> bool {
    let cs = c.components@;
    let ts = c.templates@;
    let rs = c.document_constraints.rules@;
    &&& cs.len() == 2
    &&& cs[0].name@ == "heading"@ && cs[0].has_body && cs[0].allowed_children@.len() == 0
    &&& cs[0].inputs@.len() == 2
    &&& cs[0].inputs@[0].name@ == "level"@ && cs[0].inputs@[0].kind == InputKind::Number
        && cs[0].inputs@[0].required
    &&& cs[0].inputs@[1].name@ == "text"@ && cs[0].inputs@[1].kind == InputKind::Content
        && cs[0].inputs@[1].required
    &&& cs[1].name@ == "paragraph"@ && cs[1].has_body && cs[1].allowed_children@.len() == 0
    &&& cs[1].inputs@.len() == 1
    &&& cs[1].inputs@[0].name@ == "text"@ && cs[1].inputs@[0].kind == InputKind::Content
        && cs[1].inputs@[0].required
    &&& ts.len() == 1
    &&& ts[0].name@ == "default"@ && ts[0].allowed_components@.len() == 0
    &&& ts[0].document_inputs@.len() == 1
    &&& ts[0].document_inputs@[0].name@ == "title"@ && ts[0].document_inputs@[0].kind
        == InputKind::String && !ts[0].document_inputs@[0].required
    &&& rs.len() == 4
    &&& rs[0].kind == ConstraintKind::HeaderPresence
    &&& rs[0].description@ == "document must begin with '// ndoc document v1'"@
    &&& rs[1].kind == ConstraintKind::EntryNameUniqueness
    &&& rs[1].description@ == "all entry names within the document must be unique"@
    &&& rs[2].kind == ConstraintKind::ValidEntryKind
    &&& rs[2].description@ == "entry kind must be 'component' or 'template'"@
    &&& rs[3].kind == ConstraintKind::MarkdownFrontmatterValid
    &&& rs[3].description@ == "YAML frontmatter block must parse without errors"@
}

impl Catalogue {
    /// An empty catalogue with no components, templates, or constraints.
    pub fn new() -> (c: Catalogue)
        ensures
            c.components@.len() == 0,
            c.templates@.len() == 0,
            c.document_constraints.rules@.len() == 0,
    {
        Catalogue {
            components: Vec::new(),
            templates: Vec::new(),
            document_constraints: DocumentConstraints { rules: Vec::new() },
        }
    }

    /// The canonical built-in catalogue used by validation.
    pub fn from_builtins() -> (c: Catalogue)
        ensures
            is_builtin_catalogue(c),
    {
        let mut heading_inputs: Vec<InputSchema> = Vec::new();
        heading_inputs.push(input("level", InputKind::Number, true));
        heading_inputs.push(input("text", InputKind::Content, true));
        let mut paragraph_inputs: Vec<InputSchema> = Vec::new();
        paragraph_inputs.push(input("text", InputKind::Content, true));
        let mut components: Vec<ComponentSchema> = Vec::new();
        components.push(
            ComponentSchema {
                name: owned("heading"),
                has_body: true,
                allowed_children: Vec::new(),
                inputs: heading_inputs,
            },
        );
        components.push(
            ComponentSchema {
                name: owned("paragraph"),
                has_body: true,
                allowed_children: Vec::new(),
                inputs: paragraph_inputs,
            },
        );
        let mut doc_inputs: Vec<InputSchema> = Vec::new();
        doc_inputs.push(input("title", InputKind::String, false));
        let mut templates: Vec<TemplateSchema> = Vec::new();
        templates.push(
            TemplateSchema {
                name: owned("default"),
                document_inputs: doc_inputs,
                allowed_components: Vec::new(),
            },
        );
        let mut rules: Vec<DocumentConstraint> = Vec::new();
        rules.push(
            rule(ConstraintKind::HeaderPresence, "document must begin with '// ndoc document v1'"),
        );
        rules.push(
            rule(
                ConstraintKind::EntryNameUniqueness,
                "all entry names within the document must be unique",
            ),
        );
        rules.push(
            rule(ConstraintKind::ValidEntryKind, "entry kind must be 'component' or 'template'"),
        );
        rules.push(
            rule(
                ConstraintKind::MarkdownFrontmatterValid,
                "YAML frontmatter block must parse without errors",
            ),
        );
        Catalogue { components, templates, document_constraints: DocumentConstraints { rules } }
    }

    /// Look up a component schema by name.
    pub fn component(&self, name: &str) -> (r: Option<&ComponentSchema>)
        ensures
            match component_index(self.components@, name@) {
                Some(i) => r == Some(&self.components@[i]),
                None => r is None,
            },
    {
        let target = chars_of(name);
        let mut i: usize = 0;
        while i < self.components.len()
            invariant
                i <= self.components@.len(),
                target@ == name@,
                forall|j: int| 0 <= j < i ==> #[trigger] self.components@[j].name@ != name@,
            decreases self.components@.len() - i,
        {
            let c = chars_of(self.components[i].name.as_str());
            if chars_eq(c.as_slice(), target.as_slice()) {
                proof {
                    let cs = self.components@;
                    assert(cs[i as int].name@ == name@);
                    assert(0 <= i < cs.len() && cs[i as int].name@ == name@ && forall|j: int|
                        0 <= j < i ==> #[trigger] cs[j].name@ != name@);
                    let k = component_index(cs, name@).unwrap();
                    assert(0 <= k < cs.len() && cs[k].name@ == name@ && forall|j: int|
                        0 <= j < k ==> #[trigger] cs[j].name@ != name@);
                    if k < i {
                        assert(cs[k].name@ != name@);
                    }
                    if i < k {
                        assert(cs[i as int].name@ != name@);
                    }
                    assert(k == i);
                }
                return Some(&self.components[i]);
            }
            i = i + 1;
        }
        None
    }

    /// Look up a template schema by name.
    pub fn template(&self, name: &str) -> (r: Option<&TemplateSchema>)
        ensures
            match template_index(self.templates@, name@) {
                Some(i) => r == Some(&self.templates@[i]),
                None => r is None,
            },
    {
        let target = chars_of(name);
        let mut i: usize = 0;
        while i < self.templates.len()
            invariant
                i <= self.templates@.len(),
                target@ == name@,
                forall|j: int| 0 <= j < i ==> #[trigger] self.templates@[j].name@ != name@,
            decreases self.templates@.len() - i,
        {
            let c = chars_of(self.templates[i].name.as_str());
            if chars_eq(c.as_slice(), target.as_slice()) {
                proof {
                    let ts = self.templates@;
                    assert(ts[i as int].name@ == name@);
                    assert(0 <= i < ts.len() && ts[i as int].name@ == name@ && forall|j: int|
                        0 <= j < i ==> #[trigger] ts[j].name@ != name@);
                    let k = template_index(ts, name@).unwrap();
                    assert(0 <= k < ts.len() && ts[k].name@ == name@ && forall|j: int|
                        0 <= j < k ==> #[trigger] ts[j].name@ != name@);
                    if k < i {
                        assert(ts[k].name@ != name@);
                    }
                    if i < k {
                        assert(ts[i as int].name@ != name@);
                    }
                    assert(k == i);
                }
                return Some(&self.templates[i]);
            }
            i = i + 1;
        }
        None
    }
}


/// The YAML of a component or template file: the text between the first
/// `/*---` and the next `---*/`, line breaks trimmed from both ends.
pub open spec fn schema_frontmatter_spec(content: Seq<char>) -> Option<Seq<char>> {
    match crate::text::find(content, "/*---"@) {
        None => None,
        Some(a) => {
            let rest = content.skip(a + 5);
            match crate::text::find(rest, "---*/"@) {
                None => None,
                Some(c) => Some(
                    crate::text::trim_end_set(crate::text::trim_start_set(rest.take(c), seq!['\n', '\r']), seq!['\n', '\r']),
                ),
            }
        },
    }
}

/// Extract the YAML frontmatter of a component or template file (see
/// [`schema_frontmatter_spec`]).
pub fn schema_frontmatter(content: &str) -> (r: Option<String>)
    ensures
        match r {
            Some(y) => schema_frontmatter_spec(content@) == Some(y@),
            None => schema_frontmatter_spec(content@) is None,
        },
{
    let cs = chars_of(content);
    let open = chars_of("/*---");
    let close = chars_of("---*/");
    proof {
        reveal_strlit("/*---");
        reveal_strlit("---*/");
    }
    let a = match crate::text::find_exec(cs.as_slice(), open.as_slice()) {
        Some(a) => a,
        None => {
            return None;
        },
    };
    proof {
        crate::text::lemma_find_from_sound(cs@, open@, 0);
        assert(open@.len() == 5);
        assert(crate::text::occurs_at(cs@, open@, a as int));
        assert(a + 5 <= cs@.len());
        assert(cs@.len() == cs.len());
    }
    let start: usize = a + 5;
    let rest = crate::text::slice_vec(cs.as_slice(), start, cs.len());
    proof {
        assert(rest@ =~= cs@.skip(a + 5));
    }
    let c = match crate::text::find_exec(rest.as_slice(), close.as_slice()) {
        Some(c) => c,
        None => {
            return None;
        },
    };
    proof {
        crate::text::lemma_find_from_sound(rest@, close@, 0);
    }
    let head = crate::text::slice_vec(rest.as_slice(), 0, c);
    let breaks = vec!['\n', '\r'];
    let k = crate::text::trim_start_set_pos(head.as_slice(), breaks.as_slice());
    let mid = crate::text::slice_vec(head.as_slice(), k, head.len());
    let n = crate::text::trim_end_set_len(mid.as_slice(), breaks.as_slice());
    proof {
        assert(breaks@ =~= seq!['\n', '\r']);
        assert(head@ =~= rest@.take(c as int));
    }
    Some(crate::text::slice_string(mid.as_slice(), 0, n))
}

} // verus!
