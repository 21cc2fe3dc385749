# nordocs

The document model, file formats and rules of the nordocs Typst toolset,
written in Verus: every function of the library carries a contract that the
verifier proves.

## Layout

- `src/` — the verified library.
  - `text` — character-sequence specifications and their executable helpers.
  - `model`, `inputs`, `doctree` — the document model, sorted input maps, and
    edits of the node tree (find, add, remove, set an input).
  - `fatfile` — the three `.ndoc.typ` formats: the four-section authoring
    file (with its IMAGES section), the entry document, and the composed
    document.
  - `markdown`, `xml` — Markdown to Typst, read from the CommonMark XML that
    `comrak` writes.
  - `schema`, `validation`, `item` — the catalogue of component and template
    schemas, document validation, and item collections.
  - `authoring`, `preview`, `commands`, `cli`, `ffi` — document editing,
    preview composition, and what the command-line tool and the C ABI
    decide.
- `tests/` — tests of the library.
- `app/` — the `ndoc` program: argument parsing, files, the embedded Typst
  compiler, JSON/YAML (de)serialisation, and the C ABI exports.

## Trust

Calls into `comrak`, `serde_yaml_ng`, `serde_json`, `base64` and `blake3`
stand behind small wrappers marked `external_body`; each names or states
what the outside function returns, and its doc comment says what is not
proved.
