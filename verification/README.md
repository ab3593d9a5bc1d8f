# vsdx_edit

The verified core of a collaborative VSDX diagram editor. The functions in `src/` carry
contracts that Verus proves, except a few trusted ones marked `#[verifier::external_body]`
whose contracts are believed: `push_char` and `push_str` (std's `String::push` and
`push_str`), `debug_string` (std's `Debug` quoting of a string) and
`decode_state_vector_prefix` (yrs's `StateVector::decode`), and in `session` the yrs calls that
create, copy, merge, read, reorder and encode a session document. `app/` holds the JSON boundary,
serde copies of the library's values, the decoding of whole peer updates (yrs's
`Update::decode`, which the library cannot guard against panicking), the floating-point part
of connector routing, and the error text shown to callers.

Modules of the library:

- `model`: the values an editing session exchanges with its callers.
- `text`: character-level helpers (decimal spelling, trimming, UTF-8 lengths).
- `session_ids`, `updates`, `observe`: client IDs, the size limit on peers' updates, decoding
  peers' state vectors, and the bounded queue of observed updates.
- `policy`: gestures, locks, shape-data refusals, row indices.
- `sheet_refs`, `renumber`: finding and renumbering `Sheet.N!` references, and the proof
  that renumbering rewrites exactly the references it is asked to.
- `orders`, `shape_tree`, `cell_records`, `stored_glue`: repairing merged ID lists; walking and
  checking a page's shape tree, parent chains and stories; reading cell records back into
  locators; and checking and listing stored glue, all over a plain model of the document's
  maps.
- `connect`: glue endpoints, keys, targets and projection to source IDs.
- `containers`: container membership, transitively and upwards.
- `xml`, `markup`: escaping and the `<Shape>` XML of added shapes.
- `structural`: deletes and moves that turn the package order into the session order.
- `allocate`: source IDs for added shapes.
- `paste`, `args`, `content`: pasted subtrees, browser arguments, shape text and copyability.
- `flatten`: flattening a shape-tree draft into pre-order nodes, with its depth, glue and
  copy-source checks.
- `paste_plan`: the checks a paste makes against the live document and the plan it writes
  (fresh identities, source IDs, remapped identities, carried glue).
- `tree_glue`, `subtree`: the glue wholly inside a copied subtree, and the walk that finds
  the subtree's shapes.
- `deletes`: planning a batch of deletions (order, subtrees, receipts).
- `route`: the Geometry rows a hand-drawn connector route is written to.
- `remote`: the checks a peer's update must pass (masters, fixed topology).
- `protect`, `identity`: save baselines and protected cells a peer may not touch, and shape
  identities and provenance a peer may not rewrite.
- `session`: the collaborative session: its yrs document, read through a plain model of its
  maps and arrays; the peer updates it takes in once a staged copy, its page order repaired,
  keeps the metadata, the pages, the shapes' fixed fields and cells, identities, provenance
  and baselines; page reordering; shape text; and the encodings it hands out.
- `schema`: the schema check of a session document.
- `seed`: what seeding one package shape writes.
- `materialize`: writing a session cell back into its package shape.
- `snapshot`: a shape's snapshot: its cells, their cached values and order, and its children.
