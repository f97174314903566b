# okf

Verified building blocks of the Open Knowledge Format toolkit: concept
documents and their markdown links and headings, the search scorer and
query syntax, the site configuration and the static site's page layout,
and the studio's document renderer and file tree.

The library is written in Verus. Every function states its behaviour in
`requires` / `ensures` over mathematical models (`Seq`, `Set`, spec
functions), and the properties that span functions are stated and proved
as public `lemma_*` proof functions beside the code they speak of.

## Layout

- `src/` — the verified library, one module per concern:
  - `chars`, `text`: character classes and the `str` operations the rest
    is stated over (trimming, splitting, lines, joining).
  - `markdown`: fences, inline code, escapes, headings and their anchor
    slugs, inline links, wikilink expansion, link rewriting.
  - `links`, `concept_id`, `document`, `lifecycle`: links and citations,
    concept identifiers and path resolution, the document shape, trust
    tiers and statuses.
  - `fuzzy`, `search`: the fuzzy scorer (stated as an optimum over all
    placements), the query syntax, ranking, and body search.
  - `slugs`: the per-document heading-anchor allocator.
  - `yaml`, `css`, `config`: configuration values, the closed CSS grammars
    they are checked against, and the stylesheets built from them.
  - `site`: page paths, theme catalog and boot script, escaping for
    scripts, diagrams and `<pre>` blocks, directory listings, anchors.
  - `studio`, `pane`, `file_tree`: the terminal studio's state model, its
    markdown pane renderer, and its file tree.
  - `cli`: exit codes, section-reference stripping, and the command-line
    model.
- `tests/` — tests of the library on concrete values.
- `app/` — the unverified edge: argument parsing, file reading, printing.
