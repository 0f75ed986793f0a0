# trail

Trail builds a static documentation site from a directory tree of products,
anthologies, topics, books and markdown articles. This crate holds its core as
a library verified with Verus; the command-line program around it lives in
`app/`.

## Layout

- `src/` — the verified library. Each module states its rules as spec
  functions and proves its executable code against them:
  - `validate`, `load`, `site`: the naming rules of the content tree and the
    site model it loads into;
  - `links`, `linking`: `~` cross-references and `.link` stubs;
  - `tabs`, `markdown`, `markup`, `outline`, `article`, `prose`, `highlight`,
    `images`, `refs`: rendering article markdown to HTML (heading ids, the
    "On this page" outline, code highlighting, images, admonitions, inline
    references and RFC keywords);
  - `mirror`, `export`, `json`, `search`, `render`, `rollup`, `cli`: the
    markdown mirrors, the AI-facing text surface, `site.json`, the search
    queue, template inputs, reading-time roll-ups and build options;
  - `text`: character-level helpers shared by all of the above.
- `tests/` — tests of the library on concrete inputs.
- `app/` — `main`, file and network I/O, templates and the development
  server: the parts that call the library and do not need proofs.

Outside crates (pulldown-cmark, syntect, two-face, aho-corasick, imagesize)
are reached from `src/` through small trusted wrappers whose contracts say
what each call returns; everything around those calls is verified.
