# md_editor

The verified core of a desktop workspace for markdown notes and PDFs: the
rules behind links, search, navigation, the knowledge graph and the vault
checks, each stated as a contract and proved with Verus.

## Layout

- `src/` — the library, verified by Verus.
  - `text`, `paths`, `path_set` — string, path and path-set helpers, and the
    few std calls they rest on.
  - `pdf_link` — `pdf://` links: percent coding, building and parsing, with the
    round trip proved.
  - `fuzzy` — fuzzy matching and scoring for the quick switcher.
  - `navigation` — back/forward history over notes and PDF pages.
  - `editor` — selections, selected text, block scan windows, broken-link
    detection and the block context menu.
  - `integrity` — which references in a vault point at missing files,
    deleted annotations or moved paths.
  - `graph`, `graph_stats`, `graph_rank`, `graph_rings`, `fnv` — the knowledge
    graph: its refresh protocol, scope and filters, pins, insights,
    connected components, hub ranking, the ring structure the layout draws,
    and the stable hash that seeds it.
  - `pdf_toc`, `pdf_render`, `pdf_annotations` — the PDF viewer: its table
    of contents, the render generation protocol and page bookkeeping (with
    the bounded page-text cache), and annotation tags, status and export.
  - `ink_history` — the stacking order and undo/redo history of an ink page,
    with every edit and every gesture proved to undo as one step.
  - `cli` — command-line actions, the desktop entry and the installed icons.
  - `ink`, `overlays`, `search`, `workspace`, `messages` — small state
    machines of the interface.
- `tests/` — tests run against the compiled library.
- `app/` — the executable: command-line handling, file system and database
  access, serialisation, and the floating-point parts (graph layout and
  physics, ink geometry, and the pen samples of the ink document) that Verus
  does not verify.
