# tryckeri

Arena-based Markdown (MDAST) and HTML (HAST) trees and the text-level
scanners of an MDX parser, written in Verus: every function in `src/` is
verified against its `requires`/`ensures` contract.

Layout of `src/`:

- `node`, `arena`, `builder`, `codec`, `raw_buffer`, `read_arena`: the MDAST
  node arena, its builder (open/close/leaf), the byte codecs of node data and
  the raw wire buffer that a reader views without copying.
- `rebuild`: applying structural patches (replace, remove, wrap, insert
  before or after, prepend or append a child) while copying a tree into a
  new arena.
- `hast`, `html`, `properties`: the HAST arena and builder, HTML rendering of
  wire buffers and arenas (`hast_to_html` in the self-closing style,
  `<br />`; `hast_arena_to_html` and `hast_buffer_to_html` with `<br>`), and
  property-to-attribute names.
- `line_index`: byte offsets to lines, columns and code-point offsets.
- `mdx`, `jsx`: scanners for MDX ESM blocks, JSX tags and `{…}` expressions
  (a small JavaScript lexer), and the parser of a raw JSX tag.
- `label`, `label_nodes`, `jsx_arena`: splitting directive-label text on
  backtick pairs, expressions and JSX elements, and replacing a label's text
  node in the arena by the text, inline-code, expression and JSX element
  nodes of its pieces.
- `autolink`, `autolink_pass`, `autolink_nodes`, `autolink_plan`,
  `autolink_arena`, `source_map`: GFM literal autolinks (URLs, `www.` links
  and emails), the text nodes of an arena that the autolink pass visits, its
  decisions over a text node, the nodes (with source positions) that the text
  is split into, writing those nodes into the arena in place of the text
  node, and the map from text bytes back to their source bytes.
- `mdx_text`: line endings to spaces and tab expansion.
- `ascii`, `text`: byte and character classes, UTF-8 facts and helpers.

The crate depends on `memchr`, called behind small trusted wrappers.
`app/` holds the `Display` form of the wire-buffer error.
