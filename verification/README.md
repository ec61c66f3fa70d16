# aurora

The verified core of a small web browser and of the protocol bridge that
travels with it. The library is written in Verus: every function in `src/`
carries a `requires`/`ensures` contract, and Verus proves the bodies against
them.

## Layout

- `src/` — the library.
  - Documents: `dom` (the tree), `html_lex` and `html` (the HTML tokenizer and
    tree builder), `tree_nav` (paths of child indices), `query` (selector
    engine, searches, text content, serialisation), `classlist` and
    `inline_style` (the `class` and `style` attributes as the script runtime
    sees them).
  - Style: `css` (selectors and computed style maps), `sheet` (style sheets,
    `@import`, custom properties), `style` (the style tree), `sources`
    (where a page's CSS comes from), `edges` and `length` (box shorthands and
    pixel lengths), `colors`.
  - Painting: `cells` (the text-mode frame buffer), `canvas` (the RGBA
    screenshot canvas), `atlas` (glyph packing and blitting), `font`.
  - Network: `fetch` (URLs and reference resolution), `http` (HTTP/1.1
    responses and redirects), `access` (which identity may fetch what).
  - Bridge: `bridge` (AT Protocol records to ActivityPub activities and back,
    signed delivery headers), `identity` (DID resolution addresses),
    `crypto` and `base64`.
  - Shared: `text`, `scan`, `num`, `strmap` (a sorted string map).
  - `cli` — the command-line options of the browser.
- `tests/` — tests of the library, run against the compiled crate.
- `app/` — the program around the library: argument handling, file and
  network I/O, TLS, and JSON conversion.

Calls into outside crates (HMAC-SHA256, gzip, URL parsing, ECDSA signing,
base64url, the clock) stand behind small trusted wrappers whose doc comments
say what their contracts claim of the called function.
