# nilsu

A context extraction daemon for editors and LLM agents: given a Rust source
file and a cursor line, it answers with the narrowest enclosing item (function,
impl, struct, enum, trait or module), its text and its line range, over a Unix
socket with JSON messages.

Layout:

- `src/` is the verified library.
  - `syntax.rs`: the syntax tree as a preorder listing of nodes; the narrowest
    item on a row, attributes counted with the item they decorate; the
    first-child descent, the step past attributes and the walk up to a
    meaningful item; and the laws of these.
  - `source_tree.rs`: parsing Rust source with tree-sitter into its preorder
    listing, and how the listing's rows and bytes relate to the text.
  - `parser.rs`: the context of a cursor line, taken out of the source as UTF-8
    bytes, and its laws.
  - `server.rs`: the client protocol as a step function from state and event to
    the next state and an action, the answers, back-pressure at accept, and the
    protocol's laws.
  - `config.rs`: the daemon's settings.
- `app/` is the daemon itself: reading `config.json`, the tokio socket server
  that runs the protocol of the library, reading source files, and the JSON
  shapes of the messages.
- `tests/` runs the library on hand-made trees, on real Rust source, and
  through the protocol.
