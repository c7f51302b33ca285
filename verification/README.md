# routegraph

Reads reverse proxy configurations (Caddyfiles) and turns them into routing
graphs — client, listeners, hosts, path matchers, middleware, backends — which
it renders as Graphviz DOT or Mermaid text. The library is written in Verus:
every function carries a contract, and Verus proves it.

## Layout

- `src/model.rs` — nodes, edges and `RouteGraph`, with its mathematical view
  (`GraphView`), adjacency lists and validation; the graph's well-formedness
  is its type invariant, so every graph, a clone too, keeps it.
- `src/builder.rs` — the stack-based `RouteGraphBuilder` and its laws (a push
  followed by a pop restores the context; pushing and popping alone build a
  valid tree).
- `src/parse/` — the Caddyfile pipeline: `lexer` (characters to tokens),
  `syntax` (tokens to site blocks), `routes` (site blocks to a graph) and
  `caddy` (the parser and the format detector). Each stage is specified by a
  spec function; `lemma_parsed_graph_is_valid` states that every parsed graph
  validates, is a tree with the `Client` as its root (every other node has
  exactly one parent, and edges go from earlier to later nodes), follows the
  request flow
  `Client → Listener → Host → PathMatch → [Middleware]* → Backend`, and puts
  HTTPS with automatic TLS on every listener on port 443.
- `src/render/` — the DOT and Mermaid renderers, each specified by the exact
  text it produces.
- `src/cli.rs` — the decisions of the command-line tool: format detection and
  selection, renderer selection, and the summary text (with the tree below
  the root, which is whole wherever no cycle is reachable from the root).
- `src/text.rs` — character-level helpers (trimming, searching, splitting,
  decimal numerals) stated over `Seq<char>`.
- `app/main.rs` — the command-line tool: argument parsing and file I/O.
- `tests/` — tests of the library on concrete inputs.
