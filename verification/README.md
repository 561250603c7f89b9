# manhattan_spec_parser

Parsing and linting of a flat directory of Markdown spec files, written in
Verus: each library function carries a `requires`/`ensures` contract that
Verus proves.

## Layout

- `src/parse/`: the parser. `corpus.rs` turns a directory walk into the list
  of spec files (`discover_spec_files`) and runs the parse pass
  (`build_parse_result`): per-file front matter, headings and links
  (`file.rs`, `front_matter.rs`, `headings.rs`), the section graph, target
  resolution, orphans and cycles (`cycles.rs`).
- `src/lint/`: structural checks over a parse (`structural.rs`, `api.rs`), the
  lint scope of a `--focus` (`scope.rs`), report order and de-duplication
  (`ordering.rs`), report text and exit codes (`report.rs`), the prompts of the
  semantic checks (`prompts.rs`) and the issues their findings become
  (`semantic.rs`).
- `src/llm/`: the decisions of the chat-completion client and of a
  tool-calling session.
- `src/slug.rs`, `src/text.rs`, `src/order.rs`: heading slugs, text helpers
  and a verified stable sort.
- `src/trusted.rs`: the calls into `regex`, `pulldown-cmark`, `url`,
  `serde_json` and the Unicode tables of `char`, with the contracts that the
  proofs rely on.
- `app/`: the `manhattan` command line: file-system walk and reads, YAML and
  JSON (de)serialisation, HTTP, and output.

The laws of the library (the properties that span several functions, such as
"every reported cycle is a closed walk of the graph, and a graph with a closed
walk gets a cycle reported") are public proof functions next to the
definitions they speak of.
