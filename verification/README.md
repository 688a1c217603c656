# mdseek

A local Markdown knowledge-base tool: it parses notes (headings, Markdown and wiki links,
tags), builds an inverted index, finds the notes that match a query, analyses backlinks,
broken links, tags and orphan notes, suggests missing links, scores the health of the
knowledge base, renders Markdown or HTML reports, and keeps a text cache of the notes.

The library under `src/` is written in Verus: every function carries a contract over a
mathematical model of its data, and Verus proves the code against it. The proofs rest on
five small wrappers around the standard library whose contracts are trusted, not proved
(`text.rs`: `char::is_alphanumeric`, `char::is_whitespace`, `str::to_lowercase`,
`String::push`; `error.rs`: the text of an `std::io::Error`). Alphanumeric characters and
lowercasing are left as named functions of their input; white space is stated as the
Unicode `White_Space` set.

The laws of the library are public proof functions beside the code they speak of: for
instance the cache round trip (`storage.rs`), the split of links into backlinks and broken
links (`analyzer.rs`), the shape of postings (`index.rs`), what parsing keeps
(`parser.rs`) and the ranking of link suggestions (`insights.rs`).

- `text.rs`, `paths.rs`, `sort.rs`: characters and texts, Unix paths with the meaning
  `std::path` gives them, and sorting by a total preorder.
- `types.rs`, `tokenizer.rs`, `parser.rs`: documents, terms, and Markdown parsing.
- `index.rs`, `search.rs`: the inverted index and the matching of queries.
- `analyzer.rs`, `insights.rs`: the link graph, tag statistics, link suggestions and the
  health check.
- `report.rs`, `console.rs`: the reports and the texts of the command line.
- `storage.rs`, `scanner.rs`, `cli.rs`, `error.rs`: the cache format, which files are
  notes, argument parsing and errors.

`app/main.rs` is the program around it: it reads directories and files, ranks search
results by their floating-point scores, and prints.
