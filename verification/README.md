# graphodoc

A Markdown knowledge base as a graph: documents, the concepts they link with
`[[Target]]`, their `#tags` and their significant keywords become nodes; links,
tags and keywords become edges. The library computes the graph and answers the
queries on it (search, document content, neighbourhood, multi-hop traversal
along edges from source to target), each function with a
contract proved by Verus.

- `src/node_id.rs` — node addresses: documents, concepts below a document,
  hashed tags and keywords; the hexadecimal text form and how it reads back.
- `src/text.rs` — plain text and keywords of a Markdown document (tokens,
  English stop words removed, stems), wiki links, tags, and the document record,
  addressed by its scan index.
- `src/graph.rs` — keyword statistics for TF-IDF and the graph of a corpus.
- `src/query.rs`, `src/traverse.rs` — search, neighbourhood, traversal.
- `src/sidebar.rs`, `src/local_view.rs` — the document list and the local graph
  that the viewer shows.
- `src/hex.rs`, `src/chars.rs`, `src/model.rs` — hexadecimal digits, characters,
  and the data types.

`app/` holds the command line, the indexer and the REST server, which read and
write files and the database and hand plain values to the library.
