# agent_toolkit

Local-first document retrieval for a grounded chat assistant, written in Rust and
verified with Verus. Documents are chunked, embedded on this machine, stored in
SQLite, and found by keyword, by similarity, or by both at once; the best passages
go into the context of any chat model with an OpenAI-compatible API.

- `src/` is the library. Everything it decides or computes has a contract that
  Verus proves: chunking, the keyword index, fusion of rankings, what is written to
  the store, how the index is rebuilt, the document context, the turns of a chat,
  session memory, the tools of the model, the settings, and the replies of the
  server. The promises that span several functions are public proof functions:
  `rag/chunk_laws.rs`, `rag/bm25_laws.rs`, `rag/rebuild_laws.rs`, `rag/laws.rs`,
  `rag/history_laws.rs`, `calc_laws.rs`, and the laws that stand in the other
  modules beside what they speak of.
- `app/` is the server around it: HTTP, SQLite, the embedding model, files, the
  environment, and the arithmetic on floating-point scores.
- `tests/` runs the library on concrete values.

Scores and similarities are held in the library by their bit patterns
(`rag/score.rs`), which is all that comparing them takes.

What the library trusts without proof: `char::is_alphanumeric`,
`str::to_lowercase`, `String::push` and `String::push_str`, the clock,
`uuid::Uuid::new_v4`, and `serde_json` reading a value and writing it again. Each
has a doc comment that says what is claimed of it.
