# simplethinktank

The logic of a local, private knowledge-base assistant (retrieval-augmented
question answering over documents, with a local model service), written in
Verus and proved against its contracts.

## Layout

- `src/` — the verified library.
  - `chunking/` — the splitting strategies (fixed windows, recursive
    separators, Markdown sections and paragraphs, semantic sentences, and the
    model-assisted session), the sentence splitter, the parsing of the
    model's split points, and the laws about chunk sizes, numbering,
    sentence boundaries, grouping at cut points and blank texts.
  - `ollama/` — the model service: client configuration and the HTTP client
    it builds (with the timeouts and proxy handed to it), download retries, model names, the newline-delimited JSON
    stream framing, process ownership and shutdown steps.
  - `config.rs` — directories and settings, with the key/value form they are
    stored in.
  - `documents.rs`, `parsing.rs` — import checks, content hashes, format
    detection, text decoding and the text of Word documents.
  - `rag.rs` — the prompts built from retrieved chunks and the conversation.
  - `models.rs`, `stats.rs`, `error.rs`, `text.rs`, `numfmt.rs` — records,
    storage statistics, errors, and text and number helpers.
- `tests/` — tests of the library on concrete values.
- `app/` — the application around it: SQLite and the vector store, HTTP
  calls, files, processes, background imports and the commands.
