# doc_indexer

An in-memory full-text index for documents grouped under named indices, with
Chinese text matched by its characters, its full pinyin and its pinyin
initials, and misspelled terms found through a trigram index. The library is
written in Verus: each operation states what it does in `requires`/`ensures`
over an abstract view of the index, and the properties that tie operations
together are proved as lemmas.

## Layout

- `src/strmap.rs` — `StrMap` and `StrSet`, string-keyed collections viewed as
  `Map` and `Set`.
- `src/text.rs` — tokenizing, trigrams, detection of Chinese characters,
  pinyin readings (through the `pinyin` crate).
- `src/types.rs` — the stored data (`DocData`, `TermPosting`,
  `TermFrequency`, `SnapshotData`, `InMemoryIndex`) and their views.
- `src/docbuild.rs` — building a document's positions and counts from its
  tokens.
- `src/index.rs` — adding, removing and reading documents; dirty and deleted
  tracking; match positions for highlighting; snapshots out.
- `src/snapshot.rs` — restoring a named index from a snapshot.
- `src/fuzzy.rs` — the trigram index and fuzzy candidates.
- `src/highlight.rs` — stable ordering of match ranges.
- `src/search.rs` — what a search tries in each mode, and what BM25 and fuzzy
  ranking work on.
- `src/laws.rs` — properties across operations: read-back, consistency of the
  postings, dictionary and trigram index with the documents, totals as sums
  of document lengths, snapshot round trip, removing a fresh document undoing
  its addition, undoing additions to the trigram index.
- `app/` — BM25 and fuzzy scoring (floating point, `strsim`) and the serde
  forms of the saved data.
