# fulltext_search

A full-text search engine over an inverted index, written in Verus.

Words are the space-separated pieces of a text, each with its whitespace
and ASCII punctuation removed. For every word of a document, the index
keeps, under the word's UTF-8 bytes, the bincode encoding of the list of `(document id, position)` pairs
at which the word occurs. A query looks up each of its words (stopwords
aside), and the occurrences found are ranked: occurrences of one document
that lie close together form a group, and larger groups come first.

Layout:

- `src/kv.rs`: the key-value store interface (`KVStore`), with its
  contents as a map of byte strings and the list of failures it has
  reported (which is why reading takes `&mut`), and `MemoryStore`, an
  in-memory store that records its writes. Every operation on the index
  passes on the failure the store reported, and says how far it got.
- `src/db/rocks.rs`: indexing, dropping and re-indexing documents, and
  looking up queries; the laws that relate them (what indexing appends,
  what dropping removes, dropping undoes indexing, dropping twice is
  dropping once, a query finds what was indexed, operations touch only the
  keys of their words).
- `src/db/ranking.rs`: sorting, grouping and ranking occurrences, with the
  laws on the ranking's order and group sizes, its independence of the
  input order, that a wider window never gives more groups, that groups
  come only from documents found, and that bounded positions and windows
  rank in range.
- `src/db/mod.rs`: searches, and turning ranked groups into results with
  the words around each hit.
- `src/db/codec.rs`: the byte format of a stored list, and the calls to
  bincode.
- `src/db/text.rs`, `src/db/helper.rs`, `src/db/sqlite.rs`: text splitting
  and joining, records and word normalisation, and what an edit writes.
- `app/`: the web server (actix-web), RocksDB and SQLite. Each operation
  loads the index entries of its words into a `MemoryStore`, runs there,
  and its writes are then made in RocksDB in order.
