//! A full-text search engine over an inverted index: for each word of a
//! document, the index keeps the list of (document id, word position) pairs
//! at which it occurs; queries are answered from those lists and ranked by how
//! many query words occur close together.

pub mod db;
pub mod kv;
