//! A search engine for static sites: a build configuration listing documents
//! becomes a compact binary index that can be shipped whole and queried
//! offline. The library covers the tokenizer and stemmer, the index builder,
//! the versioned binary codec, and the query engine with prefix and fuzzy
//! matching, ranking, and excerpt extraction; every function carries and
//! meets its contract.

pub mod tokens;
pub mod model;
pub mod config;
pub mod errors;
pub mod stems;
pub mod builder;
pub mod codec;
pub mod search;
pub mod cache;
