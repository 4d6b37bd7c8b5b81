//! An associative search engine over title-to-children records: a stemmer
//! that normalizes phrases into n-gram lookup keys, on-disk and in-memory
//! stem indexes, a synonym/homophone index, and a multi-stage query
//! pipeline that chains them, tracks provenance, and emits scored
//! association chains.

pub mod chars;
pub mod codec;
pub mod dict;
pub mod fstmap;
pub mod indexer;
pub mod lexord;
pub mod pipeline;
pub mod records;
pub mod request;
pub mod stemmer;
pub mod synonym_index;
