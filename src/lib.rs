//! Mining token-adjacency graphs for orthotopes: hyper-rectangle patterns
//! whose edges are "follows" relations between the tokens of a corpus.
pub mod assoc;
pub mod bucket;
pub mod config;
pub mod discovery;
pub mod interner;
pub mod multiset;
pub mod ortho;
pub mod repo;
pub mod search;
pub mod text;

pub use bucket::Bucket;
pub use config::{Config, LiteralConfig};
pub use discovery::{create, make_atoms};
pub use interner::{InternError, Interner};
pub use multiset::{LiteralMultiSet, MultiSet};
pub use ortho::{LiteralOrtho, Ortho};
pub use repo::{LiteralRepo, Repo};
pub use search::search;
pub use text::{clean_sentences, split_words};
