//! Acoustic fingerprint search: 64-bit chroma fingerprints and a streaming
//! beam search that aligns a query fingerprint stream against registered keys.
pub mod beam;
pub mod fingerprint;
pub mod score;
pub mod search;

pub use fingerprint::{Feature, FeatureExtractorConfiguration};
pub use score::Fraction;
pub use search::{ConfigurationError, Database, DatabaseConfiguration, Query, QueryResult};
