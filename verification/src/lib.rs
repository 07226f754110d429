//! A frequency/recency-weighted ("frecency") history of shell command
//! invocations: commands are normalized into keys, their usage statistics are
//! merged on write inside one storage transaction, and retrieval ranks the
//! whole corpus by a blended frequency/recency score.

pub mod codec;
pub mod norm;
pub mod rank;
pub mod record;
pub mod service;
pub mod store;
pub mod text;
