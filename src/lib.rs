//! Query engine over a clipboard history: loading, ranking and resolving entries.

pub mod config;
pub mod listing;
pub mod rank;
pub mod store;
pub mod text;
