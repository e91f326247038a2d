//! Token-Aware Clustering: how the centroid budget is shared among token types.

pub mod round_robin;
pub mod strategies;
