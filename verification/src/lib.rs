//! Verified core of the Tachiom late-interaction retrieval index.
//!
//! The crate holds the integer logic of the index: the centroid-budget allocation of
//! Token-Aware Clustering, the inverted lists that map centroids to documents, the
//! candidate selection of the search pipeline, the NumPy header reader used by the
//! command-line tools, and the switch for per-stage build timings.

pub mod layout;
pub mod doc_sets;
pub mod npy;
pub mod ordering;
pub mod ranking;
pub mod search;
pub mod tac;
pub mod tachiom;
pub mod timing;
