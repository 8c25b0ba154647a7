//! Greedy, single-pass clustering of pre-aligned sequences.
//!
//! Each sequence is one-hot encoded, compared against every current cluster
//! representative by bit mismatches, and either joins the nearest
//! representative (earliest one on ties) or becomes a new representative.
pub mod encoding;
pub mod distance;
pub mod cluster;

pub use encoding::{decode, encode, encode_symbol};
pub use distance::{bit_mismatches, get_distances, nearest};
pub use cluster::{cluster, format_line, ClusterError, Clusterer};


