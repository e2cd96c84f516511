//! Content-based image retrieval over binary feature descriptors: an
//! append-only descriptor store, a multi-probe locality-sensitive hash index
//! queried by Hamming distance, and vote-based ranking of stored images.
pub mod config;
pub mod dbfile;
pub mod hamming;
pub mod index;
pub mod matching;
pub mod search;
pub mod store;
