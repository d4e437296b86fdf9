//! A retrieval-based next-byte predictor.
//!
//! Contexts are windows into a byte corpus. Two contexts are compared by an
//! approximation of the normalized compression distance, the rows of the
//! resulting distance matrix are indexed as points of a "distance space", and
//! the next byte is chosen by a majority vote among the nearest neighbours of
//! the current context.
//!
//! * [`context`]: the corpus, context descriptors, and the table of contexts
//!   with their targets.
//! * [`distance`]: distances as fixed-point numbers, the distance formula,
//!   and the reading of half-precision results.
//! * [`oracle`]: the compressed-length oracle, and what holds of the
//!   distance under an oracle.
//! * [`engine`]: the distance matrix, computed on the host.
//! * [`dispatch`]: what the host decides around a run of the distance
//!   kernel on a compute device.
//! * [`index`]: the spatial index and its nearest-neighbour queries.
//! * [`predictor`]: the vote and the generation loop.
//! * [`error`]: the failures of all of these.

pub mod context;
pub mod dispatch;
pub mod distance;
pub mod engine;
pub mod error;
pub mod index;
pub mod oracle;
pub mod predictor;
mod tree;
