//! Merging of independently sorted streams of record batches into one stream
//! ordered by each batch's first timestamp, with the streams' schemas
//! reconciled into one unified schema.
//!
//! - `merge`: the k-way merge by key, as a priority structure over the heads
//!   of the streams and as a whole-merge order over key sequences.
//! - `batch`: a merge session that holds one head batch per stream.
//! - `schema`: schema reconciliation and the column plan that adapts a batch
//!   to the unified schema.
//! - `error`: the errors of opening, reconciling and merging.

pub mod batch;
pub mod error;
pub mod merge;
pub mod schema;
