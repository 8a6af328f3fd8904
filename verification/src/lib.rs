//! An in-process streaming analytics engine over timevectors: chains of
//! lightweight transforms evaluated over ordered (timestamp, value) points
//! and terminated in incremental, mergeable summary aggregates.
//!
//! - `pipeline` holds the transform elements and their evaluator;
//! - `fuse` collapses "apply a pipeline, then reduce" into one fused unit
//!   and proves the rewrite changes no result;
//! - `stats`, `counter` and `cardinality` are the mergeable reducers:
//!   running moments, reset-aware counter deltas, and an approximate
//!   distinct-count sketch;
//! - `topk` and `topk_laws` hold the bounded top-K-by aggregate and the
//!   proofs that its merge is a commutative monoid on retained sets;
//! - `codec` persists fused pipelines and aggregate states in a versioned
//!   byte layout, with proved round trips;
//! - `ratio` and `wrap` carry the exact-rational results and the wrapped
//!   arithmetic the accumulators use.

mod point;
pub mod cardinality;
pub mod codec;
pub mod counter;
pub mod fuse;
pub mod pipeline;
pub mod ratio;
pub mod stats;
pub mod topk;
pub mod topk_laws;
pub mod wrap;

pub use point::Point;
pub use pipeline::{Element, Pipeline};
pub use ratio::Ratio;
pub use stats::StatsState;
pub use counter::{CounterState, CounterBounds, CounterError};
pub use cardinality::{SketchState, CardinalityError};
pub use topk::{TopKState, Direction, TopKError};
pub use fuse::{TerminalSpec, TerminalKind, FusedPipeline, try_fuse};
pub use codec::DecodeError;
