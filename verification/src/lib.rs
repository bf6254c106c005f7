//! Cumulative directory sizes.
//!
//! A traversal reports every path it visits together with a byte count. The
//! aggregator credits each count to the path itself and to every directory
//! above it, up to the traversal root, so that in the end every directory
//! carries the total size of what lies beneath it.
//!
//! - `path`: paths as text, their normal form and their ancestry.
//! - `entry`: what is reported of one path.
//! - `record`: the map from path to total.
//! - `aggregator`: the fold of entries into the record, step by step or in
//!   one go, and what the record is in closed form.
//! - `walker`: what a traversal worker does with one path.
//! - `channel`: the bounded channel between the workers and the aggregator.
//! - `fanout`: the fan-out done by the workers instead of the aggregator.
//! - `tree`: directory trees and what a traversal reports of them.
//! - `laws`: what holds of every aggregation.

pub mod aggregator;
pub mod channel;
pub mod entry;
pub mod fanout;
pub mod laws;
pub mod path;
pub mod record;
pub mod tree;
pub mod walker;
