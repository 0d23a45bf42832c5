//! Verified core of a parallel block-level file copier.
//!
//! The crate holds the decisions of the copy engine as functions on plain
//! values, each with a contract that Verus proves:
//!
//! - `ranges`: byte ranges, sparse extents, and the merge of extents into the
//!   canonical list of ranges that covers the same offsets;
//! - `blocks`: cutting a range into block-sized copy tasks that tile it;
//! - `planner`: the plan of one file (reflinked, sparse, or whole) and the
//!   block tasks of a plan;
//! - `cursor`: handing the tasks of a plan out one at a time;
//! - `schedule`: a model of the copy, and the law that the tasks of a plan,
//!   run in any order, reproduce the source;
//! - `status`: status updates and their aggregation into totals;
//! - `paths`, `walker`: where an entry of the source tree lands, and what is
//!   done with it;
//! - `driver`: the engine's settings, its pool, and its outcomes.
//!
//! File handles, threads and channels live with the caller, which performs
//! each action and hands back what came of it.

pub mod errors;
pub mod options;
pub mod paths;
pub mod status;
pub mod ranges;
pub mod blocks;
pub mod planner;
pub mod cursor;
pub mod schedule;
pub mod walker;
pub mod driver;
