//! Pairwise ranking with as few questions as possible.
//!
//! [`rank_items`] ranks a list of items by merge insertion, asking a
//! comparator; [`Stepper`] is the same sort as a machine that stops at every
//! question, for a driver that gets its answers one at a time;
//! [`estimate_turns`] tells how many questions a ranking may take.

pub mod comparator;
pub mod estimate;
pub mod insertion;
pub mod jacobsthal;
pub mod link;
pub mod ordering;
pub mod progress;
pub mod rearrange;
pub mod replay;
pub mod sorter;
pub mod stepper;
pub mod transcript;

pub use estimate::estimate_turns;
pub use jacobsthal::jacobsthal_order;
pub use replay::{derive_state, RankState};
pub use sorter::rank_items;
pub use stepper::{Step, Stepper};
