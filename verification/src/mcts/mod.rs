//! Batched tree search over shared, hash-addressed node storage.
//!
//! There is no tree structure: a node is located only by Zobrist key, so identical states
//! reached by different move orders or different games are one node whose statistics
//! accumulate across all of them.
pub mod arena;
pub mod buffer;
pub mod collect;
pub mod config;
pub mod descent;
pub mod diagnostics;
pub mod index;
pub mod lifetime;
pub mod record;
pub mod scatter;
pub mod search;
pub mod slot;
pub mod stats;
pub mod step;
pub mod sweep;
pub mod trace;
pub mod train;
pub mod variant;
pub mod visits;

pub use crate::mcts::arena::{Arena, IdWrite, Node};
pub use crate::mcts::config::{Config, K, OVERFLOWED, PENDING};
pub use crate::mcts::descent::{back_up, descend, Descent};
pub use crate::mcts::diagnostics::Diagnostics;
pub use crate::mcts::record::StepRecord;
pub use crate::mcts::search::Search;
pub use crate::mcts::slot::{Path, PathStep, Root, Slot, MAX_PLY, ROOT};
pub use crate::mcts::train::Trainer;
pub use crate::mcts::variant::{Choice, Variant};
