//! What the library promises, in plain coordinates and numbers: relations between what is
//! handed to a call and what comes back.
pub mod batch;
pub mod counters;
pub mod descents;
pub mod draws;
pub mod files;
pub mod learning;
pub mod nodes;
pub mod rules;
pub mod search;
pub mod selfplay;
pub mod tracing;
pub mod training;
pub mod weights;
