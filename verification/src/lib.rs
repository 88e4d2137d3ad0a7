//! Approximate minimum-makespan scheduling of malleable jobs under precedence
//! constraints on a pool of identical processors.

pub mod algo;
pub mod chains;
pub mod critical_path;
pub mod dp;
pub mod error;
pub mod exact;
pub mod files;
pub mod generate;
pub mod ieee;
pub mod ilp;
pub mod list;
pub mod lp;
pub mod order;
pub mod path;
pub mod program;
pub mod render;
pub mod serial;
pub mod validate;
