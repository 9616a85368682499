//! Verified core of a GitOps continuous-deployment control plane.
//!
//! A single versions repository records which version of each resource is
//! intended to run in each named environment.  This crate holds the verified
//! model of that repository (trees, commits, a functional tree zipper), the
//! rollout-status lattice, the resource assembler, the transition engine that
//! mirrors one environment's versions into another, and the commit analyzer
//! that derives per-resource history.  Network and cluster I/O live outside
//! this crate; callers hand in plain values and apply the returned decisions.

pub mod aggregator;
pub mod analysis;
pub mod content;
pub mod deployment;
pub mod id;
pub mod locks;
pub mod message;
pub mod ordmap;
pub mod repo;
pub mod state;
pub mod status;
pub mod text;
pub mod transition;
pub mod tree;
pub mod zipper;

pub use id::Id;
pub use status::RolloutStatus;
