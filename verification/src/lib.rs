//! PubGrub version solving: verified building blocks.
//!
//! This crate holds the data structures and set algebra that the PubGrub
//! version solving algorithm is made of: version index bitsets, terms over
//! them, generic version ranges, semantic versions, incompatibilities and
//! the small helpers around them, each with a specification proved by Verus.
#![allow(unused_imports)]

pub mod version;
pub mod experimental;
pub mod small_vec;
pub mod version_trait;
pub mod range;
pub mod range_order;
pub mod range_trait;
pub mod semver_req;
pub mod version_set;
pub mod term;
pub mod helpers;
pub mod partial_solution;
pub mod arena;
pub mod incompatibility;
pub mod assignment;
pub mod memory;
pub mod package;
pub mod solver;
pub mod report;
pub mod provider;
pub mod pairs;
