//! The data model: package sources, package records, the dependency graph
//! and removal plans.

pub mod package;
pub mod package_source;
pub mod dep_tree;
pub mod removal_plan;
