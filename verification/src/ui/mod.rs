//! The decisions behind the user interface: what the dependency graph
//! shows, what a selection implies, and the texts shown to the user.

pub mod categories;
pub mod graph_layout;
pub mod graph_plan;
pub mod graph_view;
pub mod graph_node;
pub mod maintenance_view;
pub mod window;
