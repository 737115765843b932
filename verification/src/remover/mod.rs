//! Running removal commands: what is logged for each.

pub mod executor;
