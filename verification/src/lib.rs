//! Package dependency analysis, removal planning and cleanup bookkeeping
//! for a Linux system maintenance tool.

pub mod model;
pub mod paths;
pub mod remover;
pub mod scanner;
pub mod text;
pub mod ui;
pub mod units;
