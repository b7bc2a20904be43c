//! Storage tiering for mergerfs pools: the decisions of the daemon, verified.

pub mod config;
pub mod daemon;
pub mod dispatch;
pub mod globs;
pub mod inventory;
pub mod lineage;
pub mod mergerfs;
pub mod mountinfo;
pub mod mover;
pub mod options;
pub mod order;
pub mod paths;
pub mod plan;
pub mod policy;
pub mod scan;
pub mod sdnotify;
pub mod sizes;
pub mod text;
pub mod tier;
pub mod util;
