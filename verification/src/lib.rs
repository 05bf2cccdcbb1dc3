//! Multi-repository development launcher: the decision logic behind discovering
//! repositories, ordering their launch by dependencies, tracking their processes,
//! and shaping the data the desktop shell shows.

pub mod launcher;
pub mod text;
pub mod error;
pub mod persistence;
pub mod commands;
pub mod process_manager;
pub mod launch_config;
pub mod profiles;
pub mod scanner;
pub mod git;
pub mod git_status_cache;
pub mod paths;
