//! Rows of the launcher's database, as the rest of the library sees them. Reading and
//! writing the database happens around the library; these are the plain values it hands in.

use vstd::prelude::*;

verus! {

/// A registered project root folder.
#[derive(Debug, Clone)]
pub struct Project {
    pub id: i64,
    pub name: String,
    pub root_path: String,
    pub last_opened_at: String,
    pub last_profile_id: Option<i64>,
    pub created_at: String,
    pub updated_at: String,
}

/// A discovered repository within a project.
#[derive(Debug, Clone)]
pub struct Repository {
    pub id: i64,
    pub project_id: i64,
    pub name: String,
    pub path: String,
    pub package_manager: String,
    pub detected_script: Option<String>,
    pub command: Option<String>,
    pub args: Option<String>,
    pub env_file: Option<String>,
    pub enabled: i64,
    pub favorite: i64,
    /// When set, the repository launches in a visible interactive console window instead
    /// of with piped background logs.
    pub visible_console: i64,
    pub removed_at: Option<String>,
    pub created_at: String,
    pub updated_at: String,
}

/// A launch run row.
#[derive(Debug, Clone)]
pub struct LaunchHistoryRow {
    pub id: i64,
    pub project_id: i64,
    pub profile_id: Option<i64>,
    pub started_at: String,
    pub finished_at: Option<String>,
    pub status: String,
}

/// A per-repository row within a launch run.
#[derive(Debug, Clone)]
pub struct LaunchHistoryItemRow {
    pub id: i64,
    pub launch_history_id: i64,
    pub repository_id: i64,
    pub pid: Option<i64>,
    pub status: String,
    pub exit_code: Option<i64>,
    pub restart_count: i64,
    pub started_at: Option<String>,
    pub stopped_at: Option<String>,
}

/// A launch profile row; its member repositories are stored separately.
#[derive(Debug, Clone)]
pub struct ProfileRow {
    pub id: i64,
    pub project_id: i64,
    pub name: String,
    pub launch_delay_ms: i64,
}

/// A repository's new location (and re-detected toolchain) after its project moved.
#[derive(Debug, Clone)]
pub struct RepoRemap {
    pub repository_id: i64,
    pub path: String,
    pub package_manager: String,
    pub detected_script: Option<String>,
}

} // verus!
