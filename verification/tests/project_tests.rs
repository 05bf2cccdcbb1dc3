use repo_launcher::commands::{
    check_deletable, compute_repo_remap, cycle_names, default_enabled, env_file_names,
    launch_record, manual_repository, not_a_directory, plan_refresh, project_display_name,
    project_path_error, repo_name_or_id, repository_path_error, running_count, scan_failure,
    validate_project_name, validate_repository_config, RefreshCheck, RemapCandidate,
};
use repo_launcher::error::AppError;
use repo_launcher::persistence::{LaunchHistoryItemRow, LaunchHistoryRow, Repository};
use repo_launcher::process_manager::{LaunchSpec, ProcessTable};
use repo_launcher::scanner::{probe_file_names, DirProbe, ScanError};

fn repo(id: i64, name: &str, path: &str) -> Repository {
    Repository {
        id,
        project_id: 1,
        name: name.to_string(),
        path: path.to_string(),
        package_manager: "npm".to_string(),
        detected_script: None,
        command: None,
        args: None,
        env_file: None,
        enabled: 1,
        favorite: 0,
        visible_console: 0,
        removed_at: None,
        created_at: "2026-01-01T00:00:00Z".to_string(),
        updated_at: "2026-01-01T00:00:00Z".to_string(),
    }
}

fn folder(path: &str, files: &[(&str, &str)]) -> DirProbe {
    let probed = probe_file_names();
    DirProbe {
        path: path.to_string(),
        name: path.rsplit('/').next().map(|s| s.to_string()),
        is_dir: true,
        present_files: files.iter().filter(|(n, _)| probed.contains(n)).map(|(n, _)| n.to_string()).collect(),
        listed_files: files.iter().map(|(n, _)| n.to_string()).collect(),
        package_json: files.iter().find(|(n, _)| *n == "package.json").map(|(_, c)| c.to_string()),
    }
}

fn spec() -> LaunchSpec {
    LaunchSpec { program: "sh".to_string(), args: vec![], cwd: "/r".to_string(), env: vec![], visible: false }
}

#[test]
fn validate_project_name_rejects_empty_and_whitespace() {
    assert!(validate_project_name("").is_err());
    assert!(validate_project_name("   ").is_err());
    assert_eq!(validate_project_name("  My Project  ").unwrap(), "My Project");
}

#[test]
fn validate_project_name_error_message() {
    let err = validate_project_name(" \t ").unwrap_err();
    assert_eq!(err.message(), "persistence error: project name cannot be empty");
}

#[test]
fn remaps_repo_that_exists_at_the_same_relative_path() {
    let candidates = vec![RemapCandidate {
        repository_id: 1,
        name: "api".to_string(),
        probe: Some(folder("/new/api", &[("package.json", r#"{"scripts": {"dev": "node ."}}"#)])),
    }];
    let remap = compute_repo_remap(&candidates);
    assert_eq!(remap.len(), 1);
    assert_eq!(remap[0].repository_id, 1);
    assert_eq!(remap[0].path, "/new/api");
    assert_eq!(remap[0].package_manager, "npm");
    assert_eq!(remap[0].detected_script.as_deref(), Some("dev"));
}

#[test]
fn excludes_repo_whose_new_location_has_no_package_json() {
    let candidates = vec![RemapCandidate { repository_id: 1, name: "api".to_string(), probe: Some(folder("/new/api", &[])) }];
    assert!(compute_repo_remap(&candidates).is_empty());
}

#[test]
fn handles_multiple_repositories_independently() {
    let candidates = vec![
        RemapCandidate { repository_id: 1, name: "api".to_string(), probe: Some(folder("/new/api", &[("package.json", "{}")])) },
        RemapCandidate { repository_id: 2, name: "web".to_string(), probe: None },
    ];
    let remap = compute_repo_remap(&candidates);
    assert_eq!(remap.len(), 1);
    assert_eq!(remap[0].repository_id, 1);
}

#[test]
fn plan_refresh_updates_changed_detection_and_flags_missing() {
    let mut same = repo(1, "api", "/p/api");
    same.detected_script = Some("dev".to_string());
    let changed = repo(2, "web", "/p/web");
    let gone = repo(3, "old", "/p/old");
    let checks = vec![
        RefreshCheck { repository: same, probe: folder("/p/api", &[("package.json", r#"{"scripts": {"dev": "x"}}"#)]) },
        RefreshCheck { repository: changed, probe: folder("/p/web", &[("package.json", r#"{"scripts": {"start": "x"}}"#), ("pnpm-lock.yaml", "")]) },
        RefreshCheck { repository: gone, probe: folder("/p/old", &[]) },
    ];
    let plan = plan_refresh(&checks);
    assert_eq!(plan.updates.len(), 1);
    assert_eq!(plan.updates[0].repository_id, 2);
    assert_eq!(plan.updates[0].package_manager, "pnpm");
    assert_eq!(plan.updates[0].detected_script.as_deref(), Some("start"));
    assert_eq!(plan.missing_repository_ids, vec![3]);
}

#[test]
fn delete_is_refused_while_a_repository_runs() {
    let mut table = ProcessTable::new();
    assert!(check_deletable(&[1, 2], &table).is_ok());
    table.record_spawn(2, Some(42), 0, 1, spec(), None, 0);
    let err = check_deletable(&[1, 2], &table).unwrap_err();
    assert_eq!(err.message(), "persistence error: stop all repositories in this project before deleting");
    assert_eq!(running_count(&[1, 2, 3], &table), 1);
    assert!(check_deletable(&[1, 3], &table).is_ok());
}

#[test]
fn lists_env_files_sorted() {
    let names: Vec<String> = [".env.production", "package.json", ".env", ".environment", ".env.local", "env"]
        .iter()
        .map(|s| s.to_string())
        .collect();
    assert_eq!(env_file_names(&names), vec![".env", ".env.local", ".env.production"]);
    assert!(env_file_names(&["README.md".to_string()]).is_empty());
}

#[test]
fn repository_config_validates_package_manager_and_clears_empty_overrides() {
    let c = validate_repository_config("pnpm", "  pnpm dev ", "   ", "").unwrap();
    assert_eq!(c.package_manager, "pnpm");
    assert_eq!(c.command.as_deref(), Some("pnpm dev"));
    assert_eq!(c.args, None);
    assert_eq!(c.env_file, None);
    for pm in ["npm", "pnpm", "yarn", "bun", "pip", "poetry", "uv", "pipenv", "cargo", "dotnet"] {
        assert_eq!(validate_repository_config(pm, "", "", "").unwrap().package_manager, pm);
    }
    let err = validate_repository_config("maven", "", "", "").unwrap_err();
    assert_eq!(err.message(), "persistence error: invalid package manager: maven");
}

#[test]
fn launch_record_names_items_and_falls_back_to_ids() {
    let row = LaunchHistoryRow {
        id: 7,
        project_id: 1,
        profile_id: Some(3),
        started_at: "t0".to_string(),
        finished_at: Some("t1".to_string()),
        status: "completed".to_string(),
    };
    let item = |id: i64, repo_id: i64| LaunchHistoryItemRow {
        id,
        launch_history_id: 7,
        repository_id: repo_id,
        pid: Some(100 + id),
        status: "running".to_string(),
        exit_code: None,
        restart_count: 0,
        started_at: None,
        stopped_at: None,
    };
    let rec = launch_record(row, Some("Backend".to_string()), vec![(item(1, 10), Some("api".to_string())), (item(2, 11), None)]);
    assert_eq!(rec.id, 7);
    assert_eq!(rec.profile_name.as_deref(), Some("Backend"));
    assert_eq!(rec.items.len(), 2);
    assert_eq!(rec.items[0].repository_name, "api");
    assert_eq!(rec.items[1].repository_name, "#11");
    assert_eq!(rec.items[1].pid, Some(102));
}

#[test]
fn cycle_names_use_names_and_ids() {
    let repos = vec![repo(1, "api", "/a"), repo(2, "web", "/w")];
    assert_eq!(cycle_names(&repos, &[2, 1, 99]), "dependency cycle involving: web, api, #99");
    assert_eq!(repo_name_or_id(&repos, -5), "#-5");
}

#[test]
fn path_and_scan_errors() {
    assert_eq!(not_a_directory("/x").message(), "scan failed: not a directory: /x");
    assert_eq!(project_display_name(Some("proj"), "/a/proj"), "proj");
    assert_eq!(project_display_name(None, "/"), "/");
    assert_eq!(project_path_error(true, "x".to_string()).message(), "persistence error: another project already uses this path");
    assert_eq!(project_path_error(false, "disk full".to_string()).message(), "persistence error: disk full");
    assert_eq!(
        repository_path_error(true, "x".to_string()).message(),
        "persistence error: another repository in this project already uses this path"
    );
    assert_eq!(
        scan_failure(&ScanError::Io("/r: boom".to_string())).message(),
        "scan failed: failed to read directory: /r: boom"
    );
}

#[test]
fn manual_repository_requires_a_classifiable_directory() {
    let ok = manual_repository("/x/api", true, &folder("/x/api", &[("package.json", r#"{"scripts": {"dev": "x"}}"#)])).unwrap();
    assert_eq!(ok.name, "api");
    assert!(default_enabled(&ok));
    let err = manual_repository("/x/empty", true, &folder("/x/empty", &[])).unwrap_err();
    assert_eq!(err.message(), "scan failed: no package.json found in: /x/empty");
    let err = manual_repository("/x/file", false, &folder("/x/file", &[])).unwrap_err();
    assert!(matches!(err, AppError::Scan(ref m) if m == "not a directory: /x/file"));
    let no_script = manual_repository("/x/lib", true, &folder("/x/lib", &[("package.json", "{}")])).unwrap();
    assert!(!default_enabled(&no_script));
}
