use repo_launcher::scanner::{
    classify_repo_dir, default_command, detect_node_script, detect_toolchain, find_ecosystem,
    has_file_with_extension, has_marker_file, pick_script, probe_file_names, scan_project_root,
    ChildEntry, DirProbe, DiscoveredRepo, Ecosystem, PackageManager, RootListing, ScanError,
};

/// A directory at `path` holding the given regular files (name, contents), described the way
/// the file-system side describes one.
fn dir(path: &str, files: &[(&str, &str)]) -> DirProbe {
    let probed = probe_file_names();
    let present_files = files
        .iter()
        .filter(|(n, _)| probed.contains(n))
        .map(|(n, _)| n.to_string())
        .collect();
    let listed_files = files.iter().map(|(n, _)| n.to_string()).collect();
    let package_json = files
        .iter()
        .find(|(n, _)| *n == "package.json")
        .map(|(_, c)| c.to_string());
    DirProbe {
        path: path.to_string(),
        name: path.rsplit('/').next().map(|s| s.to_string()),
        is_dir: true,
        present_files,
        listed_files,
        package_json,
    }
}

fn child(name: &str, files: &[(&str, &str)], nested: Vec<DirProbe>) -> ChildEntry {
    ChildEntry { name: name.to_string(), probe: dir(&format!("/root/{name}"), files), nested }
}

fn scan(children: Vec<ChildEntry>) -> Vec<DiscoveredRepo> {
    scan_project_root(&RootListing {
        path: "/root".to_string(),
        is_dir: true,
        entries: Ok(children),
    })
    .unwrap()
}

fn names(repos: &[DiscoveredRepo]) -> Vec<&str> {
    repos.iter().map(|r| r.name.as_str()).collect()
}

#[test]
fn command_templates_and_yarn_omits_run() {
    assert_eq!(default_command(PackageManager::Npm, Some("dev")).as_deref(), Some("npm run dev"));
    assert_eq!(default_command(PackageManager::Pnpm, Some("start:dev")).as_deref(), Some("pnpm run start:dev"));
    assert_eq!(default_command(PackageManager::Bun, Some("dev")).as_deref(), Some("bun run dev"));
    assert_eq!(default_command(PackageManager::Yarn, Some("dev")).as_deref(), Some("yarn dev"));
}

#[test]
fn default_command_covers_every_new_toolchain() {
    assert_eq!(default_command(PackageManager::Pip, None).as_deref(), Some("python main.py"));
    assert_eq!(default_command(PackageManager::Poetry, None).as_deref(), Some("poetry run python main.py"));
    assert_eq!(default_command(PackageManager::Uv, None).as_deref(), Some("uv run main.py"));
    assert_eq!(default_command(PackageManager::Pipenv, None).as_deref(), Some("pipenv run python main.py"));
    assert_eq!(default_command(PackageManager::Cargo, None).as_deref(), Some("cargo run"));
    assert_eq!(default_command(PackageManager::Dotnet, None).as_deref(), Some("dotnet run"));
}

#[test]
fn default_command_node_still_requires_a_script() {
    assert_eq!(default_command(PackageManager::Npm, Some("dev")).as_deref(), Some("npm run dev"));
    assert_eq!(default_command(PackageManager::Yarn, Some("dev")).as_deref(), Some("yarn dev"));
    assert_eq!(default_command(PackageManager::Npm, None), None);
}

#[test]
fn package_manager_as_str_covers_every_variant() {
    assert_eq!(PackageManager::Pip.as_str(), "pip");
    assert_eq!(PackageManager::Poetry.as_str(), "poetry");
    assert_eq!(PackageManager::Uv.as_str(), "uv");
    assert_eq!(PackageManager::Pipenv.as_str(), "pipenv");
    assert_eq!(PackageManager::Cargo.as_str(), "cargo");
    assert_eq!(PackageManager::Dotnet.as_str(), "dotnet");
}

#[test]
fn package_manager_parse_round_trips_every_as_str_value() {
    let all = [
        PackageManager::Npm,
        PackageManager::Pnpm,
        PackageManager::Yarn,
        PackageManager::Bun,
        PackageManager::Pip,
        PackageManager::Poetry,
        PackageManager::Uv,
        PackageManager::Pipenv,
        PackageManager::Cargo,
        PackageManager::Dotnet,
    ];
    for pm in all {
        assert_eq!(PackageManager::parse(pm.as_str()), Some(pm));
    }
}

#[test]
fn package_manager_parse_rejects_unknown_string() {
    assert_eq!(PackageManager::parse("not-a-real-toolchain"), None);
}

#[test]
fn package_manager_parse_is_case_sensitive() {
    assert_eq!(PackageManager::parse("NPM"), None);
    assert_eq!(PackageManager::parse(""), None);
}

#[test]
fn dir_without_package_json_is_ignored() {
    let repos = scan(vec![child("not-a-repo", &[], vec![])]);
    assert!(repos.is_empty());
}

#[test]
fn lockfile_precedence_multi_lockfile_prefers_npm_over_yarn() {
    let repos = scan(vec![child(
        "repo-a",
        &[("package.json", r#"{"scripts": {"start": "node ."}}"#), ("yarn.lock", ""), ("package-lock.json", "")],
        vec![],
    )]);
    assert_eq!(repos.len(), 1);
    assert_eq!(repos[0].package_manager, PackageManager::Npm);
}

#[test]
fn lockfile_precedence_pnpm_wins_over_all() {
    let repos = scan(vec![child(
        "repo-b",
        &[
            ("package.json", "{}"),
            ("pnpm-lock.yaml", ""),
            ("package-lock.json", ""),
            ("yarn.lock", ""),
            ("bun.lock", ""),
        ],
        vec![],
    )]);
    assert_eq!(repos[0].package_manager, PackageManager::Pnpm);
}

#[test]
fn bun_lockfile_alone_selects_bun() {
    let d = dir("/r/svc", &[("package.json", "{}"), ("bun.lock", "")]);
    assert_eq!(detect_toolchain(&d, Ecosystem::Node), PackageManager::Bun);
}

#[test]
fn no_lockfile_defaults_to_npm() {
    let repos = scan(vec![child("repo-c", &[("package.json", "{}")], vec![])]);
    assert_eq!(repos[0].package_manager, PackageManager::Npm);
}

#[test]
fn script_priority_prefers_dev_over_start_when_no_start_dev() {
    let repos = scan(vec![child(
        "repo-d",
        &[("package.json", r#"{"scripts": {"dev": "vite", "start": "node ."}}"#)],
        vec![],
    )]);
    assert_eq!(repos[0].detected_script.as_deref(), Some("dev"));
    assert_eq!(repos[0].command.as_deref(), Some("npm run dev"));
}

#[test]
fn script_priority_full_order() {
    let all = r#"{"scripts": {"watch": "w", "serve": "s", "start": "x", "dev": "d", "start:dev": "sd"}}"#;
    assert_eq!(detect_node_script(Some(all)).as_deref(), Some("start:dev"));
    assert_eq!(detect_node_script(Some(r#"{"scripts": {"watch": "w", "serve": "s"}}"#)).as_deref(), Some("serve"));
    assert_eq!(detect_node_script(Some(r#"{"scripts": {"watch": "w"}}"#)).as_deref(), Some("watch"));
    assert_eq!(detect_node_script(Some(r#"{"scripts": []}"#)), None);
    assert_eq!(detect_node_script(Some(r#"{"name": "x"}"#)), None);
    assert_eq!(detect_node_script(None), None);
}

#[test]
fn pick_script_uses_priority_order() {
    let keys = vec!["serve".to_string(), "start".to_string()];
    assert_eq!(pick_script(&keys).as_deref(), Some("start"));
    assert_eq!(pick_script(&vec!["build".to_string()]), None);
}

#[test]
fn no_known_script_yields_none_command_and_script() {
    let repos = scan(vec![child("repo-e", &[("package.json", r#"{"scripts": {"build": "tsc"}}"#)], vec![])]);
    assert_eq!(repos[0].detected_script, None);
    assert_eq!(repos[0].command, None);
}

#[test]
fn malformed_package_json_treated_as_no_script_and_scan_succeeds() {
    let repos = scan(vec![child("repo-f", &[("package.json", "{ not valid json ")], vec![])]);
    assert_eq!(repos.len(), 1);
    assert_eq!(repos[0].detected_script, None);
    assert_eq!(repos[0].command, None);
}

#[test]
fn python_repo_detected_via_pyproject_toml() {
    let repos = scan(vec![child("svc", &[("pyproject.toml", "")], vec![])]);
    assert_eq!(repos.len(), 1);
    assert_eq!(repos[0].package_manager, PackageManager::Pip);
    assert_eq!(repos[0].command.as_deref(), Some("python main.py"));
}

#[test]
fn python_repo_detected_via_requirements_txt() {
    let repos = scan(vec![child("svc", &[("requirements.txt", "")], vec![])]);
    assert_eq!(repos.len(), 1);
    assert_eq!(repos[0].package_manager, PackageManager::Pip);
}

#[test]
fn python_repo_detected_via_pipfile() {
    let repos = scan(vec![child("svc", &[("Pipfile", "")], vec![])]);
    assert_eq!(repos.len(), 1);
    assert_eq!(repos[0].package_manager, PackageManager::Pip);
}

#[test]
fn python_toolchain_precedence_poetry_beats_uv() {
    let repos = scan(vec![child("svc", &[("pyproject.toml", ""), ("poetry.lock", ""), ("uv.lock", "")], vec![])]);
    assert_eq!(repos[0].package_manager, PackageManager::Poetry);
    assert_eq!(repos[0].command.as_deref(), Some("poetry run python main.py"));
}

#[test]
fn python_toolchain_uv_alone() {
    let repos = scan(vec![child("svc", &[("pyproject.toml", ""), ("uv.lock", "")], vec![])]);
    assert_eq!(repos[0].package_manager, PackageManager::Uv);
    assert_eq!(repos[0].command.as_deref(), Some("uv run main.py"));
}

#[test]
fn python_toolchain_pipenv_alone() {
    let repos = scan(vec![child("svc", &[("Pipfile", ""), ("Pipfile.lock", "")], vec![])]);
    assert_eq!(repos[0].package_manager, PackageManager::Pipenv);
    assert_eq!(repos[0].command.as_deref(), Some("pipenv run python main.py"));
}

#[test]
fn python_no_lockfile_defaults_to_pip() {
    let repos = scan(vec![child("svc", &[("requirements.txt", "")], vec![])]);
    assert_eq!(repos[0].package_manager, PackageManager::Pip);
    assert_eq!(repos[0].command.as_deref(), Some("python main.py"));
}

#[test]
fn rust_repo_detected_via_cargo_toml() {
    let repos = scan(vec![child("svc", &[("Cargo.toml", "")], vec![])]);
    assert_eq!(repos.len(), 1);
    assert_eq!(repos[0].package_manager, PackageManager::Cargo);
    assert_eq!(repos[0].command.as_deref(), Some("cargo run"));
}

#[test]
fn dotnet_repo_detected_via_csproj() {
    let repos = scan(vec![child("svc", &[("MyApp.csproj", "")], vec![])]);
    assert_eq!(repos.len(), 1);
    assert_eq!(repos[0].package_manager, PackageManager::Dotnet);
    assert_eq!(repos[0].command.as_deref(), Some("dotnet run"));
}

#[test]
fn dotnet_repo_detected_via_sln() {
    let repos = scan(vec![child("svc", &[("MyApp.sln", "")], vec![])]);
    assert_eq!(repos.len(), 1);
    assert_eq!(repos[0].package_manager, PackageManager::Dotnet);
}

#[test]
fn dotnet_marker_matching_is_case_insensitive() {
    let repos = scan(vec![child("svc", &[("MyApp.CSPROJ", "")], vec![])]);
    assert_eq!(repos.len(), 1, "an uppercase .CSPROJ extension must still match the .csproj marker");
    assert_eq!(repos[0].package_manager, PackageManager::Dotnet);
}

#[test]
fn extension_rules_follow_path_extension() {
    // A leading dot alone is not an extension; the text after the last dot is.
    assert!(!has_file_with_extension(&dir("/r/a", &[(".csproj", "")]), "csproj"));
    assert!(has_file_with_extension(&dir("/r/a", &[("a.b.Sln", "")]), "sln"));
    assert!(!has_file_with_extension(&dir("/r/a", &[("a.csproj.bak", "")]), "csproj"));
    assert!(!has_file_with_extension(&dir("/r/a", &[("csproj", "")]), "csproj"));
}

#[test]
fn directory_named_like_a_marker_file_is_not_mistaken_for_one() {
    // `fake.csproj` is a directory inside `svc`, so it is neither a probed file nor a listed file.
    let repos = scan(vec![child("svc", &[], vec![])]);
    assert!(repos.is_empty());
}

#[test]
fn ecosystem_precedence_node_wins_over_rust_when_both_markers_present() {
    let repos = scan(vec![child("svc", &[("package.json", "{}"), ("Cargo.toml", "")], vec![])]);
    assert_eq!(repos.len(), 1);
    assert!(matches!(
        repos[0].package_manager,
        PackageManager::Npm | PackageManager::Pnpm | PackageManager::Yarn | PackageManager::Bun
    ));
}

#[test]
fn ecosystem_order_is_node_python_rust_dotnet() {
    assert_eq!(find_ecosystem(&dir("/r/a", &[("Cargo.toml", ""), ("requirements.txt", "")])), Some(Ecosystem::Python));
    assert_eq!(find_ecosystem(&dir("/r/a", &[("Cargo.toml", ""), ("a.sln", "")])), Some(Ecosystem::Rust));
    assert_eq!(find_ecosystem(&dir("/r/a", &[("README.md", "")])), None);
}

#[test]
fn has_marker_file_checks_any_listed_name() {
    let d = dir("/r/a", &[("Pipfile", "")]);
    assert!(has_marker_file(&d, &["pyproject.toml", "Pipfile"]));
    assert!(!has_marker_file(&d, &["pyproject.toml", "requirements.txt"]));
    assert!(!has_marker_file(&d, &[]));
}

#[test]
fn no_ecosystem_marker_is_not_detected() {
    let repos = scan(vec![child("not-a-repo-of-any-kind", &[], vec![])]);
    assert!(repos.is_empty());
}

#[test]
fn nonexistent_root_returns_root_not_a_directory() {
    let err = scan_project_root(&RootListing {
        path: "/tmp/does-not-exist".to_string(),
        is_dir: false,
        entries: Ok(vec![]),
    })
    .unwrap_err();
    assert!(matches!(err, ScanError::RootNotADirectory(_)));
    assert_eq!(err.message(), "project root not found or not a directory: /tmp/does-not-exist");
}

#[test]
fn unreadable_root_reports_io_error() {
    let err = scan_project_root(&RootListing {
        path: "/root".to_string(),
        is_dir: true,
        entries: Err("permission denied".to_string()),
    })
    .unwrap_err();
    assert!(matches!(err, ScanError::Io(_)));
    assert_eq!(err.message(), "failed to read directory: /root: permission denied");
}

#[test]
fn results_sorted_by_name_ascending() {
    let repos = scan(vec![
        child("zeta", &[("package.json", "{}")], vec![]),
        child("alpha", &[("package.json", "{}")], vec![]),
        child("mid", &[("package.json", "{}")], vec![]),
    ]);
    assert_eq!(names(&repos), vec!["alpha", "mid", "zeta"]);
}

#[test]
fn nested_repo_one_level_under_non_repo_parent_is_found_and_qualified() {
    let repos = scan(vec![child(
        "services",
        &[],
        vec![dir("/root/services/api", &[("package.json", "{}")])],
    )]);
    assert_eq!(repos.len(), 1);
    assert_eq!(repos[0].name, "services/api");
    assert_eq!(repos[0].path, "/root/services/api");
}

#[test]
fn repo_directory_is_not_recursed_into_for_nested_repos() {
    let repos = scan(vec![child(
        "top-repo",
        &[("package.json", "{}")],
        vec![dir("/root/top-repo/nested", &[("package.json", "{}")])],
    )]);
    assert_eq!(names(&repos), vec!["top-repo"]);
}

#[test]
fn two_levels_deep_is_not_found() {
    // a/b is not a repository; a/b/c would be, but is two levels below the root's child.
    let repos = scan(vec![child("a", &[], vec![dir("/root/a/b", &[])])]);
    assert!(repos.is_empty());
}

#[test]
fn dot_prefixed_directory_is_skipped_even_if_it_somehow_contains_package_json() {
    let repos = scan(vec![
        child(".git", &[("package.json", "{}")], vec![]),
        child("real-repo", &[("package.json", "{}")], vec![]),
    ]);
    assert_eq!(names(&repos), vec!["real-repo"]);
}

#[test]
fn nested_dot_directories_and_files_are_skipped() {
    let mut file_entry = dir("/root/group/file.txt", &[("package.json", "{}")]);
    file_entry.is_dir = false;
    let repos = scan(vec![child(
        "group",
        &[],
        vec![dir("/root/group/.cache", &[("package.json", "{}")]), file_entry],
    )]);
    assert!(repos.is_empty());
}

#[test]
fn files_at_the_root_are_not_repositories() {
    let mut c = child("package.json", &[("package.json", "{}")], vec![]);
    c.probe.is_dir = false;
    assert!(scan(vec![c]).is_empty());
}

#[test]
fn classify_uses_display_name_and_own_name() {
    let d = dir("/root/api", &[("package.json", r#"{"scripts": {"dev": "x"}}"#), ("yarn.lock", "")]);
    let own = classify_repo_dir(&d, None).unwrap();
    assert_eq!(own.name, "api");
    assert_eq!(own.package_manager, PackageManager::Yarn);
    assert_eq!(own.command.as_deref(), Some("yarn dev"));
    let shown = classify_repo_dir(&d, Some("group/api")).unwrap();
    assert_eq!(shown.name, "group/api");
}

#[test]
fn only_node_repositories_get_a_script() {
    let py = classify_repo_dir(&dir("/r/svc", &[("pyproject.toml", ""), ("uv.lock", "")]), None).unwrap();
    assert_eq!(py.detected_script, None);
    assert_eq!(py.command.as_deref(), Some("uv run main.py"));
    let rust = classify_repo_dir(&dir("/r/svc", &[("Cargo.toml", "")]), None).unwrap();
    assert_eq!(rust.detected_script, None);
}

#[test]
fn equal_names_keep_their_listing_order() {
    let mut first = child("one", &[("package.json", "{}")], vec![]);
    first.probe.name = Some("same".to_string());
    let mut second = child("two", &[("Cargo.toml", "")], vec![]);
    second.probe.name = Some("same".to_string());
    let third = child("abc", &[("package.json", "{}")], vec![]);
    let repos = scan(vec![first, second, third]);
    let paths: Vec<&str> = repos.iter().map(|r| r.path.as_str()).collect();
    assert_eq!(paths, vec!["/root/abc", "/root/one", "/root/two"]);
}
