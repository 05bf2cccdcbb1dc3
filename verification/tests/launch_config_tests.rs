use repo_launcher::launch_config::{env_file_name, launch_command_line, parse_env_file, resolve_launch_spec};
use repo_launcher::persistence::Repository;
use repo_launcher::scanner::{default_command, PackageManager};

fn repo() -> Repository {
    Repository {
        id: 1,
        project_id: 1,
        name: "api".to_string(),
        path: "/p/api".to_string(),
        package_manager: "pnpm".to_string(),
        detected_script: Some("dev".to_string()),
        command: None,
        args: None,
        env_file: None,
        enabled: 1,
        favorite: 0,
        visible_console: 0,
        removed_at: None,
        created_at: "c".to_string(),
        updated_at: "u".to_string(),
    }
}

#[test]
fn command_line_from_package_manager_and_script() {
    assert_eq!(launch_command_line(&repo()).unwrap(), "pnpm run dev");
    let mut y = repo();
    y.package_manager = "yarn".to_string();
    assert_eq!(launch_command_line(&y).unwrap(), "yarn dev");
}

#[test]
fn command_override_runs_verbatim_and_args_are_appended() {
    let mut r = repo();
    r.command = Some("node server.js".to_string());
    r.args = Some("--port 3000".to_string());
    assert_eq!(launch_command_line(&r).unwrap(), "node server.js --port 3000");
    // An empty override falls back to the detected script; empty args add nothing.
    r.command = Some(String::new());
    r.args = Some(String::new());
    assert_eq!(launch_command_line(&r).unwrap(), "pnpm run dev");
}

#[test]
fn missing_command_is_an_error() {
    let mut r = repo();
    r.detected_script = None;
    let err = launch_command_line(&r).unwrap_err();
    assert_eq!(
        err.message(),
        "launch failed: repository 'api' has no launch command (set one or add a start script)"
    );
}

#[test]
fn resolve_launch_spec_on_windows_and_elsewhere() {
    let env = vec![("PORT".to_string(), "3000".to_string())];
    let s = resolve_launch_spec(&repo(), true, Some("cmd"), env.clone()).unwrap();
    assert_eq!(s.program, "cmd");
    assert_eq!(s.args, vec!["/C", "pnpm run dev"]);
    assert_eq!(s.cwd, "/p/api");
    assert_eq!(s.env, env);
    assert!(!s.visible);

    let mut v = repo();
    v.visible_console = 1;
    let u = resolve_launch_spec(&v, true, None, vec![]).unwrap();
    assert_eq!(u.program, "sh");
    assert_eq!(u.args, vec!["-c", "pnpm run dev"]);
    assert!(u.visible);

    let p = resolve_launch_spec(&repo(), true, Some("powershell"), vec![]).unwrap();
    assert_eq!(p.program, "powershell");
    assert_eq!(p.args, vec!["-NoProfile", "-ExecutionPolicy", "Bypass", "-Command", "pnpm run dev"]);
}

#[test]
fn missing_folder_is_reported_before_a_missing_command() {
    let mut r = repo();
    r.detected_script = None;
    let err = resolve_launch_spec(&r, false, None, vec![]).unwrap_err();
    assert_eq!(err.message(), "launch failed: repository 'api' folder no longer exists: /p/api");
}

#[test]
fn env_file_name_only_when_set() {
    let mut r = repo();
    assert_eq!(env_file_name(&r), None);
    r.env_file = Some(String::new());
    assert_eq!(env_file_name(&r), None);
    r.env_file = Some(".env.local".to_string());
    assert_eq!(env_file_name(&r).as_deref(), Some(".env.local"));
}

#[test]
fn env_file_parsing() {
    let text = "# comment\n\nPORT=3000\r\n  NAME = \"my app\" \nBROKEN LINE\nURL=a=b\nEMPTY=\nQ=\"\"x\"\"\n";
    let pairs = parse_env_file(text);
    let expect: Vec<(String, String)> = vec![
        ("PORT", "3000"),
        ("NAME", "my app"),
        ("URL", "a=b"),
        ("EMPTY", ""),
        ("Q", "x"),
    ]
    .into_iter()
    .map(|(k, v)| (k.to_string(), v.to_string()))
    .collect();
    assert_eq!(pairs, expect);
    assert!(parse_env_file("").is_empty());
    assert_eq!(parse_env_file("A=1"), vec![("A".to_string(), "1".to_string())]);
}

#[test]
fn launch_line_agrees_with_the_scan_default_command() {
    for (pm, kind) in [("npm", PackageManager::Npm), ("pnpm", PackageManager::Pnpm), ("yarn", PackageManager::Yarn), ("bun", PackageManager::Bun)] {
        let mut r = repo();
        r.package_manager = pm.to_string();
        assert_eq!(Some(launch_command_line(&r).unwrap()), default_command(kind, Some("dev")));
    }
}

#[test]
fn toolchain_default_command_is_the_fallback_launch_line() {
    let mut r = repo();
    r.detected_script = None;
    r.package_manager = "cargo".to_string();
    assert_eq!(launch_command_line(&r).unwrap(), "cargo run");
    r.package_manager = "pip".to_string();
    r.args = Some("--debug".to_string());
    assert_eq!(launch_command_line(&r).unwrap(), "python main.py --debug");
    assert_eq!(
        launch_command_line(&r).unwrap(),
        format!("{} --debug", default_command(PackageManager::Pip, None).unwrap())
    );
    r.package_manager = "maven".to_string();
    assert!(launch_command_line(&r).is_err());
}
