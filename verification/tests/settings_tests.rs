use repo_launcher::commands::{
    shell_program, terminal_command, windows_launch_program_args, wt_launch_args, Settings,
};

#[test]
fn shell_program_maps_powershell_and_defaults_to_cmd() {
    assert_eq!(shell_program("powershell"), "powershell");
    assert_eq!(shell_program("cmd"), "cmd");
    assert_eq!(shell_program(""), "cmd");
    assert_eq!(shell_program("bash"), "cmd"); // unknown value falls back safely
}

#[test]
fn windows_launch_program_args_switches_on_terminal_shell() {
    let (program, args) = windows_launch_program_args("cmd", "npm run dev");
    assert_eq!(program, "cmd");
    assert_eq!(args, vec!["/C".to_string(), "npm run dev".to_string()]);

    let (program, args) = windows_launch_program_args("powershell", "npm run dev");
    assert_eq!(program, "powershell");
    assert_eq!(
        args,
        vec![
            "-NoProfile".to_string(),
            "-ExecutionPolicy".to_string(),
            "Bypass".to_string(),
            "-Command".to_string(),
            "npm run dev".to_string()
        ]
    );
}

#[test]
fn settings_default_terminal_shell_is_cmd() {
    assert_eq!(Settings::default().terminal_shell, "cmd");
}

#[test]
fn wt_launch_args_targets_most_recently_used_window_and_sets_starting_dir() {
    let args = wt_launch_args("cmd", "C:\\repos\\api");
    assert_eq!(
        args,
        vec![
            "-w".to_string(),
            "0".to_string(),
            "nt".to_string(),
            "-d".to_string(),
            "C:\\repos\\api".to_string(),
            "cmd".to_string(),
        ]
    );
}

#[test]
fn wt_launch_args_adds_execution_policy_bypass_for_powershell() {
    let args = wt_launch_args("powershell", "C:\\repos\\api");
    assert_eq!(
        args,
        vec![
            "-w".to_string(),
            "0".to_string(),
            "nt".to_string(),
            "-d".to_string(),
            "C:\\repos\\api".to_string(),
            "powershell".to_string(),
            "-ExecutionPolicy".to_string(),
            "Bypass".to_string(),
        ]
    );
}

#[test]
fn settings_default_visible_actions_is_curated_set() {
    let defaults = Settings::default();
    assert_eq!(
        defaults.visible_actions,
        vec!["logs", "openFolder", "openTerminal", "edit", "remove"]
    );
}

#[test]
fn settings_default_values() {
    let s = Settings::default();
    assert_eq!(s.theme, "system");
    assert_eq!(s.launch_delay_ms, 1000);
    assert!(s.auto_detect);
    assert!(!s.restore_last_project);
    assert!(s.restore_last_selection);
    assert!(!s.auto_restart);
    assert_eq!(s.log_retention, 1000);
    assert!(!s.notifications_enabled);
}

#[test]
fn terminal_command_prefers_windows_terminal_tab() {
    let c = terminal_command("powershell", true, "C:\\repos\\api");
    assert_eq!(c.program, "wt");
    assert_eq!(c.args, wt_launch_args("powershell", "C:\\repos\\api"));
    assert_eq!(c.cwd, None);
}

#[test]
fn terminal_command_falls_back_to_console_window() {
    let c = terminal_command("cmd", false, "C:\\repos\\api");
    assert_eq!(c.program, "cmd");
    assert_eq!(c.args, vec!["/C", "start", "", "cmd"]);
    assert_eq!(c.cwd.as_deref(), Some("C:\\repos\\api"));

    let p = terminal_command("powershell", false, "C:\\repos\\api");
    assert_eq!(p.args, vec!["/C", "start", "", "powershell", "-ExecutionPolicy", "Bypass"]);

    // An unknown shell setting falls back to cmd.
    let u = terminal_command("zsh", false, "/r");
    assert_eq!(u.args, vec!["/C", "start", "", "cmd"]);
}
