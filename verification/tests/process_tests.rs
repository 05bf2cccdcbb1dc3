use repo_launcher::launcher::{check_dependencies, plan_launch, LaunchRun, LaunchStep};
use repo_launcher::persistence::Repository;
use repo_launcher::process_manager::{exit_history_status, LaunchSpec, ProcStatus, ProcessTable};

fn spec(program: &str) -> LaunchSpec {
    LaunchSpec {
        program: program.to_string(),
        args: vec!["-c".to_string(), "npm run dev".to_string()],
        cwd: "/p/api".to_string(),
        env: vec![("PORT".to_string(), "1".to_string())],
        visible: false,
    }
}

#[test]
fn start_is_refused_while_running() {
    let mut t = ProcessTable::new();
    assert_eq!(t.check_start(1), Ok(0));
    let g = t.next_generation();
    let up = t.record_spawn(1, Some(10), 0, g, spec("sh"), None, 0);
    assert_eq!(up.status, ProcStatus::Running);
    assert_eq!(up.pid, Some(10));
    assert!(t.is_running(1));
    assert_eq!(t.check_start(1), Err("repository is already running".to_string()));
}

#[test]
fn user_stop_then_exit_is_stopped() {
    let mut t = ProcessTable::new();
    let g = t.next_generation();
    t.record_spawn(1, Some(10), 0, g, spec("sh"), Some(77), 5);
    assert_eq!(t.begin_stop(1), Ok(5));
    let (update, was_stopping, job) = t.record_exit(1, g, Some(1)).unwrap();
    assert_eq!(update.status, ProcStatus::Stopped);
    assert_eq!(update.exit_code, Some(1));
    assert!(was_stopping);
    assert_eq!(job, 5);
    assert_eq!(exit_history_status(was_stopping), "stopped");
    assert!(!t.is_running(1));
    // Stopping again is refused: it is no longer running.
    assert_eq!(t.begin_stop(1), Err("repository is not running".to_string()));
}

#[test]
fn unrequested_exit_is_crashed() {
    let mut t = ProcessTable::new();
    let g = t.next_generation();
    t.record_spawn(3, None, 0, g, spec("sh"), None, 0);
    let (update, was_stopping, _) = t.record_exit(3, g, None).unwrap();
    assert_eq!(update.status, ProcStatus::Crashed);
    assert!(!was_stopping);
    assert_eq!(exit_history_status(was_stopping), "crashed");
    // After the exit it may be started again.
    assert_eq!(t.check_start(3), Ok(0));
}

#[test]
fn stale_exit_is_ignored() {
    let mut t = ProcessTable::new();
    let g1 = t.next_generation();
    t.record_spawn(1, Some(10), 0, g1, spec("sh"), None, 0);
    let g2 = t.next_generation();
    assert_ne!(g1, g2);
    t.record_spawn(1, Some(11), 1, g2, spec("sh"), None, 0);
    assert!(t.record_exit(1, g1, Some(0)).is_none());
    assert!(t.is_running(1));
    assert!(t.record_exit(1, g2, Some(0)).is_some());
}

#[test]
fn restart_bumps_the_restart_count_and_reuses_the_spec() {
    let mut t = ProcessTable::new();
    assert_eq!(t.restart_count_after(9), 1);
    assert!(t.restart_spec(9).is_err());
    let g = t.next_generation();
    t.record_spawn(9, Some(1), 2, g, spec("cmd"), None, 0);
    assert_eq!(t.restart_count_after(9), 3);
    let s = t.restart_spec(9).unwrap();
    assert_eq!(s.program, "cmd");
    assert_eq!(s.args, vec!["-c", "npm run dev"]);
    assert_eq!(s.env, vec![("PORT".to_string(), "1".to_string())]);
}

#[test]
fn stop_all_marks_everything_stopping() {
    let mut t = ProcessTable::new();
    let g1 = t.next_generation();
    t.record_spawn(1, Some(1), 0, g1, spec("sh"), None, 11);
    let g2 = t.next_generation();
    t.record_spawn(2, Some(2), 0, g2, spec("sh"), None, 22);
    let mut jobs = t.stop_all_for_exit();
    jobs.sort();
    assert_eq!(jobs, vec![11, 22]);
    let (u, _, _) = t.record_exit(2, g2, Some(0)).unwrap();
    assert_eq!(u.status, ProcStatus::Stopped);
}

fn repo(id: i64, enabled: i64, script: Option<&str>) -> Repository {
    Repository {
        id,
        project_id: 1,
        name: format!("r{id}"),
        path: format!("/p/r{id}"),
        package_manager: "npm".to_string(),
        detected_script: script.map(|s| s.to_string()),
        command: None,
        args: None,
        env_file: None,
        enabled,
        favorite: 0,
        visible_console: 0,
        removed_at: None,
        created_at: "c".to_string(),
        updated_at: "u".to_string(),
    }
}

#[test]
fn plan_skips_blocked_repositories_and_orders_the_rest() {
    // 1 depends on 2; 2 is disabled, so 1 is blocked. 3 depends on 4.
    let repos = vec![repo(1, 1, Some("dev")), repo(2, 0, Some("dev")), repo(3, 1, Some("dev")), repo(4, 1, Some("dev")), repo(5, 1, None)];
    let edges = [(1, 2), (3, 4)];
    let plan = plan_launch(&repos, &edges).unwrap();
    assert_eq!(plan.order, vec![4, 3]);
    assert_eq!(plan.enabled_ids, vec![1, 3, 4, 5]);

    let mut run = LaunchRun::new(plan);
    assert!(!run.wait_before_next());
    assert!(matches!(run.next_step(), LaunchStep::Start(4)));
    run.record_start(true);
    assert!(run.wait_before_next());
    assert!(matches!(run.next_step(), LaunchStep::Start(3)));
    run.record_start(false);
    assert!(!run.wait_before_next());
    assert!(matches!(run.next_step(), LaunchStep::Finished));
    assert_eq!(run.final_status(), "completed");
    let result = run.result();
    assert_eq!(result.started, vec![4]);
    assert_eq!(result.skipped, vec![1, 3, 5]);
}

#[test]
fn plan_reports_cycles_by_name() {
    let repos = vec![repo(1, 1, Some("dev")), repo(2, 1, Some("dev"))];
    let err = plan_launch(&repos, &[(1, 2), (2, 1)]).err().unwrap();
    assert_eq!(err.message(), "dependency cycle: dependency cycle involving: r1, r2");
}

#[test]
fn a_run_that_starts_nothing_failed() {
    let repos = vec![repo(1, 1, Some("dev"))];
    let mut run = LaunchRun::new(plan_launch(&repos, &[]).unwrap());
    run.record_start(false);
    assert_eq!(run.final_status(), "failed");
    assert_eq!(run.result().skipped, vec![1]);
}

#[test]
fn dependency_edit_creating_a_cycle_is_refused() {
    let repos = vec![repo(1, 1, Some("dev")), repo(2, 1, Some("dev")), repo(3, 1, Some("dev"))];
    // 2 already depends on 1; making 1 depend on 2 closes a cycle.
    let err = check_dependencies(1, &[2, 1], &repos, &[(2, 1)]).unwrap_err();
    assert_eq!(err.message(), "dependency cycle: dependency cycle involving: r1, r2");
    // Replacing 2's own dependencies is fine: its old edge is dropped first.
    assert!(check_dependencies(2, &[3], &repos, &[(2, 1), (1, 3)]).is_ok());
    // A self-dependency is ignored.
    assert!(check_dependencies(3, &[3], &repos, &[]).is_ok());
}

#[test]
fn plan_runs_toolchains_with_a_fixed_default_command() {
    // A cargo repository has no script but runs `cargo run`; an npm one without a script
    // has nothing to run.
    let mut cargo = repo(1, 1, None);
    cargo.package_manager = "cargo".to_string();
    let plan = plan_launch(&[cargo, repo(2, 1, None)], &[]).unwrap();
    assert_eq!(plan.order, vec![1]);
    assert_eq!(plan.enabled_ids, vec![1, 2]);
}
