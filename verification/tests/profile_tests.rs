use repo_launcher::error::AppError;
use repo_launcher::persistence::{ProfileRow, Repository};
use repo_launcher::profiles::{
    build_profile, exported_profile, import_name, plan_profile_import, validate_profile_name,
    ExportedProfile,
};

fn repo(id: i64, name: &str) -> Repository {
    Repository {
        id,
        project_id: 1,
        name: name.to_string(),
        path: format!("/repos/{name}"),
        package_manager: "npm".to_string(),
        detected_script: Some("dev".to_string()),
        command: None,
        args: None,
        env_file: None,
        enabled: 1,
        favorite: 0,
        visible_console: 0,
        removed_at: None,
        created_at: "c".to_string(),
        updated_at: "u".to_string(),
    }
}

fn strings(v: &[&str]) -> Vec<String> {
    v.iter().map(|s| s.to_string()).collect()
}

#[test]
fn export_then_import_round_trips_by_name() {
    let row = ProfileRow { id: 5, project_id: 1, name: "Backend".to_string(), launch_delay_ms: 2500 };
    let source = vec![Some(repo(2, "worker")), None, Some(repo(1, "api"))];
    let exported = exported_profile(&row, &source);
    assert_eq!(exported.name, "Backend");
    assert_eq!(exported.launch_delay_ms, 2500);
    assert_eq!(exported.members, strings(&["worker", "api"]));

    let target = vec![repo(20, "worker"), repo(10, "api")];
    let plan = plan_profile_import(&exported, &target, &[]).unwrap();
    assert_eq!(plan.name, "Backend");
    assert_eq!(plan.launch_delay_ms, 2500);
    assert_eq!(plan.repository_ids, vec![20, 10]);
    assert!(plan.skipped_members.is_empty());
}

#[test]
fn import_reports_partially_skipped_members() {
    let exported = ExportedProfile { name: "Backend".to_string(), launch_delay_ms: 1000, members: strings(&["api", "ghost"]) };
    let plan = plan_profile_import(&exported, &[repo(7, "api")], &[]).unwrap();
    assert_eq!(plan.skipped_members, strings(&["ghost"]));
    assert_eq!(plan.repository_ids, vec![7]);
}

#[test]
fn import_rejects_when_no_members_match() {
    let exported = ExportedProfile { name: "Backend".to_string(), launch_delay_ms: 1000, members: strings(&["api"]) };
    let err = plan_profile_import(&exported, &[repo(1, "web")], &[]).unwrap_err();
    assert!(err.message().contains("different project"));
    assert!(matches!(err, AppError::Persist(ref m)
        if m == "none of this profile's 1 service(s) were found in this project - it looks like it's from a different project"));
}

#[test]
fn import_of_an_empty_profile_is_allowed() {
    let exported = ExportedProfile { name: "Empty".to_string(), launch_delay_ms: 0, members: vec![] };
    let plan = plan_profile_import(&exported, &[], &[]).unwrap();
    assert!(plan.repository_ids.is_empty());
    assert!(plan.skipped_members.is_empty());
}

#[test]
fn import_auto_suffixes_name_on_collision() {
    assert_eq!(import_name("Backend", &strings(&["Frontend"])), "Backend");
    assert_eq!(import_name("Backend", &strings(&["Backend"])), "Backend (imported)");
    assert_eq!(import_name("Backend", &strings(&["Backend", "Backend (imported)"])), "Backend (imported 2)");
    let many = strings(&[
        "Backend",
        "Backend (imported)",
        "Backend (imported 2)",
        "Backend (imported 3)",
        "Backend (imported 4)",
        "Backend (imported 5)",
        "Backend (imported 6)",
        "Backend (imported 7)",
        "Backend (imported 8)",
        "Backend (imported 9)",
    ]);
    assert_eq!(import_name("Backend", &many), "Backend (imported 10)");
}

#[test]
fn reimport_gets_another_name() {
    let mut existing = strings(&["Backend"]);
    let first = import_name("Backend", &existing);
    existing.push(first.clone());
    let second = import_name("Backend", &existing);
    assert_ne!(first, second);
    assert_eq!(second, "Backend (imported 2)");
}

#[test]
fn profile_names_are_trimmed_and_required() {
    assert_eq!(validate_profile_name("  Dev  ").unwrap(), "Dev");
    assert_eq!(validate_profile_name("  ").unwrap_err().message(), "persistence error: profile name is required");
}

#[test]
fn build_profile_keeps_row_and_members() {
    let p = build_profile(ProfileRow { id: 3, project_id: 1, name: "X".to_string(), launch_delay_ms: 10 }, vec![4, 2]);
    assert_eq!(p.id, 3);
    assert_eq!(p.name, "X");
    assert_eq!(p.launch_delay_ms, 10);
    assert_eq!(p.repository_ids, vec![4, 2]);
}
