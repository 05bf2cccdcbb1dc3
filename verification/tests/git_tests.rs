use repo_launcher::error::AppError;
use repo_launcher::git::{
    branch_sort_key, git_is_dirty, git_list_branches_impl, git_result, git_status_for,
    list_branches, local_branch_names, parse_ahead_behind, parse_i64, remote_branch_names,
    run_git, stash_args, stash_ref, status_from_text, switch_args, BranchSwitch, GitOutput,
    RepoGitStatus, SwitchAction, SwitchEvent, SwitchStage,
};

fn chars(s: &str) -> Vec<char> {
    s.chars().collect()
}

fn names(entries: &[repo_launcher::git::BranchEntry]) -> Vec<(&str, bool)> {
    entries.iter().map(|e| (e.name.as_str(), e.is_current)).collect()
}

#[test]
fn list_branches_current_first_then_common_then_alphabetical() {
    let local = b"zeta\nmain\nfeature\n  develop  \n\nmaster\n";
    let entries = git_list_branches_impl(Some(b"feature\n"), local, b"");
    assert_eq!(
        names(&entries),
        vec![("feature", true), ("main", false), ("master", false), ("develop", false), ("zeta", false)]
    );
}

#[test]
fn list_branches_excludes_remote_head_and_dedupes_by_name() {
    let local = b"main\n";
    let remote = b"origin/HEAD\norigin/main\norigin/feature/x\nupstream/extra\nnoslash\n";
    let entries = git_list_branches_impl(Some(b"main"), local, remote);
    assert_eq!(names(&entries), vec![("main", true), ("extra", false), ("feature/x", false)]);
}

#[test]
fn list_branches_marks_nothing_current_when_detached() {
    let entries = git_list_branches_impl(Some(b"HEAD\n"), b"main\ndev\n", b"");
    assert!(entries.iter().all(|e| !e.is_current));
    assert_eq!(names(&entries), vec![("main", false), ("dev", false)]);
    let failed = git_list_branches_impl(None, b"main\n", b"");
    assert_eq!(names(&failed), vec![("main", false)]);
}

#[test]
fn branch_sort_key_ranks() {
    assert_eq!(branch_sort_key("x", "x"), (0, 0, String::new()));
    assert_eq!(branch_sort_key("main", "x"), (1, 0, String::new()));
    assert_eq!(branch_sort_key("master", "x"), (1, 1, String::new()));
    assert_eq!(branch_sort_key("develop", "x"), (1, 2, String::new()));
    assert_eq!(branch_sort_key("alpha", "x"), (2, 0, "alpha".to_string()));
}

#[test]
fn parse_i64_accepts_what_str_parse_accepts() {
    for s in ["0", "42", "+7", "-3", "9223372036854775807", "-9223372036854775808", "007"] {
        assert_eq!(parse_i64(&chars(s)), s.parse::<i64>().ok(), "{s}");
    }
    for s in ["", "+", "-", "9223372036854775808", "-9223372036854775809", "1a", " 1", "1 ", "--1", "99999999999999999999999"] {
        assert_eq!(parse_i64(&chars(s)), None, "{s}");
        assert!(s.parse::<i64>().is_err());
    }
}

#[test]
fn git_status_for_reads_branch_dirty_and_counts() {
    let st = git_status_for(4, Some(b"main\n"), Some(b" M file\n"), Some(b"2\t5\n")).unwrap();
    assert_eq!(st.repository_id, 4);
    assert_eq!(st.branch, "main");
    assert!(st.dirty);
    assert_eq!(st.behind, 2);
    assert_eq!(st.ahead, 5);
}

#[test]
fn git_status_for_defaults_counts_and_cleanliness() {
    let st = git_status_for(1, Some(b"dev"), Some(b""), None).unwrap();
    assert!(!st.dirty);
    assert_eq!((st.ahead, st.behind), (0, 0));
    let odd = git_status_for(1, Some(b"dev"), None, Some(b"x 1")).unwrap();
    assert!(!odd.dirty);
    assert_eq!((odd.ahead, odd.behind), (0, 0));
    let one = git_status_for(1, Some(b"dev"), None, Some(b"3")).unwrap();
    assert_eq!((one.ahead, one.behind), (0, 0));
}

#[test]
fn git_status_for_returns_none_outside_a_work_tree() {
    assert!(git_status_for(1, None, Some(b""), None).is_none());
    assert!(git_status_for(1, Some(b"  \n"), Some(b""), None).is_none());
}

#[test]
fn git_is_dirty_and_stash_ref() {
    assert!(git_is_dirty(Some(b"?? new.txt\n")));
    assert!(!git_is_dirty(Some(b"")));
    assert!(!git_is_dirty(None));
    assert_eq!(stash_ref(Some(b"abc123\n")).as_deref(), Some("abc123"));
    assert_eq!(stash_ref(None), None);
}

#[test]
fn run_git_formats_results_and_errors() {
    let ok = run_git(&Ok(GitOutput { success: true, stdout: b"out\n".to_vec(), stderr: b" err \n".to_vec() }));
    assert_eq!(ok.unwrap(), "out\n err");
    let failed = run_git(&Ok(GitOutput { success: false, stdout: b"x".to_vec(), stderr: b"fatal: nope\n".to_vec() }));
    assert_eq!(failed.unwrap_err().message(), "launch failed: git: fatal: nope");
    let missing = run_git(&Err("No such file or directory".to_string()));
    assert_eq!(missing.unwrap_err().message(), "launch failed: git failed to run: No such file or directory");
    let lossy = run_git(&Ok(GitOutput { success: true, stdout: vec![0x66, 0xff, 0x6f], stderr: vec![] }));
    assert_eq!(lossy.unwrap(), "f\u{FFFD}o");
}

#[test]
fn stash_and_switch_arguments() {
    assert_eq!(stash_args(false, ""), vec!["stash", "push"]);
    assert_eq!(stash_args(true, "wip"), vec!["stash", "push", "-u", "-m", "wip"]);
    assert_eq!(switch_args("-evil"), vec!["switch", "--", "-evil"]);
}

fn status(branch: &str) -> RepoGitStatus {
    RepoGitStatus { repository_id: 0, branch: branch.to_string(), dirty: false, ahead: 0, behind: 0 }
}

#[test]
fn switch_on_clean_tree_goes_straight_to_switching() {
    let (mut sw, first) = BranchSwitch::new(7, "feature".to_string(), false, String::new(), false);
    assert!(matches!(first, SwitchAction::CheckDirty));
    match sw.step(SwitchEvent::Dirty(false)) {
        SwitchAction::RunGit(args) => assert_eq!(args, vec!["switch", "--", "feature"]),
        other => panic!("unexpected {other:?}"),
    }
    assert!(matches!(sw.step(SwitchEvent::GitDone(Ok(String::new()))), SwitchAction::ReadStatus));
    match sw.step(SwitchEvent::Status(Some(status("feature")))) {
        SwitchAction::Finish(Ok(s)) => {
            assert_eq!(s.repository_id, 7);
            assert_eq!(s.branch, "feature");
        }
        other => panic!("unexpected {other:?}"),
    }
    assert_eq!(sw.stage, SwitchStage::Finished);
}

#[test]
fn switch_rejects_dirty_tree_without_stash() {
    let (mut sw, _) = BranchSwitch::new(1, "main".to_string(), false, String::new(), false);
    match sw.step(SwitchEvent::Dirty(true)) {
        SwitchAction::Finish(Err(e)) => assert_eq!(
            e.message(),
            "launch failed: repository has uncommitted changes - stash or commit them before switching branches"
        ),
        other => panic!("unexpected {other:?}"),
    }
}

#[test]
fn switch_stashes_with_message_then_switches() {
    let (mut sw, _) = BranchSwitch::new(1, "main".to_string(), true, "before switch".to_string(), true);
    assert!(matches!(sw.step(SwitchEvent::Dirty(true)), SwitchAction::ReadStashRef));
    match sw.step(SwitchEvent::StashRef(None)) {
        SwitchAction::RunGit(args) => assert_eq!(args, vec!["stash", "push", "-u", "-m", "before switch"]),
        other => panic!("unexpected {other:?}"),
    }
    assert!(matches!(sw.step(SwitchEvent::GitDone(Ok("Saved".to_string()))), SwitchAction::ReadStashRef));
    assert!(matches!(sw.step(SwitchEvent::StashRef(Some("abc".to_string()))), SwitchAction::RunGit(_)));
    assert!(sw.stash_created);
}

#[test]
fn failed_switch_after_a_real_stash_says_so() {
    let (mut sw, _) = BranchSwitch::new(1, "nope".to_string(), true, String::new(), false);
    sw.step(SwitchEvent::Dirty(true));
    sw.step(SwitchEvent::StashRef(Some("old".to_string())));
    sw.step(SwitchEvent::GitDone(Ok(String::new())));
    sw.step(SwitchEvent::StashRef(Some("new".to_string())));
    match sw.step(SwitchEvent::GitDone(Err(AppError::Launch("git: invalid reference: nope".to_string())))) {
        SwitchAction::Finish(Err(e)) => assert_eq!(
            e.message(),
            "launch failed: changes were stashed successfully, but switching to 'nope' failed: launch failed: git: invalid reference: nope. Run `git stash list` to find your stashed changes."
        ),
        other => panic!("unexpected {other:?}"),
    }
}

#[test]
fn untracked_only_switch_failure_does_not_claim_stash_success() {
    // The stash push saved nothing: refs/stash is unchanged, so no stash is claimed.
    let (mut sw, _) = BranchSwitch::new(1, "nope".to_string(), true, String::new(), false);
    sw.step(SwitchEvent::Dirty(true));
    sw.step(SwitchEvent::StashRef(None));
    sw.step(SwitchEvent::GitDone(Ok("No local changes to save".to_string())));
    sw.step(SwitchEvent::StashRef(None));
    assert!(!sw.stash_created);
    match sw.step(SwitchEvent::GitDone(Err(AppError::Launch("git: invalid reference: nope".to_string())))) {
        SwitchAction::Finish(Err(e)) => assert_eq!(e.message(), "launch failed: git: invalid reference: nope"),
        other => panic!("unexpected {other:?}"),
    }
}

#[test]
fn failed_stash_ends_the_switch() {
    let (mut sw, _) = BranchSwitch::new(1, "main".to_string(), true, String::new(), false);
    sw.step(SwitchEvent::Dirty(true));
    sw.step(SwitchEvent::StashRef(None));
    match sw.step(SwitchEvent::GitDone(Err(AppError::Launch("git: cannot stash".to_string())))) {
        SwitchAction::Finish(Err(e)) => assert_eq!(e.message(), "launch failed: git: cannot stash"),
        other => panic!("unexpected {other:?}"),
    }
}

#[test]
fn unreadable_status_after_switch_is_an_error() {
    let (mut sw, _) = BranchSwitch::new(1, "main".to_string(), false, String::new(), false);
    sw.step(SwitchEvent::Dirty(false));
    sw.step(SwitchEvent::GitDone(Ok(String::new())));
    match sw.step(SwitchEvent::Status(None)) {
        SwitchAction::Finish(Err(e)) => assert_eq!(
            e.message(),
            "launch failed: branch switched, but failed to read updated status"
        ),
        other => panic!("unexpected {other:?}"),
    }
}

#[test]
fn text_level_branch_listing() {
    assert_eq!(local_branch_names(" a \n\n b\r\n"), vec!["a", "b"]);
    assert_eq!(remote_branch_names("origin/HEAD\norigin/x/y\nz\n"), vec!["x/y"]);
    let entries = list_branches("b", "a\nb\n", "origin/a\norigin/c\n");
    assert_eq!(names(&entries), vec![("b", true), ("a", false), ("c", false)]);
}

#[test]
fn text_level_status_and_results() {
    assert_eq!(parse_ahead_behind("  4 \t 9\n"), (9, 4));
    assert_eq!(parse_ahead_behind("4"), (0, 0));
    assert_eq!(parse_ahead_behind(""), (0, 0));
    let st = status_from_text(2, Some(" main \n"), true, Some("1 2")).unwrap();
    assert_eq!((st.branch.as_str(), st.dirty, st.ahead, st.behind), ("main", true, 2, 1));
    assert!(status_from_text(2, Some(""), false, None).is_none());
    assert_eq!(git_result(true, "a\n", "b\n").unwrap(), "a\nb");
    assert_eq!(git_result(false, "", "  boom ").unwrap_err().message(), "launch failed: git: boom");
}
