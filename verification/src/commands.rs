//! The decisions behind the launcher's commands: the shapes of their results, name and
//! configuration validation, shell and terminal argument lists, settings defaults, error
//! messages, refreshing and moving repositories, the guard on deleting a project, env-file
//! listing and launch-history records. The commands themselves (database, file system,
//! processes) run around the library and call these.

use vstd::prelude::*;
use crate::error::AppError;
use crate::persistence::{LaunchHistoryItemRow, LaunchHistoryRow, Project, RepoRemap, Repository};
use crate::process_manager::ProcessTable;
use crate::scanner::{
    classified,
    classify_repo_dir,
    opt_view,
    pm_name,
    pm_of_name,
    scan_error_message,
    DirProbe,
    DiscoveredRepo,
    DiscoveredRepoView,
    PackageManager,
    ScanError,
};
use crate::text::{concat2, i64_to_string, int_decimal, owned, seq_lt, str_eq, trim, trim_str};

verus! {

/// The views of a list of strings.
pub open spec fn views(v: Seq<String>) -> Seq<Seq<char>> {
    v.map_values(|s: String| s@)
}

/// Response for opening or re-scanning a project: the project plus its active repositories.
#[derive(Debug, Clone)]
pub struct ProjectWithRepos {
    pub project: Project,
    pub repositories: Vec<Repository>,
}

/// Response for a detection refresh: the active repositories plus which of them could not
/// be found on disk (nothing is changed for a repository that is simply missing).
#[derive(Debug, Clone)]
pub struct RefreshResult {
    pub project: Project,
    pub repositories: Vec<Repository>,
    pub missing_repository_ids: Vec<i64>,
    pub root_missing: bool,
}

/// A dependency edge: `repository_id` depends on `depends_on_repository_id`.
#[derive(Debug, Clone, Copy)]
pub struct DependencyEdge {
    pub repository_id: i64,
    pub depends_on_repository_id: i64,
}

/// Outcome of an "Execute All" run.
#[derive(Debug, Clone)]
pub struct ExecuteResult {
    pub started: Vec<i64>,
    pub skipped: Vec<i64>,
}

/// A repository within a launch record.
#[derive(Debug, Clone)]
pub struct LaunchItemRecord {
    pub repository_name: String,
    pub status: String,
    pub pid: Option<i64>,
    pub exit_code: Option<i64>,
    pub stopped_at: Option<String>,
}

/// A launch run with its repositories resolved to names.
#[derive(Debug, Clone)]
pub struct LaunchRecord {
    pub id: i64,
    pub profile_name: Option<String>,
    pub started_at: String,
    pub finished_at: Option<String>,
    pub status: String,
    pub items: Vec<LaunchItemRecord>,
}

/// Turns stored dependency pairs into edges.
pub fn dependency_edges(pairs: &[(i64, i64)]) -> (r: Vec<DependencyEdge>)
    ensures
        r@.len() == pairs@.len(),
        forall|k: int|
            #![trigger r@[k]]
            0 <= k < pairs@.len() ==> r@[k].repository_id == pairs@[k].0
                && r@[k].depends_on_repository_id == pairs@[k].1,
{
    let mut out: Vec<DependencyEdge> = Vec::new();
    let mut i: usize = 0;
    while i < pairs.len()
        invariant
            0 <= i <= pairs@.len(),
            out@.len() == i,
            forall|k: int|
                #![trigger out@[k]]
                0 <= k < i ==> out@[k].repository_id == pairs@[k].0
                    && out@[k].depends_on_repository_id == pairs@[k].1,
        decreases pairs.len() - i,
    {
        let (a, b) = pairs[i];
        out.push(DependencyEdge { repository_id: a, depends_on_repository_id: b });
        i += 1;
    }
    out
}

// ── Names in messages ─────────────────────────────────────────────────────────

/// The name of the first repository from position `k` on with id `id`, or `#<id>` when
/// there is none.
pub open spec fn repo_name_for(repos: Seq<Repository>, id: i64, k: nat) -> Seq<char>
    decreases repos.len() - k,
{
    if k >= repos.len() {
        "#"@ + int_decimal(id as int)
    } else if repos[k as int].id == id {
        repos[k as int].name@
    } else {
        repo_name_for(repos, id, k + 1)
    }
}

/// The parts joined with `sep` between consecutive parts.
pub open spec fn join_with(parts: Seq<Seq<char>>, sep: Seq<char>) -> Seq<char>
    decreases parts.len(),
{
    if parts.len() == 0 {
        Seq::empty()
    } else if parts.len() == 1 {
        parts[0]
    } else {
        join_with(parts.drop_last(), sep) + sep + parts.last()
    }
}

/// The names of the repositories in a cycle, in the cycle's order.
pub open spec fn cycle_name_list(repos: Seq<Repository>, cyclic: Seq<i64>) -> Seq<Seq<char>> {
    cyclic.map_values(|id: i64| repo_name_for(repos, id, 0))
}

/// The message reported for a dependency cycle.
pub open spec fn cycle_message(repos: Seq<Repository>, cyclic: Seq<i64>) -> Seq<char> {
    "dependency cycle involving: "@ + join_with(cycle_name_list(repos, cyclic), ", "@)
}

/// Name of the repository with id `id`, or `#<id>` when it is not listed.
pub fn repo_name_or_id(repos: &[Repository], id: i64) -> (r: String)
    ensures
        r@ == repo_name_for(repos@, id, 0),
{
    let mut k: usize = 0;
    while k < repos.len()
        invariant
            0 <= k <= repos@.len(),
            repo_name_for(repos@, id, 0) == repo_name_for(repos@, id, k as nat),
        decreases repos.len() - k,
    {
        if repos[k].id == id {
            return repos[k].name.clone();
        }
        k += 1;
    }
    let digits = i64_to_string(id);
    concat2("#", digits.as_str())
}

/// Formats a cycle's repository ids as a readable "name, name" list for an error message.
pub fn cycle_names(repos: &[Repository], cyclic: &[i64]) -> (r: String)
    ensures
        r@ == cycle_message(repos@, cyclic@),
{
    let ghost names = cycle_name_list(repos@, cyclic@);
    let mut joined = String::new();
    let mut i: usize = 0;
    while i < cyclic.len()
        invariant
            0 <= i <= cyclic@.len(),
            names == cycle_name_list(repos@, cyclic@),
            names.len() == cyclic@.len(),
            joined@ == join_with(names.take(i as int), ", "@),
        decreases cyclic.len() - i,
    {
        let name = repo_name_or_id(repos, cyclic[i]);
        proof {
            assert(names[i as int] == name@);
            assert(names.take(i as int + 1).drop_last() =~= names.take(i as int));
            assert(names.take(i as int + 1).last() == name@);
            if i == 0 {
                assert(names.take(1) =~= seq![name@]);
            }
        }
        if i != 0 {
            joined.append(", ");
        }
        joined.append(name.as_str());
        i += 1;
    }
    proof {
        assert(names.take(cyclic@.len() as int) =~= names);
    }
    concat2("dependency cycle involving: ", joined.as_str())
}

// ── Project names ─────────────────────────────────────────────────────────────

/// Trims a project name and requires it to be non-empty. Returns the trimmed name.
pub fn validate_project_name(name: &str) -> (r: Result<String, AppError>)
    ensures
        trim(name@).len() > 0 ==> (r matches Ok(s) && s@ == trim(name@)),
        trim(name@).len() == 0 ==> (r matches Err(AppError::Persist(m)) && m@
            == "project name cannot be empty"@),
{
    let trimmed = trim_str(name);
    if trimmed.unicode_len() == 0 {
        return Err(AppError::Persist(owned("project name cannot be empty")));
    }
    Ok(trimmed)
}

// ── Terminal shell ────────────────────────────────────────────────────────────

/// The program a `terminal_shell` setting names: `powershell`, or `cmd` for anything else.
pub open spec fn shell_program_spec(terminal_shell: Seq<char>) -> Seq<char> {
    if terminal_shell == "powershell"@ {
        "powershell"@
    } else {
        "cmd"@
    }
}

/// Maps a `terminal_shell` setting to the program used to open an interactive shell.
/// Unknown or empty values fall back to `cmd`.
pub fn shell_program(terminal_shell: &str) -> (r: &'static str)
    ensures
        r@ == shell_program_spec(terminal_shell@),
{
    if str_eq(terminal_shell, "powershell") {
        "powershell"
    } else {
        "cmd"
    }
}

/// The program and arguments that run `command_line` in the chosen shell on Windows.
pub open spec fn launch_program_args_spec(terminal_shell: Seq<char>, command_line: Seq<char>) -> (
    Seq<char>,
    Seq<Seq<char>>,
) {
    if terminal_shell == "powershell"@ {
        (
            "powershell"@,
            seq![
                "-NoProfile"@,
                "-ExecutionPolicy"@,
                "Bypass"@,
                "-Command"@,
                command_line,
            ],
        )
    } else {
        ("cmd"@, seq!["/C"@, command_line])
    }
}

/// Builds the (program, args) pair used to run `command_line` in the chosen shell:
/// `cmd /C <line>` by default, or `powershell -NoProfile -ExecutionPolicy Bypass -Command
/// <line>` (the bypass lets the package managers' `.ps1` shims load).
pub fn windows_launch_program_args(terminal_shell: &str, command_line: &str) -> (r: (
    String,
    Vec<String>,
))
    ensures
        (r.0@, views(r.1@)) == launch_program_args_spec(terminal_shell@, command_line@),
{
    if str_eq(terminal_shell, "powershell") {
        let mut args: Vec<String> = Vec::new();
        args.push(owned("-NoProfile"));
        args.push(owned("-ExecutionPolicy"));
        args.push(owned("Bypass"));
        args.push(owned("-Command"));
        args.push(owned(command_line));
        proof {
            assert(views(args@) =~= seq![
                "-NoProfile"@,
                "-ExecutionPolicy"@,
                "Bypass"@,
                "-Command"@,
                command_line@,
            ]);
        }
        (owned("powershell"), args)
    } else {
        let mut args: Vec<String> = Vec::new();
        args.push(owned("/C"));
        args.push(owned(command_line));
        proof {
            assert(views(args@) =~= seq!["/C"@, command_line@]);
        }
        (owned("cmd"), args)
    }
}

/// Windows Terminal arguments: a new tab in the most recently used window, starting in
/// `repo_path`, running `shell` (with the execution-policy bypass for PowerShell).
pub open spec fn wt_launch_args_spec(shell: Seq<char>, repo_path: Seq<char>) -> Seq<Seq<char>> {
    let base = seq!["-w"@, "0"@, "nt"@, "-d"@, repo_path, shell];
    if shell == "powershell"@ {
        base + seq!["-ExecutionPolicy"@, "Bypass"@]
    } else {
        base
    }
}

/// Builds the arguments for opening a new Windows Terminal tab at `repo_path` running `shell`.
pub fn wt_launch_args(shell: &str, repo_path: &str) -> (r: Vec<String>)
    ensures
        views(r@) == wt_launch_args_spec(shell@, repo_path@),
{
    let mut args: Vec<String> = Vec::new();
    args.push(owned("-w"));
    args.push(owned("0"));
    args.push(owned("nt"));
    args.push(owned("-d"));
    args.push(owned(repo_path));
    args.push(owned(shell));
    if str_eq(shell, "powershell") {
        args.push(owned("-ExecutionPolicy"));
        args.push(owned("Bypass"));
    }
    proof {
        assert(views(args@) =~= wt_launch_args_spec(shell@, repo_path@));
    }
    args
}

// ── Settings ──────────────────────────────────────────────────────────────────

/// Application settings, stored as one JSON document. Missing fields of an older stored
/// document take their default values.
#[derive(Debug, Clone)]
pub struct Settings {
    pub theme: String,
    pub launch_delay_ms: i64,
    pub auto_detect: bool,
    pub restore_last_project: bool,
    pub restore_last_selection: bool,
    pub auto_restart: bool,
    pub log_retention: i64,
    pub notifications_enabled: bool,
    pub terminal_shell: String,
    pub visible_actions: Vec<String>,
}

/// The actions shown on a repository row by default.
pub open spec fn default_visible_actions() -> Seq<Seq<char>> {
    seq!["logs"@, "openFolder"@, "openTerminal"@, "edit"@, "remove"@]
}

/// Builds the default list of visible row actions.
pub fn default_visible_actions_vec() -> (r: Vec<String>)
    ensures
        views(r@) == default_visible_actions(),
{
    let mut v: Vec<String> = Vec::new();
    v.push(owned("logs"));
    v.push(owned("openFolder"));
    v.push(owned("openTerminal"));
    v.push(owned("edit"));
    v.push(owned("remove"));
    proof {
        assert(views(v@) =~= default_visible_actions());
    }
    v
}

impl Default for Settings {
    fn default() -> (r: Self)
        ensures
            r.theme@ == "system"@,
            r.launch_delay_ms == 1000,
            r.auto_detect,
            !r.restore_last_project,
            r.restore_last_selection,
            !r.auto_restart,
            r.log_retention == 1000,
            !r.notifications_enabled,
            r.terminal_shell@ == "cmd"@,
            views(r.visible_actions@) == default_visible_actions(),
    {
        Settings {
            theme: owned("system"),
            launch_delay_ms: 1000,
            auto_detect: true,
            restore_last_project: false,
            restore_last_selection: true,
            auto_restart: false,
            log_retention: 1000,
            notifications_enabled: false,
            terminal_shell: owned("cmd"),
            visible_actions: default_visible_actions_vec(),
        }
    }
}

// ── Opening, adding and moving repositories ───────────────────────────────────

/// The error for a path that is not a directory.
pub fn not_a_directory(path: &str) -> (r: AppError)
    ensures
        r matches AppError::Scan(m) && m@ == "not a directory: "@ + path@,
{
    AppError::Scan(concat2("not a directory: ", path))
}

/// A project's name: the root folder's own name, or the whole root path when it has none.
pub fn project_display_name(leaf: Option<&str>, root_path: &str) -> (r: String)
    ensures
        r@ == match leaf {
            Some(l) => l@,
            None => root_path@,
        },
{
    match leaf {
        Some(l) => owned(l),
        None => owned(root_path),
    }
}

/// The error a failed scan is reported as.
pub fn scan_failure(e: &ScanError) -> (r: AppError)
    ensures
        r matches AppError::Scan(m) && m@ == scan_error_message(*e),
{
    AppError::Scan(e.message())
}

/// A newly discovered repository starts enabled only when a start script was detected.
pub fn default_enabled(repo: &DiscoveredRepo) -> (r: bool)
    ensures
        r == repo.detected_script is Some,
{
    repo.detected_script.is_some()
}

/// The repository a manually chosen folder is: it must be a directory that classifies.
pub fn manual_repository(path: &str, is_dir: bool, probe: &DirProbe) -> (r: Result<
    DiscoveredRepo,
    AppError,
>)
    ensures
        !is_dir ==> (r matches Err(AppError::Scan(m)) && m@ == "not a directory: "@ + path@),
        is_dir ==> match classified(*probe, None) {
            Some(d) => r matches Ok(repo) && repo@ == d,
            None => r matches Err(AppError::Scan(m)) && m@ == "no package.json found in: "@
                + path@,
        },
{
    if !is_dir {
        return Err(not_a_directory(path));
    }
    match classify_repo_dir(probe, None) {
        Some(repo) => Ok(repo),
        None => Err(AppError::Scan(concat2("no package.json found in: ", path))),
    }
}

/// The error for a failed path update of a project: a clash with another project's path
/// gets its own message.
pub fn project_path_error(unique_violation: bool, detail: String) -> (r: AppError)
    ensures
        unique_violation ==> (r matches AppError::Persist(m) && m@
            == "another project already uses this path"@),
        !unique_violation ==> r == AppError::Persist(detail),
{
    if unique_violation {
        AppError::Persist(owned("another project already uses this path"))
    } else {
        AppError::Persist(detail)
    }
}

/// The error for a failed path update of a repository: a clash with another repository of
/// the project gets its own message.
pub fn repository_path_error(unique_violation: bool, detail: String) -> (r: AppError)
    ensures
        unique_violation ==> (r matches AppError::Persist(m) && m@
            == "another repository in this project already uses this path"@),
        !unique_violation ==> r == AppError::Persist(detail),
{
    if unique_violation {
        AppError::Persist(owned("another repository in this project already uses this path"))
    } else {
        AppError::Persist(detail)
    }
}

/// A repository and the folder at its location under the new root (`None` when its path is
/// not under the old root).
#[derive(Debug)]
pub struct RemapCandidate {
    pub repository_id: i64,
    pub name: String,
    pub probe: Option<DirProbe>,
}

/// The new location of each repository that still classifies at the same relative path
/// under the new root, in repository order; the others are left out.
pub open spec fn remaps(candidates: Seq<RemapCandidate>) -> Seq<(i64, Seq<char>, Seq<char>, Option<Seq<char>>)>
    decreases candidates.len(),
{
    if candidates.len() == 0 {
        Seq::empty()
    } else {
        let c = candidates.last();
        let before = remaps(candidates.drop_last());
        match c.probe {
            Some(p) => match classified(p, Some(c.name@)) {
                Some(d) => before.push((c.repository_id, d.path, pm_name(d.package_manager), d.detected_script)),
                None => before,
            },
            None => before,
        }
    }
}

/// What a scan finds in a candidate's folder under the new root, if anything.
#[verifier::opaque]
pub open spec fn scan_at_new_root(c: RemapCandidate) -> Option<DiscoveredRepoView> {
    match c.probe {
        Some(p) => classified(p, Some(c.name@)),
        None => None,
    }
}

/// The remap a scan result `d` gives repository `id`: the path, package manager name and
/// script that the scan reports.
pub open spec fn remap_from_scan(id: i64, d: DiscoveredRepoView) -> (i64, Seq<char>, Seq<char>, Option<Seq<char>>) {
    (id, d.path, pm_name(d.package_manager), d.detected_script)
}

/// `e` is the remap that a scan gives candidate `k`, whose new folder classifies.
pub open spec fn remap_of_candidate(
    candidates: Seq<RemapCandidate>,
    k: int,
    e: (i64, Seq<char>, Seq<char>, Option<Seq<char>>),
) -> bool {
    0 <= k < candidates.len() && scan_at_new_root(candidates[k]) is Some && e == remap_from_scan(
        candidates[k].repository_id,
        scan_at_new_root(candidates[k])->0,
    )
}

/// `e` is the remap that a scan gives some candidate whose new folder classifies.
pub open spec fn remap_of_some_candidate(
    candidates: Seq<RemapCandidate>,
    e: (i64, Seq<char>, Seq<char>, Option<Seq<char>>),
) -> bool {
    exists|k: int| #[trigger] remap_of_candidate(candidates, k, e)
}

/// Every entry of `u` is the remap that a scan gives some candidate whose new folder
/// classifies.
pub open spec fn each_remap_from_a_scan(
    candidates: Seq<RemapCandidate>,
    u: Seq<(i64, Seq<char>, Seq<char>, Option<Seq<char>>)>,
) -> bool {
    forall|j: int| 0 <= j < u.len() ==> #[trigger] remap_of_some_candidate(candidates, u[j])
}

/// Every candidate whose new folder classifies has the remap its scan gives in `u`.
pub open spec fn each_scan_remapped(
    candidates: Seq<RemapCandidate>,
    u: Seq<(i64, Seq<char>, Seq<char>, Option<Seq<char>>)>,
) -> bool {
    forall|k: int|
        #![trigger candidates[k]]
        0 <= k < candidates.len() && scan_at_new_root(candidates[k]) is Some ==> exists|j: int|
            0 <= j < u.len() && #[trigger] remap_of_candidate(candidates, k, u[j])
}

proof fn lemma_remaps_step(candidates: Seq<RemapCandidate>)
    requires
        candidates.len() > 0,
    ensures
        ({
            let c = candidates.last();
            let before = remaps(candidates.drop_last());
            remaps(candidates) == if scan_at_new_root(c) is Some {
                before.push(remap_from_scan(c.repository_id, scan_at_new_root(c)->0))
            } else {
                before
            }
        }),
{
    reveal(scan_at_new_root);
}

proof fn lemma_remap_of_init(candidates: Seq<RemapCandidate>)
    requires
        candidates.len() > 0,
    ensures
        forall|k: int, e: (i64, Seq<char>, Seq<char>, Option<Seq<char>>)|
            #[trigger] remap_of_candidate(candidates.drop_last(), k, e) ==> remap_of_candidate(
                candidates,
                k,
                e,
            ),
{
    let init = candidates.drop_last();
    assert forall|k: int, e: (i64, Seq<char>, Seq<char>, Option<Seq<char>>)|
        #[trigger] remap_of_candidate(init, k, e) implies remap_of_candidate(candidates, k, e) by {
        assert(init[k] == candidates[k]);
    }
}

proof fn lemma_each_remap_from_a_scan(candidates: Seq<RemapCandidate>)
    ensures
        remaps(candidates).len() <= candidates.len(),
        each_remap_from_a_scan(candidates, remaps(candidates)),
    decreases candidates.len(),
{
    if candidates.len() > 0 {
        let n = candidates.len() - 1;
        let init = candidates.drop_last();
        lemma_each_remap_from_a_scan(init);
        lemma_remaps_step(candidates);
        lemma_remap_of_init(candidates);
        let before = remaps(init);
        let u = remaps(candidates);
        assert forall|j: int| 0 <= j < u.len() implies #[trigger] remap_of_some_candidate(
            candidates,
            u[j],
        ) by {
            if j < before.len() {
                assert(u[j] == before[j]);
                assert(remap_of_some_candidate(init, before[j]));
                let k = choose|k: int| #[trigger] remap_of_candidate(init, k, before[j]);
                assert(remap_of_candidate(candidates, k, u[j]));
            } else {
                assert(remap_of_candidate(candidates, n, u[j]));
            }
        }
    }
}

proof fn lemma_each_scan_remapped(candidates: Seq<RemapCandidate>)
    ensures
        each_scan_remapped(candidates, remaps(candidates)),
    decreases candidates.len(),
{
    if candidates.len() > 0 {
        let n = candidates.len() - 1;
        let init = candidates.drop_last();
        lemma_each_scan_remapped(init);
        lemma_remaps_step(candidates);
        lemma_remap_of_init(candidates);
        let before = remaps(init);
        let u = remaps(candidates);
        assert forall|k: int|
            #![trigger candidates[k]]
            0 <= k < candidates.len() && scan_at_new_root(candidates[k]) is Some implies exists|
            j: int,
        | 0 <= j < u.len() && #[trigger] remap_of_candidate(candidates, k, u[j]) by {
            if k < n {
                assert(init[k] == candidates[k]);
                let j = choose|j: int|
                    0 <= j < before.len() && #[trigger] remap_of_candidate(init, k, before[j]);
                assert(u[j] == before[j]);
                assert(remap_of_candidate(candidates, k, u[j]));
            } else {
                assert(candidates[k] == candidates.last());
                assert(remap_of_candidate(candidates, n, u[before.len() as int]));
            }
        }
    }
}

/// A move remaps exactly what a scan of the new folders finds: every remap is of a candidate
/// whose new folder classifies, with the path, package manager and script that the scan
/// reports there, and every candidate whose new folder classifies is remapped so.
pub proof fn law_remap_agrees_with_scan(candidates: Seq<RemapCandidate>)
    ensures
        remaps(candidates).len() <= candidates.len(),
        each_remap_from_a_scan(candidates, remaps(candidates)),
        each_scan_remapped(candidates, remaps(candidates)),
{
    lemma_each_remap_from_a_scan(candidates);
    lemma_each_scan_remapped(candidates);
}

/// The contents of a remap.
pub open spec fn remap_view(r: RepoRemap) -> (i64, Seq<char>, Seq<char>, Option<Seq<char>>) {
    (r.repository_id, r.path@, r.package_manager@, opt_view(r.detected_script))
}

/// Works out which repositories survive a project move: those that still classify at the
/// same relative path under the new root keep their ids and settings.
pub fn compute_repo_remap(candidates: &[RemapCandidate]) -> (r: Vec<RepoRemap>)
    ensures
        r@.map_values(|x: RepoRemap| remap_view(x)) == remaps(candidates@),
{
    let mut out: Vec<RepoRemap> = Vec::new();
    let mut i: usize = 0;
    while i < candidates.len()
        invariant
            0 <= i <= candidates@.len(),
            out@.map_values(|x: RepoRemap| remap_view(x)) == remaps(candidates@.take(i as int)),
        decreases candidates.len() - i,
    {
        let c = &candidates[i];
        proof {
            assert(candidates@.take(i as int + 1).drop_last() =~= candidates@.take(i as int));
            assert(candidates@.take(i as int + 1).last() == *c);
        }
        match &c.probe {
            Some(p) => match classify_repo_dir(p, Some(c.name.as_str())) {
                Some(d) => {
                    let remap = RepoRemap {
                        repository_id: c.repository_id,
                        path: d.path,
                        package_manager: owned(d.package_manager.as_str()),
                        detected_script: d.detected_script,
                    };
                    let ghost before = out@;
                    out.push(remap);
                    proof {
                        assert(out@.map_values(|x: RepoRemap| remap_view(x)) =~= before.map_values(
                            |x: RepoRemap| remap_view(x),
                        ).push(remap_view(out@.last())));
                    }
                },
                None => {},
            },
            None => {},
        }
        i += 1;
    }
    proof {
        assert(candidates@.take(candidates@.len() as int) =~= candidates@);
    }
    out
}

// ── Refreshing detection ──────────────────────────────────────────────────────

/// A listed repository and its folder as it is now.
#[derive(Debug)]
pub struct RefreshCheck {
    pub repository: Repository,
    pub probe: DirProbe,
}

/// A repository whose detected toolchain or script changed.
#[derive(Debug)]
pub struct DetectionUpdate {
    pub repository_id: i64,
    pub package_manager: String,
    pub detected_script: Option<String>,
}

/// What a refresh changes: the detections to store, and the repositories whose folder no
/// longer classifies (left untouched).
#[derive(Debug)]
pub struct RefreshPlan {
    pub updates: Vec<DetectionUpdate>,
    pub missing_repository_ids: Vec<i64>,
}

/// The detection changes of the checked repositories, in order.
pub open spec fn detection_updates(checks: Seq<RefreshCheck>) -> Seq<(i64, Seq<char>, Option<Seq<char>>)>
    decreases checks.len(),
{
    if checks.len() == 0 {
        Seq::empty()
    } else {
        let c = checks.last();
        let before = detection_updates(checks.drop_last());
        match classified(c.probe, Some(c.repository.name@)) {
            Some(d) => if pm_name(d.package_manager) != c.repository.package_manager@
                || d.detected_script != opt_view(c.repository.detected_script) {
                before.push((c.repository.id, pm_name(d.package_manager), d.detected_script))
            } else {
                before
            },
            None => before,
        }
    }
}

/// The checked repositories whose folder no longer classifies, in order.
pub open spec fn missing_ids(checks: Seq<RefreshCheck>) -> Seq<i64>
    decreases checks.len(),
{
    if checks.len() == 0 {
        Seq::empty()
    } else {
        let c = checks.last();
        let before = missing_ids(checks.drop_last());
        match classified(c.probe, Some(c.repository.name@)) {
            Some(_) => before,
            None => before.push(c.repository.id),
        }
    }
}

fn opt_strings_equal(a: &Option<String>, b: &Option<String>) -> (r: bool)
    ensures
        r == (opt_view(*a) == opt_view(*b)),
{
    match (a, b) {
        (Some(x), Some(y)) => str_eq(x.as_str(), y.as_str()),
        (None, None) => true,
        _ => false,
    }
}

/// No two checks are of the same repository.
pub open spec fn distinct_check_ids(checks: Seq<RefreshCheck>) -> bool {
    forall|a: int, b: int|
        0 <= a < b < checks.len() ==> #[trigger] checks[a].repository.id != #[trigger] checks[b].repository.id
}

/// Some planned update is for repository `id`.
pub open spec fn update_for(u: Seq<(i64, Seq<char>, Option<Seq<char>>)>, id: i64) -> bool {
    exists|j: int| 0 <= j < u.len() && #[trigger] u[j].0 == id
}

/// A repository's detection (package manager, script) once the updates `u` are stored:
/// the update for it when there is one, otherwise what was stored before.
pub open spec fn detection_after(
    r: Repository,
    u: Seq<(i64, Seq<char>, Option<Seq<char>>)>,
) -> (Seq<char>, Option<Seq<char>>) {
    if update_for(u, r.id) {
        let j = choose|j: int| 0 <= j < u.len() && #[trigger] u[j].0 == r.id;
        (u[j].1, u[j].2)
    } else {
        (r.package_manager@, opt_view(r.detected_script))
    }
}

/// A refresh stores exactly what it re-detects: every planned update is for a checked
/// repository; a repository that still classifies gets an update exactly when its
/// re-detected package manager or script differs from the stored one, and once the updates
/// are stored its detection is the re-detected one; a repository that no longer
/// classifies gets none.
pub proof fn law_refresh_stores_what_is_detected(checks: Seq<RefreshCheck>)
    requires
        distinct_check_ids(checks),
    ensures
        ({
            let u = detection_updates(checks);
            &&& forall|j: int|
                #![trigger u[j]]
                0 <= j < u.len() ==> exists|k: int|
                    0 <= k < checks.len() && #[trigger] checks[k].repository.id == u[j].0
            &&& forall|k: int|
                #![trigger checks[k]]
                0 <= k < checks.len() ==> {
                    let r = checks[k].repository;
                    match classified(checks[k].probe, Some(r.name@)) {
                        Some(d) => {
                            &&& update_for(u, r.id) <==> (pm_name(d.package_manager)
                                != r.package_manager@ || d.detected_script != opt_view(
                                r.detected_script,
                            ))
                            &&& forall|j: int|
                                0 <= j < u.len() && #[trigger] u[j].0 == r.id ==> u[j].1 == pm_name(
                                    d.package_manager,
                                ) && u[j].2 == d.detected_script
                            &&& detection_after(r, u) == (
                                pm_name(d.package_manager),
                                d.detected_script,
                            )
                        },
                        None => !update_for(u, r.id),
                    }
                }
        }),
    decreases checks.len(),
{
    if checks.len() > 0 {
        let n = checks.len() - 1;
        let init = checks.drop_last();
        assert(distinct_check_ids(init)) by {
            assert forall|a: int, b: int| 0 <= a < b < init.len() implies #[trigger] init[a].repository.id
                != #[trigger] init[b].repository.id by {
                assert(init[a] == checks[a] && init[b] == checks[b]);
            }
        }
        law_refresh_stores_what_is_detected(init);
        let before = detection_updates(init);
        let u = detection_updates(checks);
        let c = checks[n];
        assert(c == checks.last());
        // the last repository has no update among the earlier ones
        assert(!update_for(before, c.repository.id)) by {
            if update_for(before, c.repository.id) {
                let j = choose|j: int| 0 <= j < before.len() && #[trigger] before[j].0 == c.repository.id;
                let k = choose|k: int|
                    0 <= k < init.len() && #[trigger] init[k].repository.id == before[j].0;
                assert(init[k] == checks[k]);
                assert(checks[k].repository.id != checks[n].repository.id);
            }
        }
        assert(u == before || (u.len() == before.len() + 1 && u.drop_last() == before && u.last().0
            == c.repository.id));
        assert forall|j: int| #![trigger u[j]] 0 <= j < u.len() implies exists|k: int|
            0 <= k < checks.len() && #[trigger] checks[k].repository.id == u[j].0 by {
            if j < before.len() {
                assert(u[j] == before[j]) by {
                    if u != before {
                        assert(u.drop_last()[j] == u[j]);
                    }
                }
                let k = choose|k: int|
                    0 <= k < init.len() && #[trigger] init[k].repository.id == before[j].0;
                assert(init[k] == checks[k]);
            } else {
                assert(checks[n].repository.id == u[j].0);
            }
        }
        assert forall|k: int| #![trigger checks[k]] 0 <= k < checks.len() implies {
            let r = checks[k].repository;
            match classified(checks[k].probe, Some(r.name@)) {
                Some(d) => {
                    &&& update_for(u, r.id) <==> (pm_name(d.package_manager) != r.package_manager@
                        || d.detected_script != opt_view(r.detected_script))
                    &&& forall|j: int|
                        0 <= j < u.len() && #[trigger] u[j].0 == r.id ==> u[j].1 == pm_name(
                            d.package_manager,
                        ) && u[j].2 == d.detected_script
                    &&& detection_after(r, u) == (pm_name(d.package_manager), d.detected_script)
                },
                None => !update_for(u, r.id),
            }
        } by {
            let r = checks[k].repository;
            if k < n {
                assert(init[k] == checks[k]);
                assert(r.id != c.repository.id);
                // u agrees with `before` on every id but the last repository's
                assert forall|j: int| 0 <= j < u.len() && #[trigger] u[j].0 == r.id implies j
                    < before.len() && u[j] == before[j] by {
                    if u != before {
                        if j < before.len() {
                            assert(u.drop_last()[j] == u[j]);
                        }
                    }
                }
                assert(update_for(u, r.id) == update_for(before, r.id)) by {
                    if update_for(before, r.id) {
                        let j = choose|j: int| 0 <= j < before.len() && #[trigger] before[j].0 == r.id;
                        if u != before {
                            assert(u.drop_last()[j] == u[j]);
                        }
                        assert(u[j].0 == r.id);
                    }
                    if update_for(u, r.id) {
                        let j = choose|j: int| 0 <= j < u.len() && #[trigger] u[j].0 == r.id;
                        assert(before[j].0 == r.id);
                    }
                }
                if update_for(u, r.id) {
                    let ju = choose|j: int| 0 <= j < u.len() && #[trigger] u[j].0 == r.id;
                    let jb = choose|j: int| 0 <= j < before.len() && #[trigger] before[j].0 == r.id;
                    assert(u[ju] == before[ju]);
                }
            } else {
                assert(k == n);
                if u != before {
                    let t = u.last();
                    assert(u[before.len() as int] == t);
                    assert(update_for(u, r.id));
                    assert forall|j: int| 0 <= j < u.len() && #[trigger] u[j].0 == r.id implies j
                        == before.len() by {
                        if j < before.len() {
                            assert(u.drop_last()[j] == u[j]);
                            assert(update_for(before, c.repository.id));
                        }
                    }
                } else {
                    assert(!update_for(u, r.id));
                }
            }
        }
    }
}

/// A refresh reports as missing exactly the checked repositories whose folder no longer
/// classifies, each once.
pub proof fn law_refresh_reports_exactly_the_missing(checks: Seq<RefreshCheck>)
    requires
        distinct_check_ids(checks),
    ensures
        missing_ids(checks).no_duplicates(),
        forall|x: i64|
            #[trigger] missing_ids(checks).contains(x) ==> exists|k: int|
                0 <= k < checks.len() && #[trigger] checks[k].repository.id == x,
        forall|k: int|
            #![trigger checks[k]]
            0 <= k < checks.len() ==> (missing_ids(checks).contains(checks[k].repository.id)
                <==> classified(checks[k].probe, Some(checks[k].repository.name@)) is None),
    decreases checks.len(),
{
    if checks.len() > 0 {
        let n = checks.len() - 1;
        let init = checks.drop_last();
        assert(distinct_check_ids(init)) by {
            assert forall|a: int, b: int| 0 <= a < b < init.len() implies #[trigger] init[a].repository.id
                != #[trigger] init[b].repository.id by {
                assert(init[a] == checks[a] && init[b] == checks[b]);
            }
        }
        law_refresh_reports_exactly_the_missing(init);
        let before = missing_ids(init);
        let m = missing_ids(checks);
        let c = checks[n];
        assert(c == checks.last());
        assert(!before.contains(c.repository.id)) by {
            if before.contains(c.repository.id) {
                let k = choose|k: int| 0 <= k < init.len() && #[trigger] init[k].repository.id == c.repository.id;
                assert(init[k] == checks[k]);
            }
        }
        assert forall|x: i64| #[trigger] m.contains(x) implies exists|k: int|
            0 <= k < checks.len() && #[trigger] checks[k].repository.id == x by {
            if before.contains(x) {
                let k = choose|k: int| 0 <= k < init.len() && #[trigger] init[k].repository.id == x;
                assert(init[k] == checks[k]);
            } else {
                let j = choose|j: int| 0 <= j < m.len() && m[j] == x;
                assert(m != before);
                assert(j == before.len()) by {
                    if j < before.len() {
                        assert(m.drop_last()[j] == m[j]);
                        assert(before.contains(x));
                    }
                }
                assert(checks[n].repository.id == x);
            }
        }
        assert forall|k: int| #![trigger checks[k]] 0 <= k < checks.len() implies (m.contains(
            checks[k].repository.id,
        ) <==> classified(checks[k].probe, Some(checks[k].repository.name@)) is None) by {
            let id = checks[k].repository.id;
            if k < n {
                assert(init[k] == checks[k]);
                assert(id != c.repository.id);
                if m.contains(id) {
                    let j = choose|j: int| 0 <= j < m.len() && m[j] == id;
                    if j < before.len() {
                        if m != before {
                            assert(m.drop_last()[j] == m[j]);
                        }
                        assert(before.contains(id));
                    }
                }
                if before.contains(id) {
                    let j = choose|j: int| 0 <= j < before.len() && before[j] == id;
                    if m != before {
                        assert(m.drop_last()[j] == m[j]);
                    }
                    assert(m[j] == id);
                }
            } else {
                if m != before {
                    assert(m[before.len() as int] == id);
                } else {
                    assert(!m.contains(id));
                }
            }
        }
        if m != before {
            assert(m == before.push(c.repository.id));
        }
    }
}

/// Re-detects each listed repository under its stored name: a changed toolchain or script
/// is to be stored; a folder that no longer classifies is reported as missing.
pub fn plan_refresh(checks: &[RefreshCheck]) -> (r: RefreshPlan)
    ensures
        r.updates@.map_values(
            |u: DetectionUpdate| (u.repository_id, u.package_manager@, opt_view(u.detected_script)),
        ) == detection_updates(checks@),
        r.missing_repository_ids@ == missing_ids(checks@),
{
    let mut updates: Vec<DetectionUpdate> = Vec::new();
    let mut missing: Vec<i64> = Vec::new();
    let mut i: usize = 0;
    while i < checks.len()
        invariant
            0 <= i <= checks@.len(),
            updates@.map_values(
                |u: DetectionUpdate| (u.repository_id, u.package_manager@, opt_view(u.detected_script)),
            ) == detection_updates(checks@.take(i as int)),
            missing@ == missing_ids(checks@.take(i as int)),
        decreases checks.len() - i,
    {
        let c = &checks[i];
        proof {
            assert(checks@.take(i as int + 1).drop_last() =~= checks@.take(i as int));
            assert(checks@.take(i as int + 1).last() == *c);
        }
        match classify_repo_dir(&c.probe, Some(c.repository.name.as_str())) {
            Some(d) => {
                let pm = d.package_manager.as_str();
                if !str_eq(pm, c.repository.package_manager.as_str()) || !opt_strings_equal(
                    &d.detected_script,
                    &c.repository.detected_script,
                ) {
                    let ghost before = updates@;
                    updates.push(
                        DetectionUpdate {
                            repository_id: c.repository.id,
                            package_manager: owned(pm),
                            detected_script: d.detected_script,
                        },
                    );
                    proof {
                        assert(updates@.map_values(
                            |u: DetectionUpdate|
                                (u.repository_id, u.package_manager@, opt_view(u.detected_script)),
                        ) =~= before.map_values(
                            |u: DetectionUpdate|
                                (u.repository_id, u.package_manager@, opt_view(u.detected_script)),
                        ).push((c.repository.id, pm@, d@.detected_script)));
                    }
                }
            },
            None => {
                missing.push(c.repository.id);
            },
        }
        i += 1;
    }
    proof {
        assert(checks@.take(checks@.len() as int) =~= checks@);
    }
    RefreshPlan { updates, missing_repository_ids: missing }
}

// ── Running repositories of a project ─────────────────────────────────────────

/// How many of the repositories are running or starting, per the live tracker.
pub open spec fn running_in(ids: Seq<i64>, table: ProcessTable) -> nat
    decreases ids.len(),
{
    if ids.len() == 0 {
        0
    } else {
        running_in(ids.drop_last(), table) + if table.entry(ids.last()) matches Some(t)
            && crate::process_manager::is_live(t.status) {
            1nat
        } else {
            0nat
        }
    }
}

/// Counts the running repositories among `repository_ids`.
pub fn running_count(repository_ids: &[i64], table: &ProcessTable) -> (r: usize)
    requires
        table.well_formed(),
    ensures
        r == running_in(repository_ids@, *table),
{
    let mut n: usize = 0;
    let mut i: usize = 0;
    while i < repository_ids.len()
        invariant
            0 <= i <= repository_ids@.len(),
            table.well_formed(),
            n == running_in(repository_ids@.take(i as int), *table),
            n <= i,
            repository_ids@.len() == repository_ids.len(),
        decreases repository_ids.len() - i,
    {
        proof {
            assert(repository_ids@.take(i as int + 1).drop_last() =~= repository_ids@.take(i as int));
        }
        if table.is_running(repository_ids[i]) {
            n = n + 1;
        }
        i += 1;
    }
    proof {
        assert(repository_ids@.take(repository_ids@.len() as int) =~= repository_ids@);
    }
    n
}

/// A project can be deleted only while none of its repositories is running or starting.
pub fn check_deletable(repository_ids: &[i64], table: &ProcessTable) -> (r: Result<(), AppError>)
    requires
        table.well_formed(),
    ensures
        running_in(repository_ids@, *table) == 0 ==> r is Ok,
        running_in(repository_ids@, *table) > 0 ==> (r matches Err(AppError::Persist(m)) && m@
            == "stop all repositories in this project before deleting"@),
{
    if running_count(repository_ids, table) > 0 {
        Err(AppError::Persist(owned("stop all repositories in this project before deleting")))
    } else {
        Ok(())
    }
}

// ── Env files of a repository ─────────────────────────────────────────────────

/// An env file name: `.env`, or `.env.` followed by anything.
pub open spec fn is_env_file_name(name: Seq<char>) -> bool {
    name == ".env"@ || crate::text::has_prefix(name, ".env."@)
}

/// Sorted ascending.
pub open spec fn names_sorted(v: Seq<Seq<char>>) -> bool {
    forall|i: int, j: int| 0 <= i < j < v.len() ==> !seq_lt(#[trigger] v[j], #[trigger] v[i])
}

/// The env files among the names of the files in a repository's folder, sorted.
pub fn env_file_names(file_names: &[String]) -> (r: Vec<String>)
    ensures
        names_sorted(views(r@)),
        views(r@).to_multiset() == views(file_names@).filter(|n: Seq<char>| is_env_file_name(n)).to_multiset(),
{
    let env_chars: [char; 4] = ['.', 'e', 'n', 'v'];
    let prefix_chars: [char; 5] = ['.', 'e', 'n', 'v', '.'];
    proof {
        reveal_strlit(".env");
        reveal_strlit(".env.");
        assert(env_chars@ =~= ".env"@);
        assert(prefix_chars@ =~= ".env."@);
    }
    let ghost all = views(file_names@);
    let mut picked: Vec<String> = Vec::new();
    let mut i: usize = 0;
    proof {
        reveal(Seq::filter);
        assert(all.take(0) =~= Seq::<Seq<char>>::empty());
    }
    while i < file_names.len()
        invariant
            0 <= i <= file_names@.len(),
            all == views(file_names@),
            env_chars@ == ".env"@,
            prefix_chars@ == ".env."@,
            views(picked@) == all.take(i as int).filter(|n: Seq<char>| is_env_file_name(n)),
        decreases file_names.len() - i,
    {
        let name = &file_names[i];
        let cs = chars_of_string(name);
        proof {
            assert(all.take(i as int + 1) =~= all.take(i as int).push(name@));
            all.take(i as int).lemma_filter_push(name@, |n: Seq<char>| is_env_file_name(n));
        }
        if crate::text::chars_eq(cs.as_slice(), env_chars.as_slice()) || crate::text::starts_with(
            cs.as_slice(),
            prefix_chars.as_slice(),
        ) {
            picked.push(name.clone());
            proof {
                assert(views(picked@) =~= all.take(i as int).filter(
                    |n: Seq<char>| is_env_file_name(n),
                ).push(name@));
            }
        }
        i += 1;
    }
    proof {
        assert(all.take(all.len() as int) =~= all);
    }
    sort_names(picked)
}

fn chars_of_string(s: &String) -> (r: Vec<char>)
    ensures
        r@ == s@,
{
    crate::text::chars_of(s.as_str())
}

/// Sorts names ascending (`String`'s order).
fn sort_names(items: Vec<String>) -> (r: Vec<String>)
    ensures
        names_sorted(views(r@)),
        views(r@).to_multiset() == views(items@).to_multiset(),
{
    let mut out: Vec<String> = Vec::new();
    let mut rest = items;
    let ghost all = views(rest@);
    proof {
        assert(views(out@) =~= Seq::<Seq<char>>::empty());
        broadcast use vstd::multiset::group_multiset_axioms;
        broadcast use vstd::seq_lib::group_to_multiset_ensures;
        assert(views(out@).to_multiset().add(views(rest@).to_multiset()) =~= all.to_multiset());
    }
    while rest.len() > 0
        invariant
            names_sorted(views(out@)),
            views(out@).to_multiset().add(views(rest@).to_multiset()) == all.to_multiset(),
        decreases rest.len(),
    {
        let ghost rest_before = views(rest@);
        let ghost out_before = views(out@);
        let x = rest.remove(0);
        proof {
            assert(views(rest@) =~= rest_before.remove(0));
            assert(rest_before[0] == x@);
        }
        let xc = chars_of_string(&x);
        let mut pos: usize = 0;
        while pos < out.len() && !crate::text::chars_lt(
            xc.as_slice(),
            chars_of_string(&out[pos]).as_slice(),
        )
            invariant
                0 <= pos <= out@.len(),
                views(out@) == out_before,
                xc@ == x@,
                forall|k: int| 0 <= k < pos ==> !seq_lt(x@, #[trigger] out_before[k]),
            decreases out.len() - pos,
        {
            pos += 1;
        }
        let ghost xv = x@;
        out.insert(pos, x);
        proof {
            let ov = views(out@);
            assert(ov =~= out_before.insert(pos as int, xv));
            assert forall|i: int, j: int| 0 <= i < j < ov.len() implies !seq_lt(
                #[trigger] ov[j],
                #[trigger] ov[i],
            ) by {
                if j == pos {
                    assert(ov[i] == out_before[i]);
                } else if i == pos {
                    assert(ov[j] == out_before[j - 1]);
                    let p = out_before[pos as int];
                    let q = out_before[j - 1];
                    assert(seq_lt(xv, p));
                    crate::text::lemma_seq_lt_trichotomy(q, p);
                    if q != p {
                        if j - 1 > pos {
                            assert(!seq_lt(q, p));
                        }
                        crate::text::lemma_seq_lt_transitive(xv, p, q);
                    }
                    crate::text::lemma_seq_lt_trichotomy(xv, q);
                } else if j < pos {
                    assert(ov[i] == out_before[i] && ov[j] == out_before[j]);
                } else if i > pos {
                    assert(ov[i] == out_before[i - 1] && ov[j] == out_before[j - 1]);
                } else {
                    assert(ov[i] == out_before[i] && ov[j] == out_before[j - 1]);
                }
            }
            vstd::seq_lib::to_multiset_insert(out_before, pos as int, xv);
            vstd::seq_lib::to_multiset_remove(rest_before, 0);
            assert(rest_before.contains(xv));
            vstd::seq_lib::to_multiset_contains(rest_before, xv);
            broadcast use vstd::multiset::group_multiset_axioms;
            assert(ov.to_multiset().add(views(rest@).to_multiset()) =~= all.to_multiset());
        }
    }
    proof {
        assert(views(rest@) =~= Seq::<Seq<char>>::empty());
        broadcast use vstd::multiset::group_multiset_axioms;
        broadcast use vstd::seq_lib::group_to_multiset_ensures;
        assert(views(out@).to_multiset() =~= all.to_multiset());
    }
    out
}

// ── Repository configuration ──────────────────────────────────────────────────

/// A repository's command configuration as stored: empty overrides are cleared.
#[derive(Debug)]
pub struct RepositoryConfig {
    pub package_manager: String,
    pub command: Option<String>,
    pub args: Option<String>,
    pub env_file: Option<String>,
}

/// An override as stored: trimmed, and cleared when nothing is left.
pub open spec fn override_of(s: Seq<char>) -> Option<Seq<char>> {
    if trim(s).len() == 0 {
        None
    } else {
        Some(trim(s))
    }
}

/// The package managers a repository's configuration may name: the ten toolchain names.
pub open spec fn configurable_pm(pm: Seq<char>) -> bool {
    pm_of_name(pm) is Some
}

fn override_text(s: &str) -> (r: Option<String>)
    ensures
        opt_view(r) == override_of(s@),
{
    let t = trim_str(s);
    if t.unicode_len() == 0 {
        None
    } else {
        Some(t)
    }
}

/// Validates an edit of a repository's configuration: the package manager must be one of
/// the toolchain names that `PackageManager::parse` accepts; each override is trimmed, and an empty one is cleared.
pub fn validate_repository_config(
    package_manager: &str,
    command: &str,
    args: &str,
    env_file: &str,
) -> (r: Result<RepositoryConfig, AppError>)
    ensures
        !configurable_pm(package_manager@) ==> (r matches Err(AppError::Persist(m)) && m@
            == "invalid package manager: "@ + package_manager@),
        configurable_pm(package_manager@) ==> (r matches Ok(c) && c.package_manager@
            == package_manager@ && opt_view(c.command) == override_of(command@) && opt_view(
            c.args,
        ) == override_of(args@) && opt_view(c.env_file) == override_of(env_file@)),
{
    if PackageManager::parse(package_manager).is_none() {
        return Err(AppError::Persist(concat2("invalid package manager: ", package_manager)));
    }
    Ok(
        RepositoryConfig {
            package_manager: owned(package_manager),
            command: override_text(command),
            args: override_text(args),
            env_file: override_text(env_file),
        },
    )
}

// ── Launch history ────────────────────────────────────────────────────────────

/// The name shown for a launch item's repository: its name, or `#<id>` when it is gone.
pub open spec fn item_repository_name(id: i64, name: Option<String>) -> Seq<char> {
    match name {
        Some(n) => n@,
        None => "#"@ + int_decimal(id as int),
    }
}

/// Builds a launch record from its row, the name of its profile (if any), and its items with
/// the name of each item's repository (`None` when the repository no longer exists).
pub fn launch_record(
    row: LaunchHistoryRow,
    profile_name: Option<String>,
    items: Vec<(LaunchHistoryItemRow, Option<String>)>,
) -> (r: LaunchRecord)
    ensures
        r.id == row.id,
        r.profile_name == profile_name,
        r.started_at == row.started_at,
        r.finished_at == row.finished_at,
        r.status == row.status,
        r.items@.len() == items@.len(),
        forall|k: int|
            0 <= k < items@.len() ==> {
                let it = #[trigger] r.items@[k];
                let (row_k, name_k) = items@[k];
                &&& it.repository_name@ == item_repository_name(row_k.repository_id, name_k)
                &&& it.status == row_k.status
                &&& it.pid == row_k.pid
                &&& it.exit_code == row_k.exit_code
                &&& it.stopped_at == row_k.stopped_at
            },
{
    let mut out: Vec<LaunchItemRecord> = Vec::new();
    let ghost src = items@;
    let total = items.len();
    let mut rest = items;
    let mut k: usize = 0;
    proof {
        assert(rest@ =~= src.subrange(0, src.len() as int));
    }
    while rest.len() > 0
        invariant
            k + rest@.len() == src.len(),
            src.len() == total,
            rest@ == src.subrange(k as int, src.len() as int),
            out@.len() == k,
            forall|q: int|
                0 <= q < k ==> {
                    let it = #[trigger] out@[q];
                    let (row_q, name_q) = src[q];
                    &&& it.repository_name@ == item_repository_name(row_q.repository_id, name_q)
                    &&& it.status == row_q.status
                    &&& it.pid == row_q.pid
                    &&& it.exit_code == row_q.exit_code
                    &&& it.stopped_at == row_q.stopped_at
                },
        decreases rest.len(),
    {
        let (item, name) = rest.remove(0);
        proof {
            assert(src[k as int] == (item, name));
            assert(rest@ =~= src.subrange(k as int + 1, src.len() as int));
        }
        let repository_name = match name {
            Some(n) => n,
            None => {
                let digits = i64_to_string(item.repository_id);
                concat2("#", digits.as_str())
            },
        };
        out.push(
            LaunchItemRecord {
                repository_name,
                status: item.status,
                pid: item.pid,
                exit_code: item.exit_code,
                stopped_at: item.stopped_at,
            },
        );
        k += 1;
    }
    LaunchRecord {
        id: row.id,
        profile_name,
        started_at: row.started_at,
        finished_at: row.finished_at,
        status: row.status,
        items: out,
    }
}

// ── External terminal ─────────────────────────────────────────────────────────

/// A program to start, with its arguments and, when set, the directory to start it in.
#[derive(Debug)]
pub struct TerminalCommand {
    pub program: String,
    pub args: Vec<String>,
    pub cwd: Option<String>,
}

/// The arguments of the plain console window: `cmd /C start "" <shell>`, with the
/// execution-policy bypass for PowerShell.
pub open spec fn console_args_spec(shell: Seq<char>) -> Seq<Seq<char>> {
    let base = seq!["/C"@, "start"@, ""@, shell];
    if shell == "powershell"@ {
        base + seq!["-ExecutionPolicy"@, "Bypass"@]
    } else {
        base
    }
}

/// How to open an interactive terminal at `repo_path` with the shell the `terminal_shell`
/// setting names: a new Windows Terminal tab when it is available, otherwise a new console
/// window started through `cmd` in the repository folder.
pub fn terminal_command(terminal_shell: &str, wt_available: bool, repo_path: &str) -> (r:
    TerminalCommand)
    ensures
        wt_available ==> r.program@ == "wt"@ && views(r.args@) == wt_launch_args_spec(
            shell_program_spec(terminal_shell@),
            repo_path@,
        ) && r.cwd is None,
        !wt_available ==> r.program@ == "cmd"@ && views(r.args@) == console_args_spec(
            shell_program_spec(terminal_shell@),
        ) && (r.cwd matches Some(c) && c@ == repo_path@),
{
    let shell = shell_program(terminal_shell);
    if wt_available {
        return TerminalCommand {
            program: owned("wt"),
            args: wt_launch_args(shell, repo_path),
            cwd: None,
        };
    }
    let mut args: Vec<String> = Vec::new();
    args.push(owned("/C"));
    args.push(owned("start"));
    args.push(owned(""));
    args.push(owned(shell));
    if str_eq(shell, "powershell") {
        args.push(owned("-ExecutionPolicy"));
        args.push(owned("Bypass"));
    }
    proof {
        assert(views(args@) =~= console_args_spec(shell@));
    }
    TerminalCommand { program: owned("cmd"), args, cwd: Some(owned(repo_path)) }
}

} // verus!
