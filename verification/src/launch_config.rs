//! What a repository launches with: the command line built from its configuration, the
//! program and arguments that run it, and the variables of its env file.
//!
//! Whether the repository folder still exists, reading the env file and loading the
//! terminal-shell setting happen around the library; their results are handed in here.

use vstd::prelude::*;
use crate::commands::{launch_program_args_spec, views, windows_launch_program_args};
use crate::error::AppError;
use crate::persistence::Repository;
use crate::process_manager::{LaunchSpec, LaunchSpecView};
use crate::scanner::{default_command, default_command_spec, opt_view, pm_of_name, PackageManager};
use crate::text::{
    chars_of,
    concat2,
    copy_range,
    first_index_of,
    lemma_first_index_at,
    owned,
    string_from_chars,
    strip_char,
    trim,
    trim_chars,
    trim_matches_char,
};

verus! {

/// An optional setting that counts only when non-empty.
pub open spec fn non_empty(o: Option<String>) -> Option<Seq<char>> {
    match o {
        Some(s) => if s@.len() > 0 {
            Some(s@)
        } else {
            None
        },
        None => None,
    }
}

/// The fixed default command of a repository's toolchain, for a repository without a
/// detected script: `cargo run`, `python main.py` and the like; none for the Node
/// toolchains and for a name that is no toolchain.
pub open spec fn toolchain_default(repo: Repository) -> Option<Seq<char>> {
    match pm_of_name(repo.package_manager@) {
        Some(pm) => default_command_spec(pm, None),
        None => None,
    }
}

/// The command a repository runs before its extra arguments: a non-empty user override
/// verbatim; otherwise its detected script through its package manager (`yarn <script>`,
/// or `<pm> run <script>` for every other manager); otherwise the fixed default command of
/// its toolchain; otherwise none.
pub open spec fn base_command(repo: Repository) -> Option<Seq<char>> {
    match non_empty(repo.command) {
        Some(c) => Some(c),
        None => match repo.detected_script {
            Some(script) => if repo.package_manager@ == "yarn"@ {
                Some("yarn "@ + script@)
            } else {
                Some(repo.package_manager@ + " run "@ + script@)
            },
            None => toolchain_default(repo),
        },
    }
}

/// The full command line: the base command, then a space and the extra arguments when
/// they are non-empty.
pub open spec fn command_line(repo: Repository) -> Option<Seq<char>> {
    match base_command(repo) {
        Some(b) => match non_empty(repo.args) {
            Some(a) => Some(b + " "@ + a),
            None => Some(b),
        },
        None => None,
    }
}

/// The message for a repository with nothing to launch.
pub open spec fn no_command_message(name: Seq<char>) -> Seq<char> {
    "repository '"@ + name + "' has no launch command (set one or add a start script)"@
}

/// The message for a repository whose folder is gone.
pub open spec fn missing_folder_message(name: Seq<char>, path: Seq<char>) -> Seq<char> {
    "repository '"@ + name + "' folder no longer exists: "@ + path
}

fn non_empty_text(o: &Option<String>) -> (r: Option<String>)
    ensures
        match r {
            Some(s) => non_empty(*o) == Some(s@),
            None => non_empty(*o) is None,
        },
{
    match o {
        Some(s) => if s.unicode_len() > 0 {
            Some(s.clone())
        } else {
            None
        },
        None => None,
    }
}

/// The fixed default command of a repository's toolchain, when it has one.
pub fn toolchain_default_text(repo: &Repository) -> (r: Option<String>)
    ensures
        opt_view(r) == toolchain_default(*repo),
{
    match PackageManager::parse(repo.package_manager.as_str()) {
        Some(pm) => default_command(pm, None),
        None => None,
    }
}

/// Builds a repository's command line, or the error saying it has nothing to launch.
pub fn launch_command_line(repo: &Repository) -> (r: Result<String, AppError>)
    ensures
        match command_line(*repo) {
            Some(line) => r matches Ok(s) && s@ == line,
            None => r matches Err(AppError::Launch(m)) && m@ == no_command_message(repo.name@),
        },
{
    let base = match non_empty_text(&repo.command) {
        Some(c) => c,
        None => match &repo.detected_script {
            Some(script) => {
                let pm = repo.package_manager.as_str();
                let is_yarn = crate::text::str_eq(pm, "yarn");
                if is_yarn {
                    concat2("yarn ", script.as_str())
                } else {
                    let with_run = concat2(pm, " run ");
                    concat2(with_run.as_str(), script.as_str())
                }
            },
            None => match toolchain_default_text(repo) {
                Some(d) => d,
                None => {
                    let with_name = concat2("repository '", repo.name.as_str());
                let message = concat2(
                    with_name.as_str(),
                    "' has no launch command (set one or add a start script)",
                );
                    return Err(AppError::Launch(message));
                },
            },
        },
    };
    match non_empty_text(&repo.args) {
        Some(a) => {
            let with_space = concat2(base.as_str(), " ");
            Ok(concat2(with_space.as_str(), a.as_str()))
        },
        None => Ok(base),
    }
}

/// The name of the env file to load for a repository, when one is set.
pub fn env_file_name(repo: &Repository) -> (r: Option<String>)
    ensures
        match r {
            Some(s) => non_empty(repo.env_file) == Some(s@),
            None => non_empty(repo.env_file) is None,
        },
{
    non_empty_text(&repo.env_file)
}

/// The process a command line runs as: through the configured shell on Windows
/// (`terminal_shell` is `Some`), through `sh -c` elsewhere.
pub open spec fn program_args(terminal_shell: Option<Seq<char>>, line: Seq<char>) -> (
    Seq<char>,
    Seq<Seq<char>>,
) {
    match terminal_shell {
        Some(shell) => launch_program_args_spec(shell, line),
        None => ("sh"@, seq!["-c"@, line]),
    }
}

/// The launch spec a repository resolves to, given its command line and env variables.
pub open spec fn launch_spec_view(
    repo: Repository,
    terminal_shell: Option<Seq<char>>,
    line: Seq<char>,
    env: Seq<(Seq<char>, Seq<char>)>,
) -> LaunchSpecView {
    LaunchSpecView {
        program: program_args(terminal_shell, line).0,
        args: program_args(terminal_shell, line).1,
        cwd: repo.path@,
        env,
        visible: repo.visible_console != 0,
    }
}

/// The views of a list of variables.
pub open spec fn env_view(v: Seq<(String, String)>) -> Seq<(Seq<char>, Seq<char>)> {
    v.map_values(|p: (String, String)| (p.0@, p.1@))
}

/// Resolves what to run for a repository. `folder_exists` says whether its folder is still
/// there; `terminal_shell` is the shell setting on Windows and `None` elsewhere; `env` holds
/// the variables of its env file. A missing folder is reported first, then a missing
/// command.
pub fn resolve_launch_spec(
    repo: &Repository,
    folder_exists: bool,
    terminal_shell: Option<&str>,
    env: Vec<(String, String)>,
) -> (r: Result<LaunchSpec, AppError>)
    ensures
        !folder_exists ==> (r matches Err(AppError::Launch(m)) && m@ == missing_folder_message(
            repo.name@,
            repo.path@,
        )),
        folder_exists && command_line(*repo) is None ==> (r matches Err(AppError::Launch(m))
            && m@ == no_command_message(repo.name@)),
        folder_exists && command_line(*repo) is Some ==> (r matches Ok(spec) && spec@
            == launch_spec_view(
            *repo,
            match terminal_shell {
                Some(s) => Some(s@),
                None => None,
            },
            command_line(*repo)->0,
            env_view(env@),
        )),
{
    if !folder_exists {
        let with_name = concat2("repository '", repo.name.as_str());
        let with_text = concat2(with_name.as_str(), "' folder no longer exists: ");
        return Err(AppError::Launch(concat2(with_text.as_str(), repo.path.as_str())));
    }
    let line = match launch_command_line(repo) {
        Ok(l) => l,
        Err(e) => return Err(e),
    };
    let (program, args) = match terminal_shell {
        Some(shell) => windows_launch_program_args(shell, line.as_str()),
        None => {
            let mut args: Vec<String> = Vec::new();
            args.push(owned("-c"));
            args.push(line.clone());
            proof {
                assert(views(args@) =~= seq!["-c"@, line@]);
            }
            (owned("sh"), args)
        },
    };
    let visible = repo.visible_console != 0;
    Ok(LaunchSpec { program, args, cwd: repo.path.clone(), env, visible })
}

// ── Env files ─────────────────────────────────────────────────────────────────

/// The variable one line of an env file defines: the line is trimmed; blank lines,
/// `#` comments and lines without `=` define none; otherwise the trimmed text before the
/// first `=` is the key and the trimmed text after it, stripped of surrounding double
/// quotes, is the value.
pub open spec fn env_entry(line: Seq<char>) -> Option<(Seq<char>, Seq<char>)> {
    let t = trim(line);
    if t.len() == 0 || t[0] == '#' {
        None
    } else {
        match first_index_of(t, '=') {
            Some(i) => Some(
                (trim(t.subrange(0, i)), strip_char(trim(t.subrange(i + 1, t.len() as int)), '"')),
            ),
            None => None,
        }
    }
}

/// The variable of a line, as a sequence of zero or one entries.
pub open spec fn entry_seq(line: Seq<char>) -> Seq<(Seq<char>, Seq<char>)> {
    match env_entry(line) {
        Some(p) => seq![p],
        None => Seq::empty(),
    }
}

/// The variables an env file's text defines, line by line in order.
#[verifier::opaque]
pub open spec fn env_pairs(s: Seq<char>) -> Seq<(Seq<char>, Seq<char>)>
    decreases s.len(),
{
    match first_index_of(s, '\n') {
        Some(i) => if 0 <= i < s.len() {
            entry_seq(s.subrange(0, i)) + env_pairs(s.subrange(i + 1, s.len() as int))
        } else {
            Seq::empty()
        },
        None => entry_seq(s),
    }
}

proof fn lemma_env_pairs_last_line(s: Seq<char>)
    requires
        forall|k: int| 0 <= k < s.len() ==> s[k] != '\n',
    ensures
        env_pairs(s) == entry_seq(s),
{
    reveal(env_pairs);
    assert(first_index_of(s, '\n') is None);
}

proof fn lemma_env_pairs_step(s: Seq<char>, i: int)
    requires
        0 <= i < s.len(),
        s[i] == '\n',
        forall|k: int| 0 <= k < i ==> s[k] != '\n',
    ensures
        env_pairs(s) == entry_seq(s.subrange(0, i)) + env_pairs(s.subrange(i + 1, s.len() as int)),
{
    reveal(env_pairs);
    lemma_first_index_at(s, '\n', i);
}

/// The variable one line defines, if any.
pub fn parse_env_line(line: &Vec<char>) -> (r: Option<(String, String)>)
    ensures
        match r {
            Some(p) => env_entry(line@) == Some((p.0@, p.1@)),
            None => env_entry(line@) is None,
        },
{
    let t = trim_chars(line);
    if t.len() == 0 || t[0] == '#' {
        return None;
    }
    match crate::text::find_char(t.as_slice(), '=') {
        Some(i) => {
            let before = copy_range(t.as_slice(), 0, i);
            let after = copy_range(t.as_slice(), i + 1, t.len());
            let key = trim_chars(&before);
            let value_trimmed = trim_chars(&after);
            let value = trim_matches_char(&value_trimmed, '"');
            Some((string_from_chars(key.as_slice()), string_from_chars(value.as_slice())))
        },
        None => None,
    }
}

/// Parses the text of an env file: `KEY=VALUE` per line, `#` comments and blank lines
/// ignored, surrounding double quotes on the value stripped.
pub fn parse_env_file(contents: &str) -> (r: Vec<(String, String)>)
    ensures
        env_view(r@) == env_pairs(contents@),
{
    let cs = chars_of(contents);
    let n = cs.len();
    let mut out: Vec<(String, String)> = Vec::new();
    let mut start: usize = 0;
    proof {
        assert(cs@.subrange(0, n as int) =~= cs@);
    }
    loop
        invariant_except_break
            n == cs@.len(),
            cs@ == contents@,
            0 <= start <= n,
            env_view(out@) + env_pairs(cs@.subrange(start as int, n as int)) == env_pairs(cs@),
        ensures
            env_view(out@) == env_pairs(cs@),
            cs@ == contents@,
        decreases n - start,
    {
        let mut j = start;
        while j < n && cs[j] != '\n'
            invariant
                n == cs@.len(),
                start <= j <= n,
                forall|k: int| start <= k < j ==> cs@[k] != '\n',
            decreases n - j,
        {
            j += 1;
        }
        let ghost rest = cs@.subrange(start as int, n as int);
        let ghost before = out@;
        let segment = copy_range(cs.as_slice(), start, j);
        proof {
            assert(segment@ =~= rest.subrange(0, j - start));
        }
        let parsed = parse_env_line(&segment);
        match parsed {
            Some(p) => {
                out.push(p);
            },
            None => {},
        }
        proof {
            assert(env_view(out@) =~= env_view(before) + entry_seq(segment@));
        }
        if j == n {
            proof {
                assert(rest.subrange(0, j - start) =~= rest);
                assert forall|k: int| 0 <= k < rest.len() implies rest[k] != '\n' by {
                    assert(rest[k] == cs@[start + k]);
                }
                lemma_env_pairs_last_line(rest);
                assert(env_view(out@) =~= env_pairs(cs@));
            }
            break;
        }
        proof {
            assert forall|k: int| 0 <= k < j - start implies rest[k] != '\n' by {
                assert(rest[k] == cs@[start + k]);
            }
            assert(rest[j - start] == '\n');
            lemma_env_pairs_step(rest, j - start);
            assert(rest.subrange(j - start + 1, rest.len() as int) =~= cs@.subrange(
                j + 1,
                n as int,
            ));
            assert(env_pairs(rest) == entry_seq(segment@) + env_pairs(
                cs@.subrange(j + 1, n as int),
            ));
            assert(env_view(out@) + env_pairs(cs@.subrange(j + 1, n as int)) =~= env_view(before)
                + env_pairs(rest));
        }
        start = j + 1;
    }
    out
}

/// Without overrides, a repository launches with the default command of its toolchain and
/// detected script (for a repository whose toolchain has a script only when it is a Node
/// toolchain, as every scan stores it): the launch line and the scan's default command agree.
pub proof fn law_launch_line_is_default_command(repo: Repository)
    requires
        non_empty(repo.command) is None,
        non_empty(repo.args) is None,
        pm_of_name(repo.package_manager@) is Some,
        repo.detected_script is Some ==> (pm_of_name(repo.package_manager@) matches Some(pm) && (
        pm == PackageManager::Npm || pm == PackageManager::Pnpm || pm == PackageManager::Yarn
            || pm == PackageManager::Bun)),
    ensures
        command_line(repo) == default_command_spec(
            pm_of_name(repo.package_manager@)->0,
            opt_view(repo.detected_script),
        ),
{
    let pm = repo.package_manager@;
    crate::scanner::law_as_str_inverts_parse(pm);
    if repo.detected_script is Some {
        let script = repo.detected_script->0@;
        reveal_strlit("npm");
        reveal_strlit("pnpm");
        reveal_strlit("yarn");
        reveal_strlit("bun");
        reveal_strlit(" run ");
        reveal_strlit("npm run ");
        reveal_strlit("pnpm run ");
        reveal_strlit("bun run ");
        reveal_strlit("yarn ");
        assert("npm"@ + " run "@ =~= "npm run "@);
        assert("pnpm"@ + " run "@ =~= "pnpm run "@);
        assert("bun"@ + " run "@ =~= "bun run "@);
        assert(pm + " run "@ + script =~= (pm + " run "@) + script);
        crate::scanner::law_parse_inverts_as_str(PackageManager::Yarn);
        crate::scanner::law_parse_inverts_as_str(PackageManager::Npm);
        crate::scanner::law_parse_inverts_as_str(PackageManager::Pnpm);
        crate::scanner::law_parse_inverts_as_str(PackageManager::Bun);
    }
}

/// A repository with no command override has a launch line exactly when its toolchain has
/// a default command or it has a detected script.
pub proof fn law_launch_line_without_override(repo: Repository)
    requires
        non_empty(repo.command) is None,
    ensures
        command_line(repo) is Some <==> (repo.detected_script is Some || toolchain_default(
            repo,
        ) is Some),
{
}

/// The extra arguments always follow the base command, whatever it came from (an override,
/// a detected script or the toolchain default): with non-empty arguments the line is the
/// base command, a space and the arguments; without them it is the base command alone; and
/// without a base command there is no line.
pub proof fn law_args_follow_base_command(repo: Repository)
    ensures
        base_command(repo) is None ==> command_line(repo) is None,
        base_command(repo) matches Some(b) ==> match non_empty(repo.args) {
            Some(a) => command_line(repo) == Some(b + " "@ + a) && a.len() > 0,
            None => command_line(repo) == Some(b),
        },
        non_empty(repo.args) matches Some(a) ==> a == repo.args->0@,
{
}

/// A non-empty command override is run verbatim: neither the package manager, the detected
/// script nor the toolchain default changes it.
pub proof fn law_override_runs_verbatim(repo: Repository)
    requires
        repo.command matches Some(c) && c@.len() > 0,
    ensures
        base_command(repo) == Some(repo.command->0@),
{
}

} // verus!
