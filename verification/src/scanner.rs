//! Repository discovery under a project root.
//!
//! A directory is a repository when it carries an ecosystem's marker, checked in a fixed
//! order (Node, Python, Rust, .NET; the first match wins). The toolchain comes from the
//! lockfiles present, in each ecosystem's precedence; Node repositories also get a start
//! script picked by priority (`start:dev`, `dev`, `start`, `serve`, `watch`). Immediate
//! children of the root are checked, plus one extra level under a child that is not itself
//! a repository; such nested repositories are named `<child>/<leaf>`. Dot-directories are
//! skipped, and the result is sorted by name.
//!
//! Looking at the file system happens around the library: it describes each directory as a
//! `DirProbe` (the files the detection asks about, the files it lists, the text of its
//! `package.json`) and hands those in.

use vstd::prelude::*;
use crate::commands::views;
use crate::text::{chars_of, concat2, concat3, owned, str_eq};

verus! {

/// Toolchain detected for a discovered repository.
#[derive(Debug, Clone, Copy, PartialEq, Eq, Structural)]
pub enum PackageManager {
    Npm,
    Pnpm,
    Yarn,
    Bun,
    Pip,
    Poetry,
    Uv,
    Pipenv,
    Cargo,
    Dotnet,
}

/// The stored name of a toolchain.
pub open spec fn pm_name(pm: PackageManager) -> Seq<char> {
    match pm {
        PackageManager::Npm => "npm"@,
        PackageManager::Pnpm => "pnpm"@,
        PackageManager::Yarn => "yarn"@,
        PackageManager::Bun => "bun"@,
        PackageManager::Pip => "pip"@,
        PackageManager::Poetry => "poetry"@,
        PackageManager::Uv => "uv"@,
        PackageManager::Pipenv => "pipenv"@,
        PackageManager::Cargo => "cargo"@,
        PackageManager::Dotnet => "dotnet"@,
    }
}

/// The toolchain a stored name denotes, if any.
pub open spec fn pm_of_name(s: Seq<char>) -> Option<PackageManager> {
    if s == "npm"@ {
        Some(PackageManager::Npm)
    } else if s == "pnpm"@ {
        Some(PackageManager::Pnpm)
    } else if s == "yarn"@ {
        Some(PackageManager::Yarn)
    } else if s == "bun"@ {
        Some(PackageManager::Bun)
    } else if s == "pip"@ {
        Some(PackageManager::Pip)
    } else if s == "poetry"@ {
        Some(PackageManager::Poetry)
    } else if s == "uv"@ {
        Some(PackageManager::Uv)
    } else if s == "pipenv"@ {
        Some(PackageManager::Pipenv)
    } else if s == "cargo"@ {
        Some(PackageManager::Cargo)
    } else if s == "dotnet"@ {
        Some(PackageManager::Dotnet)
    } else {
        None
    }
}

impl PackageManager {
    /// The stored name: the lowercase toolchain name.
    pub fn as_str(&self) -> (r: &'static str)
        ensures
            r@ == pm_name(*self),
    {
        match self {
            PackageManager::Npm => "npm",
            PackageManager::Pnpm => "pnpm",
            PackageManager::Yarn => "yarn",
            PackageManager::Bun => "bun",
            PackageManager::Pip => "pip",
            PackageManager::Poetry => "poetry",
            PackageManager::Uv => "uv",
            PackageManager::Pipenv => "pipenv",
            PackageManager::Cargo => "cargo",
            PackageManager::Dotnet => "dotnet",
        }
    }

    /// Parses a stored name back into its toolchain.
    pub fn parse(s: &str) -> (r: Option<PackageManager>)
        ensures
            r == pm_of_name(s@),
    {
        if str_eq(s, "npm") {
            Some(PackageManager::Npm)
        } else if str_eq(s, "pnpm") {
            Some(PackageManager::Pnpm)
        } else if str_eq(s, "yarn") {
            Some(PackageManager::Yarn)
        } else if str_eq(s, "bun") {
            Some(PackageManager::Bun)
        } else if str_eq(s, "pip") {
            Some(PackageManager::Pip)
        } else if str_eq(s, "poetry") {
            Some(PackageManager::Poetry)
        } else if str_eq(s, "uv") {
            Some(PackageManager::Uv)
        } else if str_eq(s, "pipenv") {
            Some(PackageManager::Pipenv)
        } else if str_eq(s, "cargo") {
            Some(PackageManager::Cargo)
        } else if str_eq(s, "dotnet") {
            Some(PackageManager::Dotnet)
        } else {
            None
        }
    }
}

/// Every stored name parses back to its toolchain.
pub proof fn law_parse_inverts_as_str(pm: PackageManager)
    ensures
        pm_of_name(pm_name(pm)) == Some(pm),
{
    reveal_strlit("npm");
    reveal_strlit("pnpm");
    reveal_strlit("yarn");
    reveal_strlit("bun");
    reveal_strlit("pip");
    reveal_strlit("poetry");
    reveal_strlit("uv");
    reveal_strlit("pipenv");
    reveal_strlit("cargo");
    reveal_strlit("dotnet");
    match pm {
        PackageManager::Npm => {

        },
        PackageManager::Pnpm => {
            assert("pnpm"@.len() != "npm"@.len());
        },
        PackageManager::Yarn => {
            assert("yarn"@.len() != "npm"@.len());
            assert("yarn"@[0] != "pnpm"@[0]);
        },
        PackageManager::Bun => {
            assert("bun"@[0] != "npm"@[0]);
            assert("bun"@.len() != "pnpm"@.len());
            assert("bun"@.len() != "yarn"@.len());
        },
        PackageManager::Pip => {
            assert("pip"@[0] != "npm"@[0]);
            assert("pip"@.len() != "pnpm"@.len());
            assert("pip"@.len() != "yarn"@.len());
            assert("pip"@[0] != "bun"@[0]);
        },
        PackageManager::Poetry => {
            assert("poetry"@.len() != "npm"@.len());
            assert("poetry"@.len() != "pnpm"@.len());
            assert("poetry"@.len() != "yarn"@.len());
            assert("poetry"@.len() != "bun"@.len());
            assert("poetry"@.len() != "pip"@.len());
        },
        PackageManager::Uv => {
            assert("uv"@.len() != "npm"@.len());
            assert("uv"@.len() != "pnpm"@.len());
            assert("uv"@.len() != "yarn"@.len());
            assert("uv"@.len() != "bun"@.len());
            assert("uv"@.len() != "pip"@.len());
            assert("uv"@.len() != "poetry"@.len());
        },
        PackageManager::Pipenv => {
            assert("pipenv"@.len() != "npm"@.len());
            assert("pipenv"@.len() != "pnpm"@.len());
            assert("pipenv"@.len() != "yarn"@.len());
            assert("pipenv"@.len() != "bun"@.len());
            assert("pipenv"@.len() != "pip"@.len());
            assert("pipenv"@[1] != "poetry"@[1]);
            assert("pipenv"@.len() != "uv"@.len());
        },
        PackageManager::Cargo => {
            assert("cargo"@.len() != "npm"@.len());
            assert("cargo"@.len() != "pnpm"@.len());
            assert("cargo"@.len() != "yarn"@.len());
            assert("cargo"@.len() != "bun"@.len());
            assert("cargo"@.len() != "pip"@.len());
            assert("cargo"@.len() != "poetry"@.len());
            assert("cargo"@.len() != "uv"@.len());
            assert("cargo"@.len() != "pipenv"@.len());
        },
        PackageManager::Dotnet => {
            assert("dotnet"@.len() != "npm"@.len());
            assert("dotnet"@.len() != "pnpm"@.len());
            assert("dotnet"@.len() != "yarn"@.len());
            assert("dotnet"@.len() != "bun"@.len());
            assert("dotnet"@.len() != "pip"@.len());
            assert("dotnet"@[0] != "poetry"@[0]);
            assert("dotnet"@.len() != "uv"@.len());
            assert("dotnet"@[0] != "pipenv"@[0]);
            assert("dotnet"@.len() != "cargo"@.len());
        },
    }
}

/// A name that parses is the stored name of what it parses to.
pub proof fn law_as_str_inverts_parse(s: Seq<char>)
    ensures
        pm_of_name(s) matches Some(pm) ==> pm_name(pm) == s,
{
}

/// A repository discovered under a project root.
#[derive(Debug, Clone)]
pub struct DiscoveredRepo {
    pub name: String,
    pub path: String,
    pub package_manager: PackageManager,
    pub detected_script: Option<String>,
    pub command: Option<String>,
}

/// The contents of a discovered repository.
pub struct DiscoveredRepoView {
    pub name: Seq<char>,
    pub path: Seq<char>,
    pub package_manager: PackageManager,
    pub detected_script: Option<Seq<char>>,
    pub command: Option<Seq<char>>,
}

pub open spec fn opt_view(o: Option<String>) -> Option<Seq<char>> {
    match o {
        Some(s) => Some(s@),
        None => None,
    }
}

impl View for DiscoveredRepo {
    type V = DiscoveredRepoView;

    open spec fn view(&self) -> DiscoveredRepoView {
        DiscoveredRepoView {
            name: self.name@,
            path: self.path@,
            package_manager: self.package_manager,
            detected_script: opt_view(self.detected_script),
            command: opt_view(self.command),
        }
    }
}

/// Why a scan failed.
#[derive(Debug)]
pub enum ScanError {
    RootNotADirectory(String),
    Io(String),
}

/// The message of a scan error.
pub open spec fn scan_error_message(e: ScanError) -> Seq<char> {
    match e {
        ScanError::RootNotADirectory(p) => "project root not found or not a directory: "@ + p@,
        ScanError::Io(m) => "failed to read directory: "@ + m@,
    }
}

impl ScanError {
    /// The message shown for the error.
    pub fn message(&self) -> (r: String)
        ensures
            r@ == scan_error_message(*self),
    {
        match self {
            ScanError::RootNotADirectory(p) => concat2(
                "project root not found or not a directory: ",
                p.as_str(),
            ),
            ScanError::Io(m) => concat2("failed to read directory: ", m.as_str()),
        }
    }
}

// ── Default commands ──────────────────────────────────────────────────────────

/// The default launch command of a toolchain: Node toolchains run the detected script
/// (`yarn <script>`, otherwise `<pm> run <script>`) and have none without one; every other
/// toolchain has one fixed command.
pub open spec fn default_command_spec(pm: PackageManager, script: Option<Seq<char>>) -> Option<
    Seq<char>,
> {
    match pm {
        PackageManager::Npm => match script {
            Some(s) => Some("npm run "@ + s),
            None => None,
        },
        PackageManager::Pnpm => match script {
            Some(s) => Some("pnpm run "@ + s),
            None => None,
        },
        PackageManager::Bun => match script {
            Some(s) => Some("bun run "@ + s),
            None => None,
        },
        PackageManager::Yarn => match script {
            Some(s) => Some("yarn "@ + s),
            None => None,
        },
        PackageManager::Pip => Some("python main.py"@),
        PackageManager::Poetry => Some("poetry run python main.py"@),
        PackageManager::Uv => Some("uv run main.py"@),
        PackageManager::Pipenv => Some("pipenv run python main.py"@),
        PackageManager::Cargo => Some("cargo run"@),
        PackageManager::Dotnet => Some("dotnet run"@),
    }
}

/// Builds the default launch command for a toolchain; `detected_script` only matters for
/// the Node toolchains.
pub fn default_command(pm: PackageManager, detected_script: Option<&str>) -> (r: Option<String>)
    ensures
        opt_view(r) == default_command_spec(
            pm,
            match detected_script {
                Some(s) => Some(s@),
                None => None,
            },
        ),
{
    match pm {
        PackageManager::Npm => match detected_script {
            Some(s) => Some(concat2("npm run ", s)),
            None => None,
        },
        PackageManager::Pnpm => match detected_script {
            Some(s) => Some(concat2("pnpm run ", s)),
            None => None,
        },
        PackageManager::Bun => match detected_script {
            Some(s) => Some(concat2("bun run ", s)),
            None => None,
        },
        PackageManager::Yarn => match detected_script {
            Some(s) => Some(concat2("yarn ", s)),
            None => None,
        },
        PackageManager::Pip => Some(owned("python main.py")),
        PackageManager::Poetry => Some(owned("poetry run python main.py")),
        PackageManager::Uv => Some(owned("uv run main.py")),
        PackageManager::Pipenv => Some(owned("pipenv run python main.py")),
        PackageManager::Cargo => Some(owned("cargo run")),
        PackageManager::Dotnet => Some(owned("dotnet run")),
    }
}

// ── Directory probes ──────────────────────────────────────────────────────────

/// What the detection knows of one directory.
#[derive(Debug)]
pub struct DirProbe {
    /// The directory's path, in display form.
    pub path: String,
    /// The directory's own (leaf) name, when it has one.
    pub name: Option<String>,
    pub is_dir: bool,
    /// Which of `probe_file_names()` are regular files in the directory.
    pub present_files: Vec<String>,
    /// The names of the regular files listed directly in the directory.
    pub listed_files: Vec<String>,
    /// The text of the directory's `package.json`, when it could be read.
    pub package_json: Option<String>,
}

/// The file names whose presence the detection asks about.
pub open spec fn probed_names() -> Seq<Seq<char>> {
    seq![
        "package.json"@,
        "pyproject.toml"@,
        "requirements.txt"@,
        "Pipfile"@,
        "Cargo.toml"@,
        "pnpm-lock.yaml"@,
        "package-lock.json"@,
        "yarn.lock"@,
        "bun.lock"@,
        "poetry.lock"@,
        "uv.lock"@,
        "Pipfile.lock"@,
    ]
}

/// The file names whose presence a `DirProbe` must report.
pub fn probe_file_names() -> (r: Vec<&'static str>)
    ensures
        r@.map_values(|s: &'static str| s@) == probed_names(),
{
    let v: Vec<&'static str> = vec![
        "package.json",
        "pyproject.toml",
        "requirements.txt",
        "Pipfile",
        "Cargo.toml",
        "pnpm-lock.yaml",
        "package-lock.json",
        "yarn.lock",
        "bun.lock",
        "poetry.lock",
        "uv.lock",
        "Pipfile.lock",
    ];
    proof {
        assert(v@.map_values(|s: &'static str| s@) =~= probed_names());
    }
    v
}

/// `file` is a regular file in the probed directory.
pub open spec fn present(dir: DirProbe, file: Seq<char>) -> bool {
    views(dir.present_files@).contains(file)
}

fn is_present(dir: &DirProbe, file: &str) -> (r: bool)
    ensures
        r == present(*dir, file@),
{
    let mut k: usize = 0;
    while k < dir.present_files.len()
        invariant
            0 <= k <= dir.present_files@.len(),
            forall|q: int| 0 <= q < k ==> dir.present_files@[q]@ != file@,
        decreases dir.present_files.len() - k,
    {
        if str_eq(dir.present_files[k].as_str(), file) {
            proof {
                assert(views(dir.present_files@)[k as int] == file@);
            }
            return true;
        }
        k += 1;
    }
    proof {
        if views(dir.present_files@).contains(file@) {
            let q = choose|q: int|
                0 <= q < views(dir.present_files@).len() && views(dir.present_files@)[q] == file@;
            assert(dir.present_files@[q]@ == file@);
        }
    }
    false
}

/// Whether any of `files` is a regular file in the directory.
pub fn has_marker_file(dir: &DirProbe, files: &[&str]) -> (r: bool)
    ensures
        r == exists|k: int| 0 <= k < files@.len() && present(*dir, #[trigger] files@[k]@),
{
    let mut k: usize = 0;
    while k < files.len()
        invariant
            0 <= k <= files@.len(),
            forall|q: int| 0 <= q < k ==> !present(*dir, #[trigger] files@[q]@),
        decreases files.len() - k,
    {
        if is_present(dir, files[k]) {
            return true;
        }
        k += 1;
    }
    false
}

/// Position of the last `c` in `s`.
pub open spec fn last_index_of(s: Seq<char>, c: char) -> Option<int>
    decreases s.len(),
{
    if s.len() == 0 {
        None
    } else if s.last() == c {
        Some(s.len() - 1)
    } else {
        last_index_of(s.drop_last(), c)
    }
}

proof fn lemma_last_index_bounds(s: Seq<char>, c: char)
    ensures
        last_index_of(s, c) matches Some(i) ==> 0 <= i < s.len() && s[i] == c && forall|k: int|
            i < k < s.len() ==> s[k] != c,
        last_index_of(s, c) is None ==> forall|k: int| 0 <= k < s.len() ==> s[k] != c,
    decreases s.len(),
{
    if s.len() > 0 && s.last() != c {
        lemma_last_index_bounds(s.drop_last(), c);
        assert forall|k: int| 0 <= k < s.len() - 1 implies s[k] == s.drop_last()[k] by {}
    }
}

/// The extension of a file name, as `Path::extension` gives it: the text after the last
/// `.`, when that dot is not the name's first character (and the name is not `..`).
pub open spec fn extension(name: Seq<char>) -> Option<Seq<char>> {
    if name == ".."@ {
        None
    } else {
        match last_index_of(name, '.') {
            Some(i) => if i == 0 {
                None
            } else {
                Some(name.subrange(i + 1, name.len() as int))
            },
            None => None,
        }
    }
}

/// A character's ASCII-lowercase code.
pub open spec fn ascii_lower(c: char) -> int {
    if 'A' <= c && c <= 'Z' {
        c as int + 32
    } else {
        c as int
    }
}

/// Equality up to ASCII case, as `str::eq_ignore_ascii_case` decides it.
pub open spec fn eq_ignore_ascii_case(a: Seq<char>, b: Seq<char>) -> bool {
    a.len() == b.len() && forall|i: int| 0 <= i < a.len() ==> ascii_lower(a[i]) == ascii_lower(b[i])
}

fn lower_code(c: char) -> (r: u32)
    ensures
        r == ascii_lower(c),
{
    let code = c as u32;
    if 'A' <= c && c <= 'Z' {
        code + 32
    } else {
        code
    }
}

fn chars_eq_ignore_ascii_case(a: &[char], b: &[char]) -> (r: bool)
    ensures
        r == eq_ignore_ascii_case(a@, b@),
{
    if a.len() != b.len() {
        return false;
    }
    let mut i: usize = 0;
    while i < a.len()
        invariant
            a@.len() == b@.len(),
            0 <= i <= a@.len(),
            forall|k: int| 0 <= k < i ==> ascii_lower(a@[k]) == ascii_lower(b@[k]),
        decreases a.len() - i,
    {
        if lower_code(a[i]) != lower_code(b[i]) {
            return false;
        }
        i += 1;
    }
    true
}

fn last_dot(s: &[char]) -> (r: Option<usize>)
    ensures
        match r {
            Some(i) => last_index_of(s@, '.') == Some(i as int),
            None => last_index_of(s@, '.') is None,
        },
{
    let mut k: usize = s.len();
    proof {
        assert(s@.subrange(0, k as int) =~= s@);
    }
    while k > 0
        invariant
            0 <= k <= s@.len(),
            last_index_of(s@, '.') == last_index_of(s@.subrange(0, k as int), '.'),
        decreases k,
    {
        proof {
            let sub = s@.subrange(0, k as int);
            assert(sub.last() == s@[k - 1]);
            assert(sub.drop_last() =~= s@.subrange(0, k - 1));
        }
        if s[k - 1] == '.' {
            return Some(k - 1);
        }
        k -= 1;
    }
    proof {
        assert(s@.subrange(0, 0) =~= Seq::<char>::empty());
    }
    None
}

/// Whether `name` has an extension equal to `ext` up to ASCII case.
fn has_extension(name: &str, ext: &str) -> (r: bool)
    ensures
        r == (extension(name@) matches Some(e) && eq_ignore_ascii_case(e, ext@)),
{
    let cs = chars_of(name);
    if cs.len() == 2 && cs[0] == '.' && cs[1] == '.' {
        proof {
            reveal_strlit("..");
            assert(name@ =~= ".."@);
        }
        return false;
    }
    proof {
        reveal_strlit("..");
        if name@ == ".."@ {
            assert(cs@.len() == 2 && cs@[0] == '.' && cs@[1] == '.');
        }
    }
    match last_dot(cs.as_slice()) {
        Some(i) => {
            if i == 0 {
                return false;
            }
            proof {
                lemma_last_index_bounds(cs@, '.');
            }
            let e = crate::text::copy_range(cs.as_slice(), i + 1, cs.len());
            let ec = chars_of(ext);
            chars_eq_ignore_ascii_case(e.as_slice(), ec.as_slice())
        },
        None => false,
    }
}

/// Some file listed in the directory has extension `ext`, up to ASCII case.
pub open spec fn has_ext_file(dir: DirProbe, ext: Seq<char>) -> bool {
    exists|k: int|
        0 <= k < dir.listed_files@.len() && (extension(#[trigger] dir.listed_files@[k]@) matches Some(
            e,
        ) && eq_ignore_ascii_case(e, ext))
}

/// Whether a file listed in the directory has extension `ext`, ignoring ASCII case.
pub fn has_file_with_extension(dir: &DirProbe, ext: &str) -> (r: bool)
    ensures
        r == has_ext_file(*dir, ext@),
{
    let mut k: usize = 0;
    while k < dir.listed_files.len()
        invariant
            0 <= k <= dir.listed_files@.len(),
            forall|q: int|
                0 <= q < k ==> !(extension(#[trigger] dir.listed_files@[q]@) matches Some(e)
                    && eq_ignore_ascii_case(e, ext@)),
        decreases dir.listed_files.len() - k,
    {
        if has_extension(dir.listed_files[k].as_str(), ext) {
            return true;
        }
        k += 1;
    }
    false
}

// ── Ecosystems ────────────────────────────────────────────────────────────────

/// The ecosystems a repository can belong to, in the order their markers are checked.
#[derive(Debug, Clone, Copy, PartialEq, Eq, Structural)]
pub enum Ecosystem {
    Node,
    Python,
    Rust,
    Dotnet,
}

/// The directory carries the ecosystem's marker: `package.json` (Node); `pyproject.toml`,
/// `requirements.txt` or `Pipfile` (Python); `Cargo.toml` (Rust); a `.csproj` or `.sln`
/// file, in any ASCII case (.NET).
pub open spec fn marker(eco: Ecosystem, dir: DirProbe) -> bool {
    match eco {
        Ecosystem::Node => present(dir, "package.json"@),
        Ecosystem::Python => present(dir, "pyproject.toml"@) || present(dir, "requirements.txt"@)
            || present(dir, "Pipfile"@),
        Ecosystem::Rust => present(dir, "Cargo.toml"@),
        Ecosystem::Dotnet => has_ext_file(dir, "csproj"@) || has_ext_file(dir, "sln"@),
    }
}

/// The first ecosystem whose marker the directory carries.
pub open spec fn ecosystem_of(dir: DirProbe) -> Option<Ecosystem> {
    if marker(Ecosystem::Node, dir) {
        Some(Ecosystem::Node)
    } else if marker(Ecosystem::Python, dir) {
        Some(Ecosystem::Python)
    } else if marker(Ecosystem::Rust, dir) {
        Some(Ecosystem::Rust)
    } else if marker(Ecosystem::Dotnet, dir) {
        Some(Ecosystem::Dotnet)
    } else {
        None
    }
}

fn has_marker(eco: Ecosystem, dir: &DirProbe) -> (r: bool)
    ensures
        r == marker(eco, *dir),
{
    match eco {
        Ecosystem::Node => is_present(dir, "package.json"),
        Ecosystem::Python => {
            let names: [&str; 3] = ["pyproject.toml", "requirements.txt", "Pipfile"];
            let r = has_marker_file(dir, names.as_slice());
            proof {
                assert(names@[0]@ == "pyproject.toml"@);
                assert(names@[1]@ == "requirements.txt"@);
                assert(names@[2]@ == "Pipfile"@);
                if r {
                    let k = choose|k: int| 0 <= k < names@.len() && present(*dir, #[trigger] names@[k]@);
                    assert(k == 0 || k == 1 || k == 2);
                }
            }
            r
        },
        Ecosystem::Rust => is_present(dir, "Cargo.toml"),
        Ecosystem::Dotnet => has_file_with_extension(dir, "csproj") || has_file_with_extension(
            dir,
            "sln",
        ),
    }
}

/// Finds the first ecosystem whose marker the directory carries.
pub fn find_ecosystem(dir: &DirProbe) -> (r: Option<Ecosystem>)
    ensures
        r == ecosystem_of(*dir),
{
    if has_marker(Ecosystem::Node, dir) {
        Some(Ecosystem::Node)
    } else if has_marker(Ecosystem::Python, dir) {
        Some(Ecosystem::Python)
    } else if has_marker(Ecosystem::Rust, dir) {
        Some(Ecosystem::Rust)
    } else if has_marker(Ecosystem::Dotnet, dir) {
        Some(Ecosystem::Dotnet)
    } else {
        None
    }
}

/// The toolchain of a repository of the ecosystem: the first lockfile present in the
/// ecosystem's precedence decides (Node: `pnpm-lock.yaml`, `package-lock.json`,
/// `yarn.lock`, `bun.lock`, defaulting to npm; Python: `poetry.lock`, `uv.lock`,
/// `Pipfile.lock`, defaulting to pip); Rust and .NET have one toolchain each.
pub open spec fn toolchain_of(dir: DirProbe, eco: Ecosystem) -> PackageManager {
    match eco {
        Ecosystem::Node => if present(dir, "pnpm-lock.yaml"@) {
            PackageManager::Pnpm
        } else if present(dir, "package-lock.json"@) {
            PackageManager::Npm
        } else if present(dir, "yarn.lock"@) {
            PackageManager::Yarn
        } else if present(dir, "bun.lock"@) {
            PackageManager::Bun
        } else {
            PackageManager::Npm
        },
        Ecosystem::Python => if present(dir, "poetry.lock"@) {
            PackageManager::Poetry
        } else if present(dir, "uv.lock"@) {
            PackageManager::Uv
        } else if present(dir, "Pipfile.lock"@) {
            PackageManager::Pipenv
        } else {
            PackageManager::Pip
        },
        Ecosystem::Rust => PackageManager::Cargo,
        Ecosystem::Dotnet => PackageManager::Dotnet,
    }
}

/// Picks the toolchain of a repository of the given ecosystem from its lockfiles.
pub fn detect_toolchain(dir: &DirProbe, eco: Ecosystem) -> (r: PackageManager)
    ensures
        r == toolchain_of(*dir, eco),
{
    match eco {
        Ecosystem::Node => if is_present(dir, "pnpm-lock.yaml") {
            PackageManager::Pnpm
        } else if is_present(dir, "package-lock.json") {
            PackageManager::Npm
        } else if is_present(dir, "yarn.lock") {
            PackageManager::Yarn
        } else if is_present(dir, "bun.lock") {
            PackageManager::Bun
        } else {
            PackageManager::Npm
        },
        Ecosystem::Python => if is_present(dir, "poetry.lock") {
            PackageManager::Poetry
        } else if is_present(dir, "uv.lock") {
            PackageManager::Uv
        } else if is_present(dir, "Pipfile.lock") {
            PackageManager::Pipenv
        } else {
            PackageManager::Pip
        },
        Ecosystem::Rust => PackageManager::Cargo,
        Ecosystem::Dotnet => PackageManager::Dotnet,
    }
}

// ── Start scripts ─────────────────────────────────────────────────────────────

/// The names of the entries of the `scripts` object of a `package.json` text, as
/// `serde_json` reads it: `None` when the text is not JSON or has no `scripts` object.
pub uninterp spec fn package_scripts(contents: Seq<char>) -> Option<Seq<Seq<char>>>;

/// Reads the script names of a `package.json` text with `serde_json::from_str` into a
/// `serde_json::Value`, then takes its `scripts` member as an object and lists its keys.
/// Trusted: the result is what `serde_json` gives for this text, named `package_scripts`.
#[verifier::external_body]
fn package_json_script_names(contents: &str) -> (r: Option<Vec<String>>)
    ensures
        match r {
            Some(v) => package_scripts(contents@) == Some(views(v@)),
            None => package_scripts(contents@) is None,
        },
{
    let value: serde_json::Value = serde_json::from_str(contents).ok()?;
    let scripts = value.get("scripts")?.as_object()?;
    Some(scripts.keys().cloned().collect())
}

/// The first of `start:dev`, `dev`, `start`, `serve`, `watch` among the script names.
pub open spec fn priority_script(keys: Seq<Seq<char>>) -> Option<Seq<char>> {
    if keys.contains("start:dev"@) {
        Some("start:dev"@)
    } else if keys.contains("dev"@) {
        Some("dev"@)
    } else if keys.contains("start"@) {
        Some("start"@)
    } else if keys.contains("serve"@) {
        Some("serve"@)
    } else if keys.contains("watch"@) {
        Some("watch"@)
    } else {
        None
    }
}

/// The start script of a Node repository, from the text of its `package.json` (`None` when
/// there is no readable file).
pub open spec fn node_script(package_json: Option<Seq<char>>) -> Option<Seq<char>> {
    match package_json {
        Some(text) => match package_scripts(text) {
            Some(keys) => priority_script(keys),
            None => None,
        },
        None => None,
    }
}

fn names_contain(names: &Vec<String>, s: &str) -> (r: bool)
    ensures
        r == views(names@).contains(s@),
{
    let mut k: usize = 0;
    while k < names.len()
        invariant
            0 <= k <= names@.len(),
            forall|q: int| 0 <= q < k ==> names@[q]@ != s@,
        decreases names.len() - k,
    {
        if str_eq(names[k].as_str(), s) {
            proof {
                assert(views(names@)[k as int] == s@);
            }
            return true;
        }
        k += 1;
    }
    proof {
        if views(names@).contains(s@) {
            let q = choose|q: int| 0 <= q < views(names@).len() && views(names@)[q] == s@;
            assert(names@[q]@ == s@);
        }
    }
    false
}

/// Picks the start script from a repository's script names by priority.
pub fn pick_script(keys: &Vec<String>) -> (r: Option<String>)
    ensures
        opt_view(r) == priority_script(views(keys@)),
{
    if names_contain(keys, "start:dev") {
        Some(owned("start:dev"))
    } else if names_contain(keys, "dev") {
        Some(owned("dev"))
    } else if names_contain(keys, "start") {
        Some(owned("start"))
    } else if names_contain(keys, "serve") {
        Some(owned("serve"))
    } else if names_contain(keys, "watch") {
        Some(owned("watch"))
    } else {
        None
    }
}

/// The start script a `package.json` text names: malformed JSON or a missing `scripts`
/// object gives none, as does a missing file.
pub fn detect_node_script(package_json: Option<&str>) -> (r: Option<String>)
    ensures
        opt_view(r) == node_script(
            match package_json {
                Some(t) => Some(t@),
                None => None,
            },
        ),
{
    match package_json {
        Some(text) => match package_json_script_names(text) {
            Some(keys) => pick_script(&keys),
            None => None,
        },
        None => None,
    }
}

// ── Classification ────────────────────────────────────────────────────────────

/// What a directory is classified as, given the name to show for it (`None`: its own
/// name).
pub open spec fn classified(dir: DirProbe, display_name: Option<Seq<char>>) -> Option<
    DiscoveredRepoView,
> {
    match ecosystem_of(dir) {
        None => None,
        Some(eco) => {
            let name = match display_name {
                Some(n) => Some(n),
                None => opt_view(dir.name),
            };
            match name {
                None => None,
                Some(n) => {
                    let pm = toolchain_of(dir, eco);
                    let script = node_script(opt_view(dir.package_json));
                    Some(
                        DiscoveredRepoView {
                            name: n,
                            path: dir.path@,
                            package_manager: pm,
                            detected_script: script,
                            command: default_command_spec(pm, script),
                        },
                    )
                },
            }
        },
    }
}

fn opt_str(o: &Option<String>) -> (r: Option<&str>)
    ensures
        match r {
            Some(s) => *o matches Some(t) && s@ == t@,
            None => o is None,
        },
{
    match o {
        Some(s) => Some(s.as_str()),
        None => None,
    }
}

/// Classifies a directory as a repository when it carries some ecosystem's marker (the
/// first in order wins). `display_name` overrides the directory's own name.
pub fn classify_repo_dir(dir: &DirProbe, display_name: Option<&str>) -> (r: Option<DiscoveredRepo>)
    ensures
        match r {
            Some(repo) => classified(
                *dir,
                match display_name {
                    Some(n) => Some(n@),
                    None => None,
                },
            ) == Some(repo@),
            None => classified(
                *dir,
                match display_name {
                    Some(n) => Some(n@),
                    None => None,
                },
            ) is None,
        },
{
    let eco = match find_ecosystem(dir) {
        Some(e) => e,
        None => return None,
    };
    let name = match display_name {
        Some(n) => owned(n),
        None => match &dir.name {
            Some(n) => n.clone(),
            None => return None,
        },
    };
    let package_manager = detect_toolchain(dir, eco);
    let detected_script = detect_node_script(opt_str(&dir.package_json));
    let command = default_command(package_manager, opt_str(&detected_script));
    Some(
        DiscoveredRepo {
            name,
            path: dir.path.clone(),
            package_manager,
            detected_script,
            command,
        },
    )
}

// ── Scanning a project root ───────────────────────────────────────────────────

/// An immediate child of the project root, with the directories inside it (gathered for
/// the one extra level that is checked under a child that is not itself a repository).
#[derive(Debug)]
pub struct ChildEntry {
    /// The entry's file name.
    pub name: String,
    pub probe: DirProbe,
    /// The entries inside the child; unreadable ones are left out.
    pub nested: Vec<DirProbe>,
}

/// The project root as the scan sees it.
#[derive(Debug)]
pub struct RootListing {
    /// The root's path, in display form.
    pub path: String,
    pub is_dir: bool,
    /// The root's entries in listing order, or the text of the first error met reading them.
    pub entries: Result<Vec<ChildEntry>, String>,
}

/// A dot-name (`.git`, `.vscode`, ...), skipped by the scan.
pub open spec fn hidden(name: Seq<char>) -> bool {
    name.len() > 0 && name[0] == '.'
}

/// The repositories found among the entries under a child named `parent`: each non-hidden
/// directory that classifies, named `<parent>/<leaf>`.
pub open spec fn nested_found(parent: Seq<char>, nested: Seq<DirProbe>) -> Seq<DiscoveredRepoView>
    decreases nested.len(),
{
    if nested.len() == 0 {
        Seq::empty()
    } else {
        let d = nested.last();
        let before = nested_found(parent, nested.drop_last());
        match d.name {
            Some(leaf) => if d.is_dir && !hidden(leaf@) {
                match classified(d, Some(parent + "/"@ + leaf@)) {
                    Some(r) => before.push(r),
                    None => before,
                }
            } else {
                before
            },
            None => before,
        }
    }
}

/// The repositories a child of the root contributes: none for a file or a dot-directory;
/// the child itself when it classifies; otherwise those nested one level under it.
pub open spec fn child_found(c: ChildEntry) -> Seq<DiscoveredRepoView> {
    if !c.probe.is_dir || hidden(c.name@) {
        Seq::empty()
    } else {
        match classified(c.probe, None) {
            Some(r) => seq![r],
            None => nested_found(c.name@, c.nested@),
        }
    }
}

/// The repositories found under the root's children, in listing order.
pub open spec fn found_repos(children: Seq<ChildEntry>) -> Seq<DiscoveredRepoView>
    decreases children.len(),
{
    if children.len() == 0 {
        Seq::empty()
    } else {
        found_repos(children.drop_last()) + child_found(children.last())
    }
}

/// The contents of a list of repositories.
pub open spec fn repo_views(v: Seq<DiscoveredRepo>) -> Seq<DiscoveredRepoView> {
    v.map_values(|r: DiscoveredRepo| r@)
}

/// Sorted by name, ascending.
pub open spec fn sorted_by_name(v: Seq<DiscoveredRepoView>) -> bool {
    forall|i: int, j: int|
        0 <= i < j < v.len() ==> !crate::text::seq_lt(#[trigger] v[j].name, #[trigger] v[i].name)
}

/// `p` arranges `s` into `r`: `r[i]` is `s[p[i]]`, each position of `s` used once, and
/// repositories with equal names keep their order in `s`.
pub open spec fn stable_arrangement(
    r: Seq<DiscoveredRepoView>,
    s: Seq<DiscoveredRepoView>,
    p: Seq<int>,
) -> bool {
    &&& p.len() == r.len()
    &&& r.len() == s.len()
    &&& forall|i: int| 0 <= i < r.len() ==> 0 <= #[trigger] p[i] < s.len() && r[i] == s[p[i]]
    &&& forall|i: int, j: int| 0 <= i < j < r.len() ==> #[trigger] p[i] != #[trigger] p[j]
    &&& forall|i: int, j: int|
        0 <= i < j < r.len() && (#[trigger] r[i]).name == (#[trigger] r[j]).name ==> p[i] < p[j]
}

/// `r` is `s` sorted by name, repositories with equal names kept in their order in `s`.
pub open spec fn stably_sorted_by_name(r: Seq<DiscoveredRepoView>, s: Seq<DiscoveredRepoView>) -> bool {
    sorted_by_name(r) && exists|p: Seq<int>| stable_arrangement(r, s, p)
}

fn hidden_name(name: &str) -> (r: bool)
    ensures
        r == hidden(name@),
{
    let cs = chars_of(name);
    cs.len() > 0 && cs[0] == '.'
}

fn push_repo(out: &mut Vec<DiscoveredRepo>, r: Option<DiscoveredRepo>)
    ensures
        match r {
            Some(x) => repo_views(final(out)@) == repo_views(old(out)@).push(x@),
            None => final(out)@ == old(out)@,
        },
{
    match r {
        Some(x) => {
            out.push(x);
            proof {
                assert(repo_views(out@) =~= repo_views(old(out)@).push(x@));
            }
        },
        None => {},
    }
}

fn collect_nested(parent: &str, nested: &Vec<DirProbe>, out: &mut Vec<DiscoveredRepo>)
    ensures
        repo_views(final(out)@) == repo_views(old(out)@) + nested_found(parent@, nested@),
{
    let mut k: usize = 0;
    let ghost start = repo_views(out@);
    while k < nested.len()
        invariant
            0 <= k <= nested@.len(),
            repo_views(out@) == start + nested_found(parent@, nested@.take(k as int)),
        decreases nested.len() - k,
    {
        let d = &nested[k];
        proof {
            assert(nested@.take(k as int + 1).drop_last() =~= nested@.take(k as int));
            assert(nested@.take(k as int + 1).last() == *d);
        }
        match &d.name {
            Some(leaf) => {
                if d.is_dir && !hidden_name(leaf.as_str()) {
                    let display = concat3(parent, "/", leaf.as_str());
                    let found = classify_repo_dir(d, Some(display.as_str()));
                    let ghost before = repo_views(out@);
                    push_repo(out, found);
                    proof {
                        assert(repo_views(out@) =~= start + nested_found(
                            parent@,
                            nested@.take(k as int + 1),
                        ));
                    }
                }
            },
            None => {},
        }
        k += 1;
    }
    proof {
        assert(nested@.take(nested@.len() as int) =~= nested@);
    }
}

proof fn lemma_lt_then_not_below(x: Seq<char>, y: Seq<char>, z: Seq<char>)
    requires
        crate::text::seq_lt(x, y),
        !crate::text::seq_lt(z, y),
    ensures
        !crate::text::seq_lt(z, x),
{
    crate::text::lemma_seq_lt_trichotomy(z, y);
    if z == y {
        crate::text::lemma_seq_lt_trichotomy(x, z);
    } else {
        crate::text::lemma_seq_lt_transitive(x, y, z);
        crate::text::lemma_seq_lt_trichotomy(x, z);
    }
}

/// Sorts repositories by name, ascending; equal names keep their order.
fn sort_by_name(items: Vec<DiscoveredRepo>) -> (r: Vec<DiscoveredRepo>)
    ensures
        stably_sorted_by_name(repo_views(r@), repo_views(items@)),
        repo_views(r@).to_multiset() == repo_views(items@).to_multiset(),
{
    let mut out: Vec<DiscoveredRepo> = Vec::new();
    let mut rest = items;
    let ghost all = repo_views(rest@);
    let ghost mut p: Seq<int> = Seq::empty();
    proof {
        assert(repo_views(out@).to_multiset().add(repo_views(rest@).to_multiset()) =~= all.to_multiset()) by {
            assert(repo_views(out@) =~= Seq::<DiscoveredRepoView>::empty());
            broadcast use vstd::multiset::group_multiset_axioms;
            broadcast use vstd::seq_lib::group_to_multiset_ensures;
        }
    }
    while rest.len() > 0
        invariant
            sorted_by_name(repo_views(out@)),
            repo_views(out@).to_multiset().add(repo_views(rest@).to_multiset()) == all.to_multiset(),
            out@.len() + rest@.len() == all.len(),
            repo_views(rest@) == all.subrange(out@.len() as int, all.len() as int),
            p.len() == out@.len(),
            forall|i: int|
                0 <= i < out@.len() ==> 0 <= #[trigger] p[i] < out@.len() && repo_views(out@)[i]
                    == all[p[i]],
            forall|i: int, j: int| 0 <= i < j < out@.len() ==> #[trigger] p[i] != #[trigger] p[j],
            forall|i: int, j: int|
                0 <= i < j < out@.len() && (#[trigger] repo_views(out@)[i]).name == (
                #[trigger] repo_views(out@)[j]).name ==> p[i] < p[j],
        decreases rest.len(),
    {
        let ghost rest_before = repo_views(rest@);
        let ghost out_before = repo_views(out@);
        let x = rest.remove(0);
        proof {
            assert(repo_views(rest@) =~= rest_before.remove(0));
            assert(rest_before[0] == x@);
        }
        let mut pos: usize = 0;
        while pos < out.len() && !crate::text::chars_lt(
            chars_of(x.name.as_str()).as_slice(),
            chars_of(out[pos].name.as_str()).as_slice(),
        )
            invariant
                0 <= pos <= out@.len(),
                repo_views(out@) == out_before,
                forall|k: int| 0 <= k < pos ==> !crate::text::seq_lt(x@.name, #[trigger] out_before[k].name),
            decreases out.len() - pos,
        {
            pos += 1;
        }
        let ghost xv = x@;
        let ghost c = out_before.len() as int;
        let ghost p_before = p;
        out.insert(pos, x);
        proof {
            let ov = repo_views(out@);
            assert(ov =~= out_before.insert(pos as int, xv));
            assert(all[c] == xv) by {
                assert(rest_before[0] == all.subrange(c, all.len() as int)[0]);
            }
            p = p_before.insert(pos as int, c);
            assert(repo_views(rest@) =~= all.subrange(c + 1, all.len() as int));
            assert forall|i: int| 0 <= i < ov.len() implies 0 <= #[trigger] p[i] < ov.len() && ov[i]
                == all[p[i]] by {
                if i < pos {
                    assert(p[i] == p_before[i] && ov[i] == out_before[i]);
                } else if i > pos {
                    assert(p[i] == p_before[i - 1] && ov[i] == out_before[i - 1]);
                }
            }
            assert forall|i: int, j: int| 0 <= i < j < ov.len() implies #[trigger] p[i]
                != #[trigger] p[j] by {
                if i != pos && j != pos {
                    let pi = if i < pos { i } else { i - 1 };
                    let pj = if j < pos { j } else { j - 1 };
                    assert(p[i] == p_before[pi] && p[j] == p_before[pj]);
                } else if i == pos {
                    assert(p[j] == p_before[j - 1]);
                } else {
                    assert(p[i] == p_before[i]);
                }
            }
            assert forall|i: int, j: int|
                0 <= i < j < ov.len() && (#[trigger] ov[i]).name == (#[trigger] ov[j]).name implies p[i]
                < p[j] by {
                if i != pos && j != pos {
                    let pi = if i < pos { i } else { i - 1 };
                    let pj = if j < pos { j } else { j - 1 };
                    assert(p[i] == p_before[pi] && p[j] == p_before[pj]);
                    assert(ov[i] == out_before[pi] && ov[j] == out_before[pj]);
                } else if j == pos {
                    assert(p[i] == p_before[i]);
                } else {
                    assert(ov[j] == out_before[j - 1]);
                    assert(crate::text::seq_lt(xv.name, out_before[pos as int].name));
                    if j - 1 > pos {
                        assert(!crate::text::seq_lt(out_before[j - 1].name, out_before[pos as int].name));
                    } else {
                        crate::text::lemma_seq_lt_irreflexive(out_before[pos as int].name);
                    }
                    lemma_lt_then_not_below(xv.name, out_before[pos as int].name, out_before[j - 1].name);
                    crate::text::lemma_seq_lt_irreflexive(xv.name);
                    crate::text::lemma_seq_lt_trichotomy(xv.name, out_before[j - 1].name);
                }
            }
            assert forall|i: int, j: int| 0 <= i < j < ov.len() implies !crate::text::seq_lt(
                #[trigger] ov[j].name,
                #[trigger] ov[i].name,
            ) by {
                if j == pos {
                    assert(ov[i] == out_before[i]);
                } else if i == pos {
                    assert(ov[j] == out_before[j - 1]);
                    assert(pos < out_before.len());
                    assert(crate::text::seq_lt(xv.name, out_before[pos as int].name));
                    if j - 1 > pos {
                        assert(!crate::text::seq_lt(out_before[j - 1].name, out_before[pos as int].name));
                    } else {
                        crate::text::lemma_seq_lt_irreflexive(out_before[pos as int].name);
                    }
                    lemma_lt_then_not_below(xv.name, out_before[pos as int].name, out_before[j - 1].name);
                } else if j < pos {
                    assert(ov[i] == out_before[i] && ov[j] == out_before[j]);
                } else if i > pos {
                    assert(ov[i] == out_before[i - 1] && ov[j] == out_before[j - 1]);
                } else {
                    assert(ov[i] == out_before[i] && ov[j] == out_before[j - 1]);
                }
            }
            vstd::seq_lib::to_multiset_insert(out_before, pos as int, xv);
            vstd::seq_lib::to_multiset_remove(rest_before, 0);
            assert(rest_before.contains(xv));
            vstd::seq_lib::to_multiset_contains(rest_before, xv);
            broadcast use vstd::multiset::group_multiset_axioms;
            assert(ov.to_multiset().add(repo_views(rest@).to_multiset()) =~= all.to_multiset());
        }
    }
    proof {
        assert(repo_views(rest@) =~= Seq::<DiscoveredRepoView>::empty());
        broadcast use vstd::multiset::group_multiset_axioms;
        broadcast use vstd::seq_lib::group_to_multiset_ensures;
        assert(repo_views(rest@).to_multiset() =~= vstd::multiset::Multiset::<DiscoveredRepoView>::empty());
        assert(repo_views(out@).to_multiset() =~= all.to_multiset());
        assert(stable_arrangement(repo_views(out@), all, p));
    }
    out
}

/// Scans a project root: every non-hidden child directory that is a repository, plus the
/// repositories one level under a child that is not, sorted by name. A root that is not a
/// directory, or whose entries cannot be read, fails the scan.
pub fn scan_project_root(root: &RootListing) -> (r: Result<Vec<DiscoveredRepo>, ScanError>)
    ensures
        !root.is_dir ==> (r matches Err(ScanError::RootNotADirectory(p)) && p@ == root.path@),
        root.is_dir ==> match root.entries {
            Err(e) => r matches Err(ScanError::Io(m)) && m@ == root.path@ + ": "@ + e@,
            Ok(children) => r matches Ok(v) && stably_sorted_by_name(
                repo_views(v@),
                found_repos(children@),
            ) && repo_views(v@).to_multiset() == found_repos(children@).to_multiset(),
        },
{
    if !root.is_dir {
        return Err(ScanError::RootNotADirectory(root.path.clone()));
    }
    let children = match &root.entries {
        Ok(c) => c,
        Err(e) => {
            return Err(ScanError::Io(concat3(root.path.as_str(), ": ", e.as_str())));
        },
    };
    let mut found: Vec<DiscoveredRepo> = Vec::new();
    let mut k: usize = 0;
    while k < children.len()
        invariant
            0 <= k <= children@.len(),
            repo_views(found@) == found_repos(children@.take(k as int)),
        decreases children.len() - k,
    {
        let c = &children[k];
        proof {
            assert(children@.take(k as int + 1).drop_last() =~= children@.take(k as int));
            assert(children@.take(k as int + 1).last() == *c);
        }
        let ghost before = repo_views(found@);
        if c.probe.is_dir && !hidden_name(c.name.as_str()) {
            match classify_repo_dir(&c.probe, None) {
                Some(repo) => {
                    found.push(repo);
                    proof {
                        assert(repo_views(found@) =~= before + child_found(*c));
                    }
                },
                None => {
                    collect_nested(c.name.as_str(), &c.nested, &mut found);
                },
            }
        } else {
            proof {
                assert(before + child_found(*c) =~= before);
            }
        }
        k += 1;
    }
    proof {
        assert(children@.take(children@.len() as int) =~= children@);
    }
    Ok(sort_by_name(found))
}

/// Only Node repositories get a start script: a directory of another ecosystem has no
/// regular `package.json`, so nothing is read from one (given a probe that reads a
/// `package.json` only where it is a regular file).
pub proof fn law_only_node_repositories_have_a_script(dir: DirProbe, display_name: Option<Seq<char>>)
    requires
        dir.package_json is Some ==> present(dir, "package.json"@),
    ensures
        ecosystem_of(dir) != Some(Ecosystem::Node) ==> (classified(dir, display_name) matches Some(r)
            ==> (r.detected_script is None && r.command == default_command_spec(
            r.package_manager,
            None,
        ))),
{
}

/// A directory that carries the Node marker is a Node repository, whatever other markers it
/// carries; its toolchain is a Node one.
pub proof fn law_node_marker_wins(dir: DirProbe)
    requires
        present(dir, "package.json"@),
    ensures
        ecosystem_of(dir) == Some(Ecosystem::Node),
        toolchain_of(dir, Ecosystem::Node) == PackageManager::Npm || toolchain_of(dir, Ecosystem::Node)
            == PackageManager::Pnpm || toolchain_of(dir, Ecosystem::Node) == PackageManager::Yarn
            || toolchain_of(dir, Ecosystem::Node) == PackageManager::Bun,
{
}

} // verus!
