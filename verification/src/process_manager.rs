//! Process tracking for launched repositories.
//!
//! Spawning, output streaming and killing whole process trees happen around the library;
//! `ProcessTable` holds the state they report to and decides what each request and each
//! process exit does: a repository cannot be started twice, only a running one can be
//! stopped, an exit after a user stop is `Stopped` rather than `Crashed`, and an exit
//! reported for an older spawn never overwrites a newer one.

use vstd::prelude::*;
use crate::text::owned;

verus! {

/// Live process status.
#[derive(Clone, Copy, PartialEq, Eq, Debug, Structural)]
pub enum ProcStatus {
    Starting,
    Running,
    Stopped,
    Crashed,
}

/// A repository's process status, as reported to the interface.
#[derive(Clone, Copy, Debug)]
pub struct StatusUpdate {
    pub repository_id: i64,
    pub status: ProcStatus,
    pub pid: Option<u32>,
    pub exit_code: Option<i32>,
    pub restart_count: u32,
}

/// What to run for a repository.
#[derive(Debug)]
pub struct LaunchSpec {
    pub program: String,
    pub args: Vec<String>,
    pub cwd: String,
    /// Extra environment variables (from the repository's env file).
    pub env: Vec<(String, String)>,
    /// When true, the process runs in a visible console window with inherited standard
    /// streams instead of a hidden window with captured output.
    pub visible: bool,
}

/// The contents of a launch spec.
pub struct LaunchSpecView {
    pub program: Seq<char>,
    pub args: Seq<Seq<char>>,
    pub cwd: Seq<char>,
    pub env: Seq<(Seq<char>, Seq<char>)>,
    pub visible: bool,
}

impl View for LaunchSpec {
    type V = LaunchSpecView;

    open spec fn view(&self) -> LaunchSpecView {
        LaunchSpecView {
            program: self.program@,
            args: self.args@.map_values(|s: String| s@),
            cwd: self.cwd@,
            env: self.env@.map_values(|p: (String, String)| (p.0@, p.1@)),
            visible: self.visible,
        }
    }
}

impl LaunchSpec {
    /// A copy with the same contents.
    pub fn copy(&self) -> (r: LaunchSpec)
        ensures
            r@ == self@,
    {
        let mut args: Vec<String> = Vec::new();
        let mut i: usize = 0;
        while i < self.args.len()
            invariant
                0 <= i <= self.args@.len(),
                args@.len() == i,
                forall|j: int| 0 <= j < i ==> args@[j] == self.args@[j],
            decreases self.args.len() - i,
        {
            args.push(self.args[i].clone());
            i += 1;
        }
        let mut env: Vec<(String, String)> = Vec::new();
        let mut k: usize = 0;
        while k < self.env.len()
            invariant
                0 <= k <= self.env@.len(),
                env@.len() == k,
                forall|j: int| 0 <= j < k ==> env@[j] == self.env@[j],
            decreases self.env.len() - k,
        {
            let key = self.env[k].0.clone();
            let value = self.env[k].1.clone();
            env.push((key, value));
            k += 1;
        }
        proof {
            assert(args@ =~= self.args@);
            assert(env@ =~= self.env@);
        }
        LaunchSpec {
            program: self.program.clone(),
            args,
            cwd: self.cwd.clone(),
            env,
            visible: self.visible,
        }
    }
}

/// The state kept for one repository's most recent process.
#[derive(Debug)]
pub struct TrackedProcess {
    pub repository_id: i64,
    pub status: ProcStatus,
    pub pid: Option<u32>,
    pub exit_code: Option<i32>,
    pub restart_count: u32,
    /// Bumped on every spawn, so that an exit reported for an older process is ignored.
    pub generation: u64,
    /// Set by a user-initiated stop, so that the exit is recorded as `Stopped`.
    pub stopping: bool,
    pub spec: LaunchSpec,
    /// The launch-history item this process's exit is mirrored into, if any.
    pub history_item_id: Option<i64>,
    /// The operating-system handle of the process tree's kill group (0 when none).
    pub job: isize,
}

/// Running or starting.
pub open spec fn is_live(s: ProcStatus) -> bool {
    s == ProcStatus::Running || s == ProcStatus::Starting
}

/// The entry tracked for `id` in `entries`, if any.
pub open spec fn lookup(entries: Seq<TrackedProcess>, id: i64) -> Option<TrackedProcess> {
    if exists|k: int| 0 <= k < entries.len() && entries[k].repository_id == id {
        Some(
            entries[choose|k: int| 0 <= k < entries.len() && entries[k].repository_id == id],
        )
    } else {
        None
    }
}

/// At most one entry per repository.
pub open spec fn keys_unique(entries: Seq<TrackedProcess>) -> bool {
    forall|a: int, b: int|
        0 <= a < entries.len() && 0 <= b < entries.len() && a != b ==> entries[a].repository_id
            != entries[b].repository_id
}

proof fn lemma_lookup_at(entries: Seq<TrackedProcess>, k: int)
    requires
        keys_unique(entries),
        0 <= k < entries.len(),
    ensures
        lookup(entries, entries[k].repository_id) == Some(entries[k]),
{
    let id = entries[k].repository_id;
    let c = choose|c: int| 0 <= c < entries.len() && entries[c].repository_id == id;
    assert(c == k);
}

proof fn lemma_update_frame(entries: Seq<TrackedProcess>, k: int, e: TrackedProcess)
    requires
        keys_unique(entries),
        0 <= k < entries.len(),
        e.repository_id == entries[k].repository_id,
    ensures
        keys_unique(entries.update(k, e)),
        lookup(entries.update(k, e), e.repository_id) == Some(e),
        forall|other: i64|
            other != e.repository_id ==> lookup(entries.update(k, e), other) == lookup(
                entries,
                other,
            ),
{
    let new_entries = entries.update(k, e);
    assert(keys_unique(new_entries));
    lemma_lookup_at(new_entries, k);
    assert forall|other: i64| other != e.repository_id implies lookup(new_entries, other)
        == lookup(entries, other) by {
        if exists|q: int| 0 <= q < entries.len() && entries[q].repository_id == other {
            let q = choose|q: int| 0 <= q < entries.len() && entries[q].repository_id == other;
            lemma_lookup_at(entries, q);
            lemma_lookup_at(new_entries, q);
        } else {
            assert(!exists|q: int|
                0 <= q < new_entries.len() && new_entries[q].repository_id == other);
        }
    }
}

proof fn lemma_push_frame(entries: Seq<TrackedProcess>, e: TrackedProcess)
    requires
        keys_unique(entries),
        lookup(entries, e.repository_id) is None,
    ensures
        keys_unique(entries.push(e)),
        lookup(entries.push(e), e.repository_id) == Some(e),
        forall|other: i64|
            other != e.repository_id ==> lookup(entries.push(e), other) == lookup(entries, other),
{
    let new_entries = entries.push(e);
    assert forall|q: int| 0 <= q < entries.len() implies entries[q].repository_id
        != e.repository_id by {
        if entries[q].repository_id == e.repository_id {
            assert(lookup(entries, e.repository_id) is Some);
        }
    }
    assert(keys_unique(new_entries));
    lemma_lookup_at(new_entries, entries.len() as int);
    assert forall|other: i64| other != e.repository_id implies lookup(new_entries, other)
        == lookup(entries, other) by {
        if exists|q: int| 0 <= q < entries.len() && entries[q].repository_id == other {
            let q = choose|q: int| 0 <= q < entries.len() && entries[q].repository_id == other;
            lemma_lookup_at(entries, q);
            lemma_lookup_at(new_entries, q);
        } else {
            assert(!exists|q: int|
                0 <= q < new_entries.len() && new_entries[q].repository_id == other);
        }
    }
}

/// The update reported for a tracked entry.
pub open spec fn update_of(t: TrackedProcess) -> StatusUpdate {
    StatusUpdate {
        repository_id: t.repository_id,
        status: t.status,
        pid: t.pid,
        exit_code: t.exit_code,
        restart_count: t.restart_count,
    }
}

/// The entry tracked for a freshly spawned process.
pub open spec fn spawned_entry(
    id: i64,
    pid: Option<u32>,
    restart_count: u32,
    generation: u64,
    spec: LaunchSpec,
    history_item_id: Option<i64>,
    job: isize,
) -> TrackedProcess {
    TrackedProcess {
        repository_id: id,
        status: ProcStatus::Running,
        pid,
        exit_code: None,
        restart_count,
        generation,
        stopping: false,
        spec,
        history_item_id,
        job,
    }
}

/// The entry after its process exited: `Stopped` after a user stop, otherwise `Crashed`;
/// the exit code is recorded and the kill group is released.
pub open spec fn exited_entry(t: TrackedProcess, code: Option<i32>) -> TrackedProcess {
    TrackedProcess {
        status: if t.stopping {
            ProcStatus::Stopped
        } else {
            ProcStatus::Crashed
        },
        exit_code: code,
        job: 0,
        ..t
    }
}

/// The entry once a stop was requested.
pub open spec fn stopping_entry(t: TrackedProcess) -> TrackedProcess {
    TrackedProcess { stopping: true, ..t }
}

/// Every tracked process, keyed by repository id.
pub struct ProcessTable {
    entries: Vec<TrackedProcess>,
    generation: u64,
}

/// The message for starting a repository that is already running.
pub open spec fn already_running_message() -> Seq<char> {
    "repository is already running"@
}

/// The message for acting on a repository that is not running.
pub open spec fn not_running_message() -> Seq<char> {
    "repository is not running"@
}

impl ProcessTable {
    /// The entry tracked for repository `id`, if any.
    pub closed spec fn entry(&self, id: i64) -> Option<TrackedProcess> {
        lookup(self.entries@, id)
    }

    /// Some tracked process has kill group `job`.
    pub open spec fn tracks_job(&self, job: isize) -> bool {
        exists|id: i64| #[trigger] self.entry(id) matches Some(t) && t.job == job
    }

    /// The last generation number handed out.
    pub closed spec fn last_generation(&self) -> u64 {
        self.generation
    }

    pub closed spec fn well_formed(&self) -> bool {
        keys_unique(self.entries@)
    }

    /// An empty table.
    pub fn new() -> (r: Self)
        ensures
            r.well_formed(),
            r.last_generation() == 0,
            forall|id: i64| r.entry(id) is None,
    {
        ProcessTable { entries: Vec::new(), generation: 0 }
    }

    fn index_of(&self, id: i64) -> (r: Option<usize>)
        requires
            self.well_formed(),
        ensures
            match r {
                Some(k) => k < self.entries@.len() && self.entries@[k as int].repository_id == id
                    && self.entry(id) == Some(self.entries@[k as int]),
                None => self.entry(id) is None,
            },
    {
        let mut k: usize = 0;
        while k < self.entries.len()
            invariant
                0 <= k <= self.entries@.len(),
                keys_unique(self.entries@),
                forall|q: int| 0 <= q < k ==> self.entries@[q].repository_id != id,
            decreases self.entries.len() - k,
        {
            if self.entries[k].repository_id == id {
                proof {
                    lemma_lookup_at(self.entries@, k as int);
                }
                return Some(k);
            }
            k += 1;
        }
        None
    }

    /// Whether repository `id` is running or starting, per the live tracker.
    pub fn is_running(&self, id: i64) -> (r: bool)
        requires
            self.well_formed(),
        ensures
            r == (self.entry(id) matches Some(t) && is_live(t.status)),
    {
        match self.index_of(id) {
            Some(k) => {
                let s = self.entries[k].status;
                s == ProcStatus::Running || s == ProcStatus::Starting
            },
            None => false,
        }
    }

    /// Decides whether repository `id` may be started: it may not while running or starting.
    /// Otherwise returns the restart count its new process carries over (0 for a repository
    /// never started).
    pub fn check_start(&self, id: i64) -> (r: Result<u32, String>)
        requires
            self.well_formed(),
        ensures
            match self.entry(id) {
                Some(t) => if is_live(t.status) {
                    r matches Err(m) && m@ == already_running_message()
                } else {
                    r == Ok::<u32, String>(t.restart_count)
                },
                None => r == Ok::<u32, String>(0),
            },
    {
        match self.index_of(id) {
            Some(k) => {
                let s = self.entries[k].status;
                if s == ProcStatus::Running || s == ProcStatus::Starting {
                    Err(owned("repository is already running"))
                } else {
                    Ok(self.entries[k].restart_count)
                }
            },
            None => Ok(0),
        }
    }

    /// Hands out the next generation number for a spawn.
    pub fn next_generation(&mut self) -> (r: u64)
        requires
            old(self).well_formed(),
        ensures
            final(self).well_formed(),
            r == old(self).last_generation().wrapping_add(1),
            final(self).last_generation() == r,
            forall|id: i64| final(self).entry(id) == old(self).entry(id),
    {
        self.generation = self.generation.wrapping_add(1);
        self.generation
    }

    /// Records a freshly spawned process for repository `id` (replacing whatever was tracked
    /// for it) and returns the `Running` update to report.
    pub fn record_spawn(
        &mut self,
        id: i64,
        pid: Option<u32>,
        restart_count: u32,
        generation: u64,
        spec: LaunchSpec,
        history_item_id: Option<i64>,
        job: isize,
    ) -> (r: StatusUpdate)
        requires
            old(self).well_formed(),
        ensures
            final(self).well_formed(),
            final(self).last_generation() == old(self).last_generation(),
            final(self).entry(id) == Some(
                spawned_entry(id, pid, restart_count, generation, spec, history_item_id, job),
            ),
            forall|other: i64| other != id ==> final(self).entry(other) == old(self).entry(other),
            r == update_of(
                spawned_entry(id, pid, restart_count, generation, spec, history_item_id, job),
            ),
    {
        let ghost e = spawned_entry(id, pid, restart_count, generation, spec, history_item_id, job);
        let entry = TrackedProcess {
            repository_id: id,
            status: ProcStatus::Running,
            pid,
            exit_code: None,
            restart_count,
            generation,
            stopping: false,
            spec,
            history_item_id,
            job,
        };
        let ghost old_entries = self.entries@;
        match self.index_of(id) {
            Some(k) => {
                self.entries.set(k, entry);
                proof {
                    lemma_update_frame(old_entries, k as int, e);
                }
            },
            None => {
                self.entries.push(entry);
                proof {
                    lemma_push_frame(old_entries, e);
                }
            },
        }
        StatusUpdate {
            repository_id: id,
            status: ProcStatus::Running,
            pid,
            exit_code: None,
            restart_count,
        }
    }

    /// A user stop of repository `id`: only a running (or starting) repository can be
    /// stopped. Marks it as stopping and returns the kill group to terminate.
    pub fn begin_stop(&mut self, id: i64) -> (r: Result<isize, String>)
        requires
            old(self).well_formed(),
        ensures
            final(self).well_formed(),
            final(self).last_generation() == old(self).last_generation(),
            match old(self).entry(id) {
                Some(t) => if is_live(t.status) {
                    r == Ok::<isize, String>(t.job) && final(self).entry(id) == Some(
                        stopping_entry(t),
                    )
                } else {
                    (r matches Err(m) && m@ == not_running_message()) && final(self).entry(id)
                        == old(self).entry(id)
                },
                None => (r matches Err(m) && m@ == not_running_message()) && final(self).entry(
                    id,
                ) == old(self).entry(id),
            },
            forall|other: i64| other != id ==> final(self).entry(other) == old(self).entry(other),
    {
        match self.index_of(id) {
            Some(k) => {
                let s = self.entries[k].status;
                if s == ProcStatus::Running || s == ProcStatus::Starting {
                    let job = self.entries[k].job;
                    let ghost before = self.entries@;
                    let t = self.take_at(k);
                    let updated = TrackedProcess { stopping: true, ..t };
                    self.put_back(k, updated);
                    proof {
                        assert(self.entries@ =~= before.update(k as int, updated));
                        lemma_update_frame(before, k as int, updated);
                    }
                    Ok(job)
                } else {
                    Err(owned("repository is not running"))
                }
            },
            None => Err(owned("repository is not running")),
        }
    }

    /// Removes the entry at `k`, leaving a gap that `put_back` fills.
    fn take_at(&mut self, k: usize) -> (t: TrackedProcess)
        requires
            k < old(self).entries@.len(),
        ensures
            t == old(self).entries@[k as int],
            final(self).entries@ == old(self).entries@.remove(k as int),
            final(self).generation == old(self).generation,
    {
        self.entries.remove(k)
    }

    fn put_back(&mut self, k: usize, t: TrackedProcess)
        requires
            k <= old(self).entries@.len(),
        ensures
            final(self).entries@ == old(self).entries@.insert(k as int, t),
            final(self).generation == old(self).generation,
    {
        self.entries.insert(k, t);
    }

    /// The spec of repository `id`'s tracked process, for a restart; only a tracked
    /// repository can be restarted.
    pub fn restart_spec(&self, id: i64) -> (r: Result<LaunchSpec, String>)
        requires
            self.well_formed(),
        ensures
            match self.entry(id) {
                Some(t) => r matches Ok(s) && s@ == t.spec@,
                None => r matches Err(m) && m@ == not_running_message(),
            },
    {
        match self.index_of(id) {
            Some(k) => Ok(self.entries[k].spec.copy()),
            None => Err(owned("repository is not running")),
        }
    }

    /// The restart count a restarted process carries: the tracked count plus one
    /// (wrapping like unsigned release arithmetic), or 1 when nothing is tracked.
    pub fn restart_count_after(&self, id: i64) -> (r: u32)
        requires
            self.well_formed(),
        ensures
            r == (match self.entry(id) {
                Some(t) => t.restart_count,
                None => 0u32,
            }).wrapping_add(1),
    {
        let c = match self.index_of(id) {
            Some(k) => self.entries[k].restart_count,
            None => 0,
        };
        c.wrapping_add(1)
    }

    /// A process exit reported by the watcher of spawn `generation`. When that spawn is still
    /// the one tracked, records its terminal status (`Stopped` after a user stop, otherwise
    /// `Crashed`) and returns the update to report, whether it was stopping, and the kill group
    /// to release. An exit from an older spawn changes nothing.
    pub fn record_exit(&mut self, id: i64, generation: u64, code: Option<i32>) -> (r: Option<
        (StatusUpdate, bool, isize),
    >)
        requires
            old(self).well_formed(),
        ensures
            final(self).well_formed(),
            final(self).last_generation() == old(self).last_generation(),
            forall|other: i64| other != id ==> final(self).entry(other) == old(self).entry(other),
            match old(self).entry(id) {
                Some(t) => if t.generation == generation {
                    final(self).entry(id) == Some(exited_entry(t, code)) && r == Some(
                        (update_of(exited_entry(t, code)), t.stopping, t.job),
                    )
                } else {
                    final(self).entry(id) == old(self).entry(id) && r is None
                },
                None => final(self).entry(id) is None && r is None,
            },
    {
        match self.index_of(id) {
            Some(k) => {
                if self.entries[k].generation != generation {
                    return None;
                }
                let ghost t0 = self.entries@[k as int];
                let t = self.take_at(k);
                let was_stopping = t.stopping;
                let job = t.job;
                let status = if was_stopping {
                    ProcStatus::Stopped
                } else {
                    ProcStatus::Crashed
                };
                let update = StatusUpdate {
                    repository_id: t.repository_id,
                    status,
                    pid: t.pid,
                    exit_code: code,
                    restart_count: t.restart_count,
                };
                let updated = TrackedProcess { status, exit_code: code, job: 0, ..t };
                self.put_back(k, updated);
                proof {
                    assert(updated == exited_entry(t0, code));
                    assert(self.entries@ =~= old(self).entries@.update(k as int, updated));
                    lemma_update_frame(old(self).entries@, k as int, updated);
                }
                Some((update, was_stopping, job))
            },
            None => None,
        }
    }

    /// App-quit cleanup: marks every tracked process as stopping and returns every kill
    /// group to terminate.
    pub fn stop_all_for_exit(&mut self) -> (r: Vec<isize>)
        requires
            old(self).well_formed(),
        ensures
            final(self).well_formed(),
            final(self).last_generation() == old(self).last_generation(),
            forall|id: i64|
                #![trigger final(self).entry(id)]
                match old(self).entry(id) {
                    Some(t) => final(self).entry(id) == Some(stopping_entry(t)) && r@.contains(
                        t.job,
                    ),
                    None => final(self).entry(id) is None,
                },
            forall|k: int| 0 <= k < r@.len() ==> old(self).tracks_job(#[trigger] r@[k]),
    {
        let mut jobs: Vec<isize> = Vec::new();
        let mut k: usize = 0;
        let ghost old_entries = self.entries@;
        while k < self.entries.len()
            invariant
                0 <= k <= self.entries@.len(),
                self.entries@.len() == old_entries.len(),
                keys_unique(old_entries),
                self.generation == old(self).generation,
                old_entries == old(self).entries@,
                jobs@.len() == k,
                forall|q: int|
                    #![trigger self.entries@[q]]
                    0 <= q < k ==> self.entries@[q] == stopping_entry(old_entries[q])
                        && jobs@[q] == old_entries[q].job,
                forall|q: int|
                    #![trigger self.entries@[q]]
                    k <= q < self.entries@.len() ==> self.entries@[q] == old_entries[q],
            decreases self.entries.len() - k,
        {
            let ghost before = self.entries@;
            let t = self.take_at(k);
            jobs.push(t.job);
            let updated = TrackedProcess { stopping: true, ..t };
            self.put_back(k, updated);
            proof {
                assert(self.entries@ =~= before.update(k as int, updated));
            }
            k += 1;
        }
        proof {
            let new_entries = self.entries@;
            assert forall|a: int, b: int|
                0 <= a < new_entries.len() && 0 <= b < new_entries.len() && a != b implies new_entries[a].repository_id
                    != new_entries[b].repository_id by {
                assert(new_entries[a] == stopping_entry(old_entries[a]));
                assert(new_entries[b] == stopping_entry(old_entries[b]));
            }
            assert forall|id: i64|
                #![trigger lookup(new_entries, id)]
                match lookup(old_entries, id) {
                    Some(t) => lookup(new_entries, id) == Some(stopping_entry(t)) && jobs@.contains(
                        t.job,
                    ),
                    None => lookup(new_entries, id) is None,
                } by {
                if exists|q: int| 0 <= q < old_entries.len() && old_entries[q].repository_id == id {
                    let q = choose|q: int|
                        0 <= q < old_entries.len() && old_entries[q].repository_id == id;
                    lemma_lookup_at(old_entries, q);
                    assert(new_entries[q] == stopping_entry(old_entries[q]));
                    lemma_lookup_at(new_entries, q);
                    assert(jobs@[q] == old_entries[q].job);
                } else {
                    assert forall|q: int| 0 <= q < new_entries.len() implies new_entries[q].repository_id != id by {
                        assert(new_entries[q] == stopping_entry(old_entries[q]));
                    }
                }
            }
            assert forall|k: int| 0 <= k < jobs@.len() implies old(self).tracks_job(#[trigger] jobs@[k]) by {
                assert(new_entries[k] == stopping_entry(old_entries[k]));
                assert(jobs@[k] == old_entries[k].job);
                lemma_lookup_at(old_entries, k);
                assert(old(self).entry(old_entries[k].repository_id) matches Some(t) && t.job
                    == jobs@[k]);
            }
        }
        jobs
    }
}

/// An exit after a user stop is recorded as `Stopped`, with the exit code reported.
pub proof fn law_stop_then_exit_is_stopped(t: TrackedProcess, code: Option<i32>)
    ensures
        exited_entry(stopping_entry(t), code).status == ProcStatus::Stopped,
        exited_entry(stopping_entry(t), code).exit_code == code,
{
}

/// An exit nobody asked for, of a freshly spawned process, is recorded as `Crashed`.
pub proof fn law_unrequested_exit_is_crashed(
    id: i64,
    pid: Option<u32>,
    restart_count: u32,
    generation: u64,
    spec: LaunchSpec,
    history_item_id: Option<i64>,
    job: isize,
    code: Option<i32>,
)
    ensures
        exited_entry(
            spawned_entry(id, pid, restart_count, generation, spec, history_item_id, job),
            code,
        ).status == ProcStatus::Crashed,
{
}

/// Once its process has exited a repository is no longer live, so it may be started again,
/// and its restart count carries over.
pub proof fn law_exit_allows_start(t: TrackedProcess, code: Option<i32>)
    ensures
        !is_live(exited_entry(t, code).status),
        exited_entry(t, code).restart_count == t.restart_count,
        exited_entry(t, code).repository_id == t.repository_id,
{
}

/// A freshly spawned process is live, so a second start is refused until it exits.
pub proof fn law_spawned_is_live(
    id: i64,
    pid: Option<u32>,
    restart_count: u32,
    generation: u64,
    spec: LaunchSpec,
    history_item_id: Option<i64>,
    job: isize,
)
    ensures
        is_live(spawned_entry(id, pid, restart_count, generation, spec, history_item_id, job).status),
{
}

/// The status mirrored into launch history when a process exits: `stopped` after a user
/// stop, `crashed` otherwise.
pub fn exit_history_status(was_stopping: bool) -> (r: &'static str)
    ensures
        r@ == (if was_stopping {
            "stopped"@
        } else {
            "crashed"@
        }),
{
    if was_stopping {
        "stopped"
    } else {
        "crashed"
    }
}

} // verus!
