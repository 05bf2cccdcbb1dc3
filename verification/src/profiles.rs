//! Launch profiles: named, ordered selections of repositories with a launch delay, and their
//! exchange between projects by repository name.
//!
//! Storing profiles, and reading and writing the exchange file as JSON, happen around the
//! library; this module validates names, shapes the results and plans an import.

use vstd::prelude::*;
use crate::commands::views;
use crate::error::AppError;
use crate::persistence::{ProfileRow, Repository};
use crate::text::{concat2, concat3, decimal, lemma_decimal_injective, str_eq, trim, trim_str, usize_to_string};

verus! {

/// A launch profile: a named, ordered selection of repositories and a launch delay.
#[derive(Debug)]
pub struct Profile {
    pub id: i64,
    pub name: String,
    pub launch_delay_ms: i64,
    pub repository_ids: Vec<i64>,
}

/// The exchange form of a profile: members are named, since ids mean nothing in another
/// database.
#[derive(Debug)]
pub struct ExportedProfile {
    pub name: String,
    pub launch_delay_ms: i64,
    /// Repository names, in launch order.
    pub members: Vec<String>,
}

/// What an import creates: the profile's final name, its delay and its matched members,
/// plus the member names that matched nothing in the project.
#[derive(Debug)]
pub struct ImportPlan {
    pub name: String,
    pub launch_delay_ms: i64,
    pub repository_ids: Vec<i64>,
    pub skipped_members: Vec<String>,
}

/// Result of an import: the new profile and the member names that were not found.
#[derive(Debug)]
pub struct ImportProfileResult {
    pub profile: Profile,
    pub skipped_members: Vec<String>,
}

/// Assembles a profile from its stored row and its member ids.
pub fn build_profile(row: ProfileRow, repository_ids: Vec<i64>) -> (r: Profile)
    ensures
        r.id == row.id,
        r.name == row.name,
        r.launch_delay_ms == row.launch_delay_ms,
        r.repository_ids@ == repository_ids@,
{
    Profile {
        id: row.id,
        name: row.name,
        launch_delay_ms: row.launch_delay_ms,
        repository_ids,
    }
}

/// Trims a profile name and requires it to be non-empty.
pub fn validate_profile_name(name: &str) -> (r: Result<String, AppError>)
    ensures
        trim(name@).len() > 0 ==> (r matches Ok(s) && s@ == trim(name@)),
        trim(name@).len() == 0 ==> (r matches Err(AppError::Persist(m)) && m@
            == "profile name is required"@),
{
    let trimmed = trim_str(name);
    if trimmed.unicode_len() == 0 {
        return Err(AppError::Persist(crate::text::owned("profile name is required")));
    }
    Ok(trimmed)
}

// ── Export ────────────────────────────────────────────────────────────────────

/// The names of the members that still exist, in order.
pub open spec fn present_names(found: Seq<Option<Repository>>) -> Seq<Seq<char>>
    decreases found.len(),
{
    if found.len() == 0 {
        Seq::empty()
    } else {
        match found.last() {
            Some(repo) => present_names(found.drop_last()).push(repo.name@),
            None => present_names(found.drop_last()),
        }
    }
}

/// The exchange form of a profile, given the lookup of each member id in order (`None` for
/// a member whose repository no longer exists, which is left out).
pub fn exported_profile(row: &ProfileRow, found: &[Option<Repository>]) -> (r: ExportedProfile)
    ensures
        r.name@ == row.name@,
        r.launch_delay_ms == row.launch_delay_ms,
        views(r.members@) == present_names(found@),
{
    let mut members: Vec<String> = Vec::new();
    let mut i: usize = 0;
    while i < found.len()
        invariant
            0 <= i <= found@.len(),
            views(members@) == present_names(found@.take(i as int)),
        decreases found.len() - i,
    {
        proof {
            assert(found@.take(i as int + 1).drop_last() =~= found@.take(i as int));
        }
        match &found[i] {
            Some(repo) => {
                members.push(repo.name.clone());
                proof {
                    assert(views(members@) =~= present_names(found@.take(i as int)).push(
                        repo.name@,
                    ));
                }
            },
            None => {},
        }
        i += 1;
    }
    proof {
        assert(found@.take(found@.len() as int) =~= found@);
    }
    ExportedProfile { name: row.name.clone(), launch_delay_ms: row.launch_delay_ms, members }
}

// ── Import ────────────────────────────────────────────────────────────────────

/// The id of the first repository from position `k` on named `name`.
pub open spec fn repo_id_named(repos: Seq<Repository>, name: Seq<char>, k: nat) -> Option<i64>
    decreases repos.len() - k,
{
    if k >= repos.len() {
        None
    } else if repos[k as int].name@ == name {
        Some(repos[k as int].id)
    } else {
        repo_id_named(repos, name, k + 1)
    }
}

/// The ids the members name, in member order; names that match nothing are left out.
pub open spec fn matched_ids(members: Seq<Seq<char>>, repos: Seq<Repository>) -> Seq<i64>
    decreases members.len(),
{
    if members.len() == 0 {
        Seq::empty()
    } else {
        match repo_id_named(repos, members.last(), 0) {
            Some(id) => matched_ids(members.drop_last(), repos).push(id),
            None => matched_ids(members.drop_last(), repos),
        }
    }
}

/// The member names that match no repository, in member order.
pub open spec fn skipped_names(members: Seq<Seq<char>>, repos: Seq<Repository>) -> Seq<
    Seq<char>,
>
    decreases members.len(),
{
    if members.len() == 0 {
        Seq::empty()
    } else {
        match repo_id_named(repos, members.last(), 0) {
            Some(_) => skipped_names(members.drop_last(), repos),
            None => skipped_names(members.drop_last(), repos).push(members.last()),
        }
    }
}

/// The `k`-th name tried for an imported profile: the name itself, then
/// `<name> (imported)`, then `<name> (imported 2)`, `<name> (imported 3)`, and so on.
pub open spec fn import_candidate(name: Seq<char>, k: nat) -> Seq<char> {
    if k == 0 {
        name
    } else if k == 1 {
        name + " (imported)"@
    } else {
        name + " (imported "@ + decimal(k) + ")"@
    }
}

/// `r` is the first candidate name that no existing profile has.
pub open spec fn is_import_name(r: Seq<char>, name: Seq<char>, existing: Seq<Seq<char>>) -> bool {
    exists|k: nat|
        #![trigger import_candidate(name, k)]
        r == import_candidate(name, k) && !existing.contains(r) && forall|j: nat|
            j < k ==> existing.contains(#[trigger] import_candidate(name, j))
}

/// The message for a profile file none of whose members exist in the project.
pub open spec fn foreign_profile_message(member_count: nat) -> Seq<char> {
    "none of this profile's "@ + decimal(member_count)
        + " service(s) were found in this project - it looks like it's from a different project"@
}

proof fn lemma_candidates_distinct(name: Seq<char>, i: nat, j: nat)
    requires
        i < j,
    ensures
        import_candidate(name, i) != import_candidate(name, j),
{
    let ci = import_candidate(name, i);
    let cj = import_candidate(name, j);
    let imported = " (imported)"@;
    let opened = " (imported "@;
    let closing = ")"@;
    assert(imported.len() == 11) by {
        reveal_strlit(" (imported)");
    }
    assert(opened.len() == 11) by {
        reveal_strlit(" (imported ");
    }
    assert(closing.len() == 1) by {
        reveal_strlit(")");
    }
    crate::text::lemma_decimal_nonempty(j);
    if j >= 2 {
        assert(cj.len() == name.len() + 11 + decimal(j).len() + 1);
    } else {
        assert(cj.len() == name.len() + 11);
    }
    if i == 0 {
        assert(ci.len() == name.len());
    } else if i == 1 {
        assert(ci.len() == name.len() + 11);
    }
    if i >= 2 && ci == cj {
        crate::text::lemma_decimal_nonempty(i);
        let di = decimal(i);
        let dj = decimal(j);
        assert(ci.len() == name.len() + 11 + di.len() + 1);
        assert(cj.len() == name.len() + 11 + dj.len() + 1);
        assert(di =~= ci.subrange(name.len() + 11int, ci.len() - 1));
        assert(dj =~= cj.subrange(name.len() + 11int, cj.len() - 1));
        lemma_decimal_injective(i, j);
    }
}

/// Whether `s` is one of `names`.
fn contains_name(names: &[String], s: &str) -> (r: bool)
    ensures
        r == views(names@).contains(s@),
{
    let mut k: usize = 0;
    while k < names.len()
        invariant
            0 <= k <= names@.len(),
            forall|q: int| 0 <= q < k ==> names@[q]@ != s@,
        decreases names.len() - k,
    {
        if str_eq(names[k].as_str(), s) {
            proof {
                assert(views(names@)[k as int] == s@);
            }
            return true;
        }
        k += 1;
    }
    proof {
        if views(names@).contains(s@) {
            let q = choose|q: int| 0 <= q < views(names@).len() && views(names@)[q] == s@;
            assert(names@[q]@ == s@);
        }
    }
    false
}

fn candidate_name(name: &str, k: usize) -> (r: String)
    ensures
        r@ == import_candidate(name@, k as nat),
{
    if k == 0 {
        crate::text::owned(name)
    } else if k == 1 {
        concat2(name, " (imported)")
    } else {
        let digits = usize_to_string(k);
        let head = concat3(name, " (imported ", digits.as_str());
        concat2(head.as_str(), ")")
    }
}

/// The name an imported profile gets: its own name when no profile of the project has it,
/// otherwise the first free `<name> (imported)`, `<name> (imported 2)`, ...
pub fn import_name(name: &str, existing: &[String]) -> (r: String)
    ensures
        is_import_name(r@, name@, views(existing@)),
{
    let ghost names = views(existing@);
    let ghost mut seen: Set<Seq<char>> = Set::empty();
    let mut k: usize = 0;
    let mut candidate = candidate_name(name, 0);
    proof {
        vstd::seq_lib::seq_to_set_is_finite(names);
        names.lemma_cardinality_of_set();
    }
    while contains_name(existing, candidate.as_str())
        invariant
            names == views(existing@),
            candidate@ == import_candidate(name@, k as nat),
            seen.finite(),
            seen.len() == k,
            seen.subset_of(names.to_set()),
            names.to_set().finite(),
            names.to_set().len() <= names.len(),
            names.len() == existing@.len(),
            existing@.len() == existing.len(),
            forall|s: Seq<char>|
                seen.contains(s) ==> exists|j: nat| j < k && s == import_candidate(name@, j),
            forall|j: nat| j < k ==> names.contains(#[trigger] import_candidate(name@, j)),
        decreases existing@.len() - k,
    {
        proof {
            assert(!seen.contains(candidate@)) by {
                if seen.contains(candidate@) {
                    let j = choose|j: nat| j < k && candidate@ == import_candidate(name@, j);
                    lemma_candidates_distinct(name@, j, k as nat);
                }
            }
            seen = seen.insert(candidate@);
            assert(names.to_set().contains(candidate@));
            vstd::set_lib::lemma_len_subset(seen, names.to_set());
            assert forall|s: Seq<char>| seen.contains(s) implies exists|j: nat|
                j < k + 1 && s == import_candidate(name@, j) by {
                if s == candidate@ {
                    assert(s == import_candidate(name@, k as nat));
                }
            }
        }
        k += 1;
        candidate = candidate_name(name, k);
    }
    proof {
        assert(candidate@ == import_candidate(name@, k as nat));
    }
    candidate
}

fn repo_id_by_name(repos: &[Repository], name: &str) -> (r: Option<i64>)
    ensures
        r == repo_id_named(repos@, name@, 0),
{
    let mut k: usize = 0;
    while k < repos.len()
        invariant
            0 <= k <= repos@.len(),
            repo_id_named(repos@, name@, 0) == repo_id_named(repos@, name@, k as nat),
        decreases repos.len() - k,
    {
        if str_eq(repos[k].name.as_str(), name) {
            return Some(repos[k].id);
        }
        k += 1;
    }
    None
}

/// Plans the import of a profile into a project: members are matched by name to the
/// project's repositories, in the file's order, and the unmatched names are reported. A file
/// with members none of which exist in the project is refused. The profile is named as
/// `import_name` says, given the names of the project's existing profiles.
pub fn plan_profile_import(
    imported: &ExportedProfile,
    repos: &[Repository],
    existing_names: &[String],
) -> (r: Result<ImportPlan, AppError>)
    ensures
        imported.members@.len() > 0 && matched_ids(views(imported.members@), repos@).len() == 0
            ==> (r matches Err(AppError::Persist(m)) && m@ == foreign_profile_message(
            imported.members@.len(),
        )),
        !(imported.members@.len() > 0 && matched_ids(views(imported.members@), repos@).len()
            == 0) ==> (r matches Ok(plan) && is_import_name(
            plan.name@,
            imported.name@,
            views(existing_names@),
        ) && plan.launch_delay_ms == imported.launch_delay_ms && plan.repository_ids@
            == matched_ids(views(imported.members@), repos@) && views(plan.skipped_members@)
            == skipped_names(views(imported.members@), repos@)),
{
    let ghost members = views(imported.members@);
    let mut ids: Vec<i64> = Vec::new();
    let mut skipped: Vec<String> = Vec::new();
    let mut i: usize = 0;
    while i < imported.members.len()
        invariant
            members == views(imported.members@),
            0 <= i <= members.len(),
            ids@ == matched_ids(members.take(i as int), repos@),
            views(skipped@) == skipped_names(members.take(i as int), repos@),
        decreases imported.members.len() - i,
    {
        let name = &imported.members[i];
        proof {
            assert(members.take(i as int + 1).drop_last() =~= members.take(i as int));
            assert(members.take(i as int + 1).last() == name@);
        }
        match repo_id_by_name(repos, name.as_str()) {
            Some(id) => {
                ids.push(id);
            },
            None => {
                skipped.push(name.clone());
                proof {
                    assert(views(skipped@) =~= skipped_names(members.take(i as int), repos@).push(
                        name@,
                    ));
                }
            },
        }
        i += 1;
    }
    proof {
        assert(members.take(members.len() as int) =~= members);
    }
    if imported.members.len() > 0 && ids.len() == 0 {
        let count = usize_to_string(imported.members.len());
        let message = concat3(
            "none of this profile's ",
            count.as_str(),
            " service(s) were found in this project - it looks like it's from a different project",
        );
        return Err(AppError::Persist(message));
    }
    let final_name = import_name(imported.name.as_str(), existing_names);
    Ok(
        ImportPlan {
            name: final_name,
            launch_delay_ms: imported.launch_delay_ms,
            repository_ids: ids,
            skipped_members: skipped,
        },
    )
}

// ── Laws ──────────────────────────────────────────────────────────────────────

/// Every member of an imported profile is either matched or reported as skipped.
pub proof fn law_import_accounts_for_every_member(members: Seq<Seq<char>>, repos: Seq<Repository>)
    ensures
        matched_ids(members, repos).len() + skipped_names(members, repos).len() == members.len(),
    decreases members.len(),
{
    if members.len() > 0 {
        law_import_accounts_for_every_member(members.drop_last(), repos);
    }
}

/// Importing into a project where every member's name exists skips nothing and matches each
/// member, in order, to the first repository of that name.
pub proof fn law_import_matches_names_in_order(members: Seq<Seq<char>>, repos: Seq<Repository>)
    requires
        forall|i: int| 0 <= i < members.len() ==> repo_id_named(repos, #[trigger] members[i], 0) is Some,
    ensures
        skipped_names(members, repos).len() == 0,
        matched_ids(members, repos).len() == members.len(),
        forall|i: int|
            0 <= i < members.len() ==> Some(#[trigger] matched_ids(members, repos)[i])
                == repo_id_named(repos, members[i], 0),
    decreases members.len(),
{
    if members.len() > 0 {
        let init = members.drop_last();
        assert forall|i: int| 0 <= i < init.len() implies repo_id_named(repos, #[trigger] init[i], 0) is Some by {
            assert(init[i] == members[i]);
        }
        law_import_matches_names_in_order(init, repos);
        assert(repo_id_named(repos, members[members.len() - 1], 0) is Some);
        assert forall|i: int| 0 <= i < members.len() implies Some(#[trigger] matched_ids(members, repos)[i])
            == repo_id_named(repos, members[i], 0) by {
            if i < members.len() - 1 {
                assert(members[i] == init[i]);
            }
        }
    }
}

/// An exported profile imported into a project whose repositories carry the same names
/// gets back every exported member, in the exported order, and skips none.
pub proof fn law_export_then_import_keeps_members(
    found: Seq<Option<Repository>>,
    target: Seq<Repository>,
)
    requires
        forall|i: int|
            0 <= i < present_names(found).len() ==> repo_id_named(
                target,
                #[trigger] present_names(found)[i],
                0,
            ) is Some,
    ensures
        skipped_names(present_names(found), target).len() == 0,
        matched_ids(present_names(found), target).len() == present_names(found).len(),
{
    law_import_matches_names_in_order(present_names(found), target);
}

/// The name an import gets is never taken, and it is the profile's own name when that is
/// free.
pub proof fn law_import_name_is_free(r: Seq<char>, name: Seq<char>, existing: Seq<Seq<char>>)
    requires
        is_import_name(r, name, existing),
    ensures
        !existing.contains(r),
        !existing.contains(name) ==> r == name,
{
    let k = choose|k: nat|
        #![trigger import_candidate(name, k)]
        r == import_candidate(name, k) && !existing.contains(r) && forall|j: nat|
            j < k ==> existing.contains(#[trigger] import_candidate(name, j));
    if !existing.contains(name) && k > 0 {
        assert(existing.contains(import_candidate(name, 0)));
    }
}

/// Importing the same profile twice gives two different names.
pub proof fn law_reimport_gets_another_name(
    first: Seq<char>,
    second: Seq<char>,
    name: Seq<char>,
    existing: Seq<Seq<char>>,
)
    requires
        is_import_name(first, name, existing),
        is_import_name(second, name, existing.push(first)),
    ensures
        first != second,
{
    law_import_name_is_free(second, name, existing.push(first));
    assert(existing.push(first).contains(first)) by {
        assert(existing.push(first)[existing.len() as int] == first);
    }
}

} // verus!
