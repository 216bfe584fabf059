//! The command layer's decisions: which repositories each command works on
//! and what it asks of them.
//!
//! Commands compose the other modules. The parts that touch the world —
//! reading the lockfile from disk, spawning workers, running the external
//! tool — live outside the library and hand in plain values: the declared
//! repositories and, for each, whether it currently exists on disk.

use vstd::prelude::*;
use vstd::string::StringExecFns;

use crate::lockfile::views_of;
use crate::repository::RepoView;
use crate::repository::Repository;
use crate::repository::joined_path;

verus! {

/// The declared repositories that exist on disk, in order.
pub open spec fn existing_views(vs: Seq<RepoView>, ex: Seq<bool>) -> Seq<RepoView>
    decreases vs.len(),
{
    if vs.len() == 0 || ex.len() == 0 {
        Seq::empty()
    } else {
        let rest = existing_views(vs.drop_first(), ex.drop_first());
        if ex[0] {
            seq![vs[0]] + rest
        } else {
            rest
        }
    }
}

/// The declared repositories missing from disk, in order.
pub open spec fn missing_views(vs: Seq<RepoView>, ex: Seq<bool>) -> Seq<RepoView>
    decreases vs.len(),
{
    if vs.len() == 0 || ex.len() == 0 {
        Seq::empty()
    } else {
        let rest = missing_views(vs.drop_first(), ex.drop_first());
        if ex[0] {
            rest
        } else {
            seq![vs[0]] + rest
        }
    }
}

/// Select the declared repositories by their existence flag. `keep_existing`
/// picks those that exist (fetch, pull, run, list work on these); otherwise
/// those that are missing (update clones these and leaves the rest alone).
pub fn select_repositories(repos: &Vec<Repository>, exists: &Vec<bool>, keep_existing: bool) -> (r:
    Vec<Repository>)
    requires
        repos@.len() == exists@.len(),
    ensures
        keep_existing ==> views_of(r@) == existing_views(views_of(repos@), exists@),
        !keep_existing ==> views_of(r@) == missing_views(views_of(repos@), exists@),
{
    let ghost all_vs = views_of(repos@);
    let ghost all_ex = exists@;
    let mut out: Vec<Repository> = Vec::new();
    let mut i: usize = 0;
    proof {
        assert(all_vs.subrange(0, all_vs.len() as int) =~= all_vs);
        assert(all_ex.subrange(0, all_ex.len() as int) =~= all_ex);
        assert(views_of(out@) =~= Seq::<RepoView>::empty());
        assert(views_of(out@) + existing_views(all_vs, all_ex) =~= existing_views(all_vs, all_ex));
        assert(views_of(out@) + missing_views(all_vs, all_ex) =~= missing_views(all_vs, all_ex));
    }
    while i < repos.len()
        invariant
            i <= repos@.len(),
            repos@.len() == exists@.len(),
            all_vs == views_of(repos@),
            all_ex == exists@,
            keep_existing ==> existing_views(all_vs, all_ex) == views_of(out@) + existing_views(
                all_vs.subrange(i as int, all_vs.len() as int),
                all_ex.subrange(i as int, all_ex.len() as int),
            ),
            !keep_existing ==> missing_views(all_vs, all_ex) == views_of(out@) + missing_views(
                all_vs.subrange(i as int, all_vs.len() as int),
                all_ex.subrange(i as int, all_ex.len() as int),
            ),
        decreases repos@.len() - i,
    {
        let ghost rem_vs = all_vs.subrange(i as int, all_vs.len() as int);
        let ghost rem_ex = all_ex.subrange(i as int, all_ex.len() as int);
        let ghost out_before = out@;
        proof {
            assert(rem_vs[0] == all_vs[i as int]);
            assert(rem_ex[0] == all_ex[i as int]);
            assert(rem_vs.drop_first() =~= all_vs.subrange(i + 1, all_vs.len() as int));
            assert(rem_ex.drop_first() =~= all_ex.subrange(i + 1, all_ex.len() as int));
        }
        if exists[i] == keep_existing {
            let c = repos[i].clone();
            out.push(c);
            proof {
                assert(views_of(out@) =~= views_of(out_before).push(all_vs[i as int]));
                if keep_existing {
                    assert(views_of(out_before) + (seq![rem_vs[0]] + existing_views(
                        rem_vs.drop_first(),
                        rem_ex.drop_first(),
                    )) =~= views_of(out@) + existing_views(
                        rem_vs.drop_first(),
                        rem_ex.drop_first(),
                    ));
                } else {
                    assert(views_of(out_before) + (seq![rem_vs[0]] + missing_views(
                        rem_vs.drop_first(),
                        rem_ex.drop_first(),
                    )) =~= views_of(out@) + missing_views(
                        rem_vs.drop_first(),
                        rem_ex.drop_first(),
                    ));
                }
            }
        }
        i = i + 1;
    }
    proof {
        assert(all_vs.subrange(all_vs.len() as int, all_vs.len() as int) =~= Seq::<
            RepoView,
        >::empty());
        assert(all_ex.subrange(all_ex.len() as int, all_ex.len() as int) =~= Seq::<bool>::empty());
        assert(views_of(out@) + Seq::<RepoView>::empty() =~= views_of(out@));
    }
    out
}

/// What `list` prints for one repository: its short name, or, with the
/// `full` flag, its absolute path under the workspace.
pub open spec fn list_line(v: RepoView, full: bool, workspace: Seq<char>) -> Seq<char> {
    if full {
        joined_path(workspace, v.path)
    } else {
        v.name
    }
}

/// The lines `list` prints: one per declared repository that exists on
/// disk, in lockfile order.
pub open spec fn list_lines_spec(vs: Seq<RepoView>, full: bool, workspace: Seq<char>) -> Seq<
    Seq<char>,
>
    decreases vs.len(),
{
    if vs.len() == 0 {
        Seq::empty()
    } else {
        seq![list_line(vs[0], full, workspace)] + list_lines_spec(
            vs.drop_first(),
            full,
            workspace,
        )
    }
}

/// Render the `list` command's output lines for the existing repositories.
pub fn list_lines(existing: &Vec<Repository>, full: bool, workspace: &str) -> (lines: Vec<String>)
    ensures
        crate::archive::strs(lines@) == list_lines_spec(views_of(existing@), full, workspace@),
{
    let ghost all = views_of(existing@);
    let mut lines: Vec<String> = Vec::new();
    let mut i: usize = 0;
    proof {
        assert(all.subrange(0, all.len() as int) =~= all);
        assert(crate::archive::strs(lines@) =~= Seq::<Seq<char>>::empty());
        assert(crate::archive::strs(lines@) + list_lines_spec(all, full, workspace@)
            =~= list_lines_spec(all, full, workspace@));
    }
    while i < existing.len()
        invariant
            i <= existing@.len(),
            all == views_of(existing@),
            list_lines_spec(all, full, workspace@) == crate::archive::strs(lines@)
                + list_lines_spec(
                all.subrange(i as int, all.len() as int),
                full,
                workspace@,
            ),
        decreases existing@.len() - i,
    {
        let ghost rem = all.subrange(i as int, all.len() as int);
        let ghost before = lines@;
        proof {
            assert(rem[0] == all[i as int]);
            assert(rem.drop_first() =~= all.subrange(i + 1, all.len() as int));
        }
        let line = if full {
            let mut p = String::new();
            p.append(workspace);
            p.append("/");
            p.append(existing[i].full_path.as_str());
            proof {
                reveal_strlit("/");
                assert("/"@ =~= seq!['/']);
                assert(p@ =~= list_line(all[i as int], full, workspace@));
            }
            p
        } else {
            let n = existing[i].name.clone();
            n
        };
        lines.push(line);
        proof {
            assert(crate::archive::strs(lines@) =~= crate::archive::strs(before).push(
                list_line(all[i as int], full, workspace@),
            ));
            assert(crate::archive::strs(before) + (seq![list_line(all[i as int], full, workspace@)]
                + list_lines_spec(rem.drop_first(), full, workspace@)) =~= crate::archive::strs(
                lines@,
            ) + list_lines_spec(rem.drop_first(), full, workspace@));
        }
        i = i + 1;
    }
    proof {
        assert(all.subrange(all.len() as int, all.len() as int) =~= Seq::<RepoView>::empty());
        assert(crate::archive::strs(lines@) + Seq::<Seq<char>>::empty() =~= crate::archive::strs(
            lines@,
        ));
    }
    lines
}

/// The argument list of the external tool's fetch operation, as the `fetch`
/// command runs it in every existing repository: fetch all remotes, prune
/// stale ones, recurse into submodules on demand, and report progress.
pub fn fetch(repos: &Vec<Repository>, exists: &Vec<bool>) -> (r: (Vec<Repository>, Vec<String>))
    requires
        repos@.len() == exists@.len(),
    ensures
        views_of(r.0@) == existing_views(views_of(repos@), exists@),
        crate::archive::strs(r.1@) == seq![
            "fetch"@,
            "--all"@,
            "--prune"@,
            "--recurse-submodules=on-demand"@,
            "--progress"@,
        ],
    {
    let targets = select_repositories(repos, exists, true);
    let mut args: Vec<String> = Vec::new();
    args.push(String::from_str("fetch"));
    args.push(String::from_str("--all"));
    args.push(String::from_str("--prune"));
    args.push(String::from_str("--recurse-submodules=on-demand"));
    args.push(String::from_str("--progress"));
    proof {
        assert(crate::archive::strs(args@) =~= seq![
            "fetch"@,
            "--all"@,
            "--prune"@,
            "--recurse-submodules=on-demand"@,
            "--progress"@,
        ]);
    }
    (targets, args)
}

/// The `lock` command's computation: flatten what the providers returned,
/// sort by identity, drop duplicate identities, and render the lockfile
/// text to be written. Reading provider configuration, fetching from each
/// provider, and the atomic file write stay outside the library.
pub fn lock_text(fetched: Vec<Repository>) -> (r: (Vec<Repository>, String))
    ensures
        crate::dedup::lock_pipeline_post(fetched@, r.0@),
        r.1@ == crate::lockfile::encode(views_of(r.0@)),
{
    let canonical = crate::dedup::canonical_repositories(fetched);
    let text = crate::lockfile::write_lockfile(&canonical);
    (canonical, text)
}

/// The paths the archive walk must not enter: every declared repository
/// that exists on disk, plus the archive root itself.
pub fn protected_paths(existing: &Vec<Repository>, archive_dir: &String) -> (r: Vec<String>)
    ensures
        crate::archive::strs(r@) == crate::dedup::path_seq(existing@).push(archive_dir@),
{
    let ghost all = crate::dedup::path_seq(existing@);
    let mut out: Vec<String> = Vec::new();
    let mut i: usize = 0;
    while i < existing.len()
        invariant
            i <= existing@.len(),
            all == crate::dedup::path_seq(existing@),
            crate::archive::strs(out@) == all.subrange(0, i as int),
        decreases existing@.len() - i,
    {
        let ghost before = out@;
        out.push(existing[i].full_path.clone());
        proof {
            assert(crate::archive::strs(out@) =~= crate::archive::strs(before).push(
                all[i as int],
            ));
            assert(all.subrange(0, i as int).push(all[i as int]) =~= all.subrange(0, i + 1));
        }
        i = i + 1;
    }
    let ghost before = out@;
    out.push(archive_dir.clone());
    proof {
        assert(all.subrange(0, all.len() as int) =~= all);
        assert(crate::archive::strs(out@) =~= crate::archive::strs(before).push(archive_dir@));
    }
    out
}

} // verus!
