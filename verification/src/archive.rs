//! The archive detector: classify the directories under the workspace and
//! plan the relocation of orphans.
//!
//! A directory is an orphan when it carries version-control metadata but is
//! not a declared, existing repository. The walk visits directories in
//! depth-first pre-order (parents before their contents) and prunes: it
//! never descends into a protected directory (a declared, existing
//! repository, or the archive root), and it never descends into an orphan
//! it has just planned, so nested repositories inside an orphan are not
//! separately reported.
//!
//! Paths here are relative to the workspace root, with `/` between
//! segments. The walk itself — reading directories from disk — happens
//! outside the library; it feeds each visited directory to
//! [`ArchiveWalk::step`] and obeys the returned action, or hands a complete
//! pre-order listing to [`plan_archive`].

use vstd::prelude::*;
use vstd::string::StrSliceExecFns;
use vstd::string::StringExecFns;

use crate::order::str_eq;

verus! {

/// `b` lies strictly inside the directory `a`.
pub open spec fn is_under(a: Seq<char>, b: Seq<char>) -> bool {
    &&& b.len() > a.len()
    &&& b.subrange(0, a.len() as int) == a
    &&& b[a.len() as int] == '/'
}

/// `b` is `a` itself or lies inside it.
pub open spec fn covers(a: Seq<char>, b: Seq<char>) -> bool {
    a == b || is_under(a, b)
}

/// Some path in `set` covers `p`.
pub open spec fn covered_by(set: Seq<Seq<char>>, p: Seq<char>) -> bool {
    exists|i: int| 0 <= i < set.len() && covers(#[trigger] set[i], p)
}

/// The views of a list of path strings.
pub open spec fn strs(v: Seq<String>) -> Seq<Seq<char>> {
    v.map_values(|s: String| s@)
}

/// Covering is transitive.
pub proof fn lemma_covers_trans(a: Seq<char>, b: Seq<char>, c: Seq<char>)
    requires
        covers(a, b),
        covers(b, c),
    ensures
        covers(a, c),
{
    if a != b && b != c {
        assert(c.subrange(0, a.len() as int) =~= c.subrange(0, b.len() as int).subrange(
            0,
            a.len() as int,
        ));
    }
}

/// Executable test of `covers`.
pub fn path_covers(a: &str, b: &str) -> (r: bool)
    ensures
        r == covers(a@, b@),
{
    let a_len = a.unicode_len();
    let b_len = b.unicode_len();
    if b_len < a_len {
        return false;
    }
    let mut i: usize = 0;
    while i < a_len
        invariant
            i <= a_len <= b_len,
            a_len == a@.len(),
            b_len == b@.len(),
            forall|j: int| 0 <= j < i ==> a@[j] == b@[j],
        decreases a_len - i,
    {
        if a.get_char(i) != b.get_char(i) {
            proof {
                assert(a@[i as int] != b@[i as int]);
                if a@ == b@ {
                    assert(false);
                }
                if is_under(a@, b@) {
                    assert(b@.subrange(0, a@.len() as int)[i as int] == b@[i as int]);
                }
            }
            return false;
        }
        i = i + 1;
    }
    if a_len == b_len {
        proof {
            assert(a@ =~= b@);
        }
        true
    } else {
        let r = b.get_char(a_len) == '/';
        proof {
            if r {
                assert(b@.subrange(0, a@.len() as int) =~= a@);
            } else {
                assert(!is_under(a@, b@));
                if a@ == b@ {
                    assert(false);
                }
            }
        }
        r
    }
}

/// Executable test of `covered_by`.
pub fn any_covers(set: &Vec<String>, p: &str) -> (r: bool)
    ensures
        r == covered_by(strs(set@), p@),
{
    let mut i: usize = 0;
    while i < set.len()
        invariant
            i <= set@.len(),
            forall|j: int| 0 <= j < i ==> !covers(strs(set@)[j], p@),
        decreases set@.len() - i,
    {
        if path_covers(set[i].as_str(), p) {
            proof {
                assert(covers(strs(set@)[i as int], p@));
            }
            return true;
        }
        i = i + 1;
    }
    false
}

/// Executable exact membership of a path in a list.
pub fn contains_path(set: &Vec<String>, p: &str) -> (r: bool)
    ensures
        r == strs(set@).contains(p@),
{
    let mut i: usize = 0;
    while i < set.len()
        invariant
            i <= set@.len(),
            forall|j: int| 0 <= j < i ==> strs(set@)[j] != p@,
        decreases set@.len() - i,
    {
        if str_eq(set[i].as_str(), p) {
            proof {
                assert(strs(set@)[i as int] == p@);
            }
            return true;
        }
        i = i + 1;
    }
    false
}

/// Where an orphan at `p` is relocated to: the same relative path, mirrored
/// under the archive root.
pub open spec fn dest_of(archive: Seq<char>, p: Seq<char>) -> Seq<char> {
    archive + seq!['/'] + p
}

/// One visited directory: its path relative to the workspace, and whether
/// it carries version-control metadata.
pub struct DirEntry {
    pub path: String,
    pub has_vcs: bool,
}

/// What the walk does at a visited directory.
#[derive(PartialEq, Eq, Structural, Clone, Copy, Debug)]
pub enum WalkAction {
    /// Do not descend; the directory is protected or already covered.
    Prune,
    /// Plan the directory's relocation and do not descend into it.
    Archive,
    /// Keep walking into the directory.
    Descend,
}

/// The plan the walk produces for a pre-order listing, threading the set of
/// pruned directories: entries covered by a pruned directory are skipped,
/// protected directories are pruned, orphans are planned and pruned, and
/// everything else is descended into.
pub open spec fn walk_spec(
    entries: Seq<(Seq<char>, bool)>,
    protected: Seq<Seq<char>>,
    archive: Seq<char>,
    pruned: Seq<Seq<char>>,
) -> Seq<(Seq<char>, Seq<char>)>
    decreases entries.len(),
{
    if entries.len() == 0 {
        Seq::empty()
    } else {
        let p = entries[0].0;
        let rest = entries.drop_first();
        if covered_by(pruned, p) {
            walk_spec(rest, protected, archive, pruned)
        } else if protected.contains(p) {
            walk_spec(rest, protected, archive, pruned.push(p))
        } else if entries[0].1 {
            seq![(p, dest_of(archive, p))] + walk_spec(rest, protected, archive, pruned.push(p))
        } else {
            walk_spec(rest, protected, archive, pruned)
        }
    }
}

/// The archive plan for a complete pre-order listing of the workspace.
pub open spec fn archive_plan_spec(
    entries: Seq<(Seq<char>, bool)>,
    protected: Seq<Seq<char>>,
    archive: Seq<char>,
) -> Seq<(Seq<char>, Seq<char>)> {
    walk_spec(entries, protected, archive, Seq::empty())
}

/// The views of a list of visited directories.
pub open spec fn entry_views(v: Seq<DirEntry>) -> Seq<(Seq<char>, bool)> {
    v.map_values(|e: DirEntry| (e.path@, e.has_vcs))
}

/// The views of a relocation plan.
pub open spec fn plan_views(v: Seq<(String, String)>) -> Seq<(Seq<char>, Seq<char>)> {
    v.map_values(|e: (String, String)| (e.0@, e.1@))
}

proof fn lemma_covered_push(pruned: Seq<Seq<char>>, x: Seq<char>, p: Seq<char>)
    ensures
        covered_by(pruned.push(x), p) == (covered_by(pruned, p) || covers(x, p)),
{
    let pp = pruned.push(x);
    if covered_by(pruned, p) {
        let i = choose|i: int| 0 <= i < pruned.len() && covers(pruned[i], p);
        assert(covers(pp[i], p));
    }
    if covers(x, p) {
        assert(covers(pp[pruned.len() as int], p));
    }
    if covered_by(pp, p) {
        let i = choose|i: int| 0 <= i < pp.len() && covers(pp[i], p);
        if i < pruned.len() {
            assert(covers(pruned[i], p));
        }
    }
}

/// Visited directories come parents-first: no directory appears after one
/// of its descendants. A depth-first pre-order walk yields this.
pub open spec fn ancestors_first(entries: Seq<(Seq<char>, bool)>) -> bool {
    forall|i: int, j: int|
        0 <= i < entries.len() && 0 <= j < entries.len() && is_under(
            #[trigger] entries[i].0,
            #[trigger] entries[j].0,
        ) ==> i < j
}

/// Every planned relocation is of a visited directory that carries
/// metadata, is not itself protected, is not covered by anything already
/// pruned, and goes to its mirrored place under the archive root.
pub proof fn lemma_walk_sources(
    entries: Seq<(Seq<char>, bool)>,
    protected: Seq<Seq<char>>,
    archive: Seq<char>,
    pruned: Seq<Seq<char>>,
)
    ensures
        ({
            let plan = walk_spec(entries, protected, archive, pruned);
            forall|k: int|
                0 <= k < plan.len() ==> {
                    &&& exists|i: int|
                        0 <= i < entries.len() && #[trigger] entries[i] == (
                            (#[trigger] plan[k]).0,
                            true,
                        )
                    &&& plan[k].1 == dest_of(archive, plan[k].0)
                    &&& !protected.contains(plan[k].0)
                    &&& !covered_by(pruned, plan[k].0)
                }
        }),
    decreases entries.len(),
{
    if entries.len() == 0 {
    } else {
        let p = entries[0].0;
        let rest = entries.drop_first();
        let plan = walk_spec(entries, protected, archive, pruned);
        if covered_by(pruned, p) || (!protected.contains(p) && !entries[0].1) {
            let tailplan = walk_spec(rest, protected, archive, pruned);
            lemma_walk_sources(rest, protected, archive, pruned);
            assert forall|k: int| 0 <= k < plan.len() implies {
                &&& exists|i: int|
                    0 <= i < entries.len() && #[trigger] entries[i] == ((#[trigger] plan[k]).0, true)
                &&& plan[k].1 == dest_of(archive, plan[k].0)
                &&& !protected.contains(plan[k].0)
                &&& !covered_by(pruned, plan[k].0)
            } by {
                assert(plan[k] == tailplan[k]);
                let i = choose|i: int| 0 <= i < rest.len() && rest[i] == (tailplan[k].0, true);
                assert(entries[i + 1] == (plan[k].0, true));
            }
        } else if protected.contains(p) {
            let tailplan = walk_spec(rest, protected, archive, pruned.push(p));
            lemma_walk_sources(rest, protected, archive, pruned.push(p));
            assert forall|k: int| 0 <= k < plan.len() implies {
                &&& exists|i: int|
                    0 <= i < entries.len() && #[trigger] entries[i] == ((#[trigger] plan[k]).0, true)
                &&& plan[k].1 == dest_of(archive, plan[k].0)
                &&& !protected.contains(plan[k].0)
                &&& !covered_by(pruned, plan[k].0)
            } by {
                assert(plan[k] == tailplan[k]);
                let i = choose|i: int| 0 <= i < rest.len() && rest[i] == (tailplan[k].0, true);
                assert(entries[i + 1] == (plan[k].0, true));
                lemma_covered_push(pruned, p, tailplan[k].0);
            }
        } else {
            let tailplan = walk_spec(rest, protected, archive, pruned.push(p));
            lemma_walk_sources(rest, protected, archive, pruned.push(p));
            assert forall|k: int| 0 <= k < plan.len() implies {
                &&& exists|i: int|
                    0 <= i < entries.len() && #[trigger] entries[i] == ((#[trigger] plan[k]).0, true)
                &&& plan[k].1 == dest_of(archive, plan[k].0)
                &&& !protected.contains(plan[k].0)
                &&& !covered_by(pruned, plan[k].0)
            } by {
                if k == 0 {
                    assert(plan[0] == (p, dest_of(archive, p)));
                    assert(entries[0] == (p, true));
                } else {
                    assert(plan[k] == tailplan[k - 1]);
                    let i = choose|i: int|
                        0 <= i < rest.len() && rest[i] == (tailplan[k - 1].0, true);
                    assert(entries[i + 1] == (plan[k].0, true));
                    lemma_covered_push(pruned, p, tailplan[k - 1].0);
                }
            }
        }
    }
}

/// A protected directory, visited before anything inside it, never appears
/// in the plan, nor does anything inside it: declared repositories and the
/// archive root are left alone.
pub proof fn lemma_walk_skips_protected(
    entries: Seq<(Seq<char>, bool)>,
    protected: Seq<Seq<char>>,
    archive: Seq<char>,
    pruned: Seq<Seq<char>>,
    q: Seq<char>,
)
    requires
        protected.contains(q),
        covered_by(pruned, q) || (forall|j: int|
            0 <= j < entries.len() && is_under(q, (#[trigger] entries[j]).0) ==> exists|k: int|
                0 <= k < j && (#[trigger] entries[k]).0 == q),
    ensures
        ({
            let plan = walk_spec(entries, protected, archive, pruned);
            forall|k: int| 0 <= k < plan.len() ==> !covers(q, (#[trigger] plan[k]).0)
        }),
    decreases entries.len(),
{
    if entries.len() == 0 {
    } else {
        let p = entries[0].0;
        let rest = entries.drop_first();
        let plan = walk_spec(entries, protected, archive, pruned);
        // The hypothesis, shifted to the remaining entries.
        assert(covered_by(pruned, q) || p == q || (forall|j: int|
            0 <= j < rest.len() && is_under(q, (#[trigger] rest[j]).0) ==> exists|k: int|
                0 <= k < j && (#[trigger] rest[k]).0 == q)) by {
            if !covered_by(pruned, q) && p != q {
                assert forall|j: int|
                    0 <= j < rest.len() && is_under(q, (#[trigger] rest[j]).0) implies exists|
                    k: int,
                |
                    0 <= k < j && (#[trigger] rest[k]).0 == q by {
                    assert(entries[j + 1].0 == rest[j].0);
                    assert(is_under(q, entries[j + 1].0));
                    let k = choose|k: int| 0 <= k < j + 1 && entries[k].0 == q;
                    assert(k != 0);
                    assert(rest[k - 1].0 == q);
                }
            }
        }
        if covered_by(pruned, p) {
            lemma_walk_skips_protected(rest, protected, archive, pruned, q);
            let tailplan = walk_spec(rest, protected, archive, pruned);
            assert forall|k: int| 0 <= k < plan.len() implies !covers(
                q,
                (#[trigger] plan[k]).0,
            ) by {
                assert(plan[k] == tailplan[k]);
            }
        } else if protected.contains(p) {
            if covered_by(pruned, q) || p == q {
                lemma_covered_push(pruned, p, q);
                assert(covered_by(pruned.push(p), q));
            }
            lemma_walk_skips_protected(rest, protected, archive, pruned.push(p), q);
            let tailplan = walk_spec(rest, protected, archive, pruned.push(p));
            assert forall|k: int| 0 <= k < plan.len() implies !covers(
                q,
                (#[trigger] plan[k]).0,
            ) by {
                assert(plan[k] == tailplan[k]);
            }
        } else if entries[0].1 {
            // The head is planned; it cannot be q (q is protected) and it
            // cannot lie inside q: q would have had to be visited first and
            // pruned, but nothing pruned covers the head.
            assert(!covers(q, p)) by {
                if is_under(q, p) {
                    if covered_by(pruned, q) {
                        let i = choose|i: int| 0 <= i < pruned.len() && covers(pruned[i], q);
                        lemma_covers_trans(pruned[i], q, p);
                        assert(covered_by(pruned, p));
                        assert(false);
                    } else {
                        assert(is_under(q, entries[0].0));
                        assert(false);
                    }
                }
            }
            if covered_by(pruned, q) || p == q {
                lemma_covered_push(pruned, p, q);
                assert(covered_by(pruned.push(p), q));
            }
            lemma_walk_skips_protected(rest, protected, archive, pruned.push(p), q);
            let tailplan = walk_spec(rest, protected, archive, pruned.push(p));
            assert forall|k: int| 0 <= k < plan.len() implies !covers(
                q,
                (#[trigger] plan[k]).0,
            ) by {
                if k > 0 {
                    assert(plan[k] == tailplan[k - 1]);
                }
            }
        } else {
            lemma_walk_skips_protected(rest, protected, archive, pruned, q);
            let tailplan = walk_spec(rest, protected, archive, pruned);
            assert forall|k: int| 0 <= k < plan.len() implies !covers(
                q,
                (#[trigger] plan[k]).0,
            ) by {
                assert(plan[k] == tailplan[k]);
            }
        }
    }
}

/// No planned relocation lies inside another: nested repositories inside an
/// orphan are never separately reported, because the walk prunes at the
/// orphan.
pub proof fn lemma_walk_no_nested(
    entries: Seq<(Seq<char>, bool)>,
    protected: Seq<Seq<char>>,
    archive: Seq<char>,
    pruned: Seq<Seq<char>>,
)
    requires
        ancestors_first(entries),
    ensures
        ({
            let plan = walk_spec(entries, protected, archive, pruned);
            forall|k1: int, k2: int|
                0 <= k1 < plan.len() && 0 <= k2 < plan.len() ==> !is_under(
                    (#[trigger] plan[k1]).0,
                    (#[trigger] plan[k2]).0,
                )
        }),
    decreases entries.len(),
{
    if entries.len() == 0 {
    } else {
        let p = entries[0].0;
        let rest = entries.drop_first();
        let plan = walk_spec(entries, protected, archive, pruned);
        assert(ancestors_first(rest)) by {
            assert forall|i: int, j: int|
                0 <= i < rest.len() && 0 <= j < rest.len() && is_under(
                    (#[trigger] rest[i]).0,
                    (#[trigger] rest[j]).0,
                ) implies i < j by {
                assert(rest[i] == entries[i + 1] && rest[j] == entries[j + 1]);
            }
        }
        if covered_by(pruned, p) || (!protected.contains(p) && !entries[0].1) {
            lemma_walk_no_nested(rest, protected, archive, pruned);
            let tailplan = walk_spec(rest, protected, archive, pruned);
            assert forall|k1: int, k2: int|
                0 <= k1 < plan.len() && 0 <= k2 < plan.len() implies !is_under(
                (#[trigger] plan[k1]).0,
                (#[trigger] plan[k2]).0,
            ) by {
                assert(plan[k1] == tailplan[k1] && plan[k2] == tailplan[k2]);
            }
        } else if protected.contains(p) {
            lemma_walk_no_nested(rest, protected, archive, pruned.push(p));
            let tailplan = walk_spec(rest, protected, archive, pruned.push(p));
            assert forall|k1: int, k2: int|
                0 <= k1 < plan.len() && 0 <= k2 < plan.len() implies !is_under(
                (#[trigger] plan[k1]).0,
                (#[trigger] plan[k2]).0,
            ) by {
                assert(plan[k1] == tailplan[k1] && plan[k2] == tailplan[k2]);
            }
        } else {
            lemma_walk_no_nested(rest, protected, archive, pruned.push(p));
            lemma_walk_sources(rest, protected, archive, pruned.push(p));
            let tailplan = walk_spec(rest, protected, archive, pruned.push(p));
            assert forall|k1: int, k2: int|
                0 <= k1 < plan.len() && 0 <= k2 < plan.len() implies !is_under(
                (#[trigger] plan[k1]).0,
                (#[trigger] plan[k2]).0,
            ) by {
                if k1 == 0 && k2 > 0 {
                    assert(plan[k2] == tailplan[k2 - 1]);
                    assert(!covered_by(pruned.push(p), tailplan[k2 - 1].0));
                    lemma_covered_push(pruned, p, tailplan[k2 - 1].0);
                    assert(!covers(p, plan[k2].0));
                } else if k1 > 0 && k2 == 0 {
                    assert(plan[k1] == tailplan[k1 - 1]);
                    let i = choose|i: int|
                        0 <= i < rest.len() && rest[i] == (tailplan[k1 - 1].0, true);
                    assert(entries[i + 1].0 == plan[k1].0);
                    assert(plan[k2].0 == entries[0].0);
                    if is_under(plan[k1].0, plan[k2].0) {
                        assert(is_under(entries[i + 1].0, entries[0].0));
                        assert(false);
                    }
                } else if k1 > 0 && k2 > 0 {
                    assert(plan[k1] == tailplan[k1 - 1] && plan[k2] == tailplan[k2 - 1]);
                }
            }
        }
    }
}

/// An orphan is always found: a visited directory with metadata, not
/// covered by any protected path and with no protected or metadata-carrying
/// directory above it, is planned, with its mirrored destination.
pub proof fn lemma_walk_finds_orphan(
    entries: Seq<(Seq<char>, bool)>,
    protected: Seq<Seq<char>>,
    archive: Seq<char>,
    pruned: Seq<Seq<char>>,
    i: int,
)
    requires
        0 <= i < entries.len(),
        entries[i].1,
        !covered_by(pruned, entries[i].0),
        forall|k: int| 0 <= k < protected.len() ==> !covers(#[trigger] protected[k], entries[i].0),
        forall|j: int|
            0 <= j < entries.len() && is_under((#[trigger] entries[j]).0, entries[i].0) ==> !(
            protected.contains(entries[j].0) || entries[j].1),
    ensures
        walk_spec(entries, protected, archive, pruned).contains(
            (entries[i].0, dest_of(archive, entries[i].0)),
        ),
    decreases entries.len(),
{
    let p = entries[0].0;
    let rest = entries.drop_first();
    let target = entries[i].0;
    let plan = walk_spec(entries, protected, archive, pruned);
    if i > 0 {
        // The requirements, shifted to the remaining entries.
        assert(rest[i - 1] == entries[i]);
        assert forall|j: int|
            0 <= j < rest.len() && is_under((#[trigger] rest[j]).0, target) implies !(
        protected.contains(rest[j].0) || rest[j].1) by {
            assert(rest[j] == entries[j + 1]);
        }
    }
    if covered_by(pruned, p) {
        assert(i > 0);
        lemma_walk_finds_orphan(rest, protected, archive, pruned, i - 1);
        let tailplan = walk_spec(rest, protected, archive, pruned);
        let k = choose|k: int|
            0 <= k < tailplan.len() && tailplan[k] == (target, dest_of(archive, target));
        assert(plan[k] == (target, dest_of(archive, target)));
    } else if protected.contains(p) {
        assert(i > 0) by {
            if i == 0 {
                let k = choose|k: int| 0 <= k < protected.len() && protected[k] == p;
                assert(covers(protected[k], target));
            }
        }
        assert(!covers(p, target)) by {
            let k = choose|k: int| 0 <= k < protected.len() && protected[k] == p;
            if p == target {
                assert(covers(protected[k], target));
            }
            if is_under(p, target) {
                assert(is_under(entries[0].0, target));
            }
        }
        lemma_covered_push(pruned, p, target);
        lemma_walk_finds_orphan(rest, protected, archive, pruned.push(p), i - 1);
        let tailplan = walk_spec(rest, protected, archive, pruned.push(p));
        let k = choose|k: int|
            0 <= k < tailplan.len() && tailplan[k] == (target, dest_of(archive, target));
        assert(plan[k] == (target, dest_of(archive, target)));
    } else if entries[0].1 {
        if p == target {
            assert(plan[0] == (target, dest_of(archive, target)));
        } else {
            assert(i > 0);
            assert(!covers(p, target)) by {
                if is_under(p, target) {
                    assert(is_under(entries[0].0, target));
                }
            }
            lemma_covered_push(pruned, p, target);
            lemma_walk_finds_orphan(rest, protected, archive, pruned.push(p), i - 1);
            let tailplan = walk_spec(rest, protected, archive, pruned.push(p));
            let k = choose|k: int|
                0 <= k < tailplan.len() && tailplan[k] == (target, dest_of(archive, target));
            assert(plan[k + 1] == (target, dest_of(archive, target)));
        }
    } else {
        assert(i > 0);
        lemma_walk_finds_orphan(rest, protected, archive, pruned, i - 1);
        let tailplan = walk_spec(rest, protected, archive, pruned);
        let k = choose|k: int|
            0 <= k < tailplan.len() && tailplan[k] == (target, dest_of(archive, target));
        assert(plan[k] == (target, dest_of(archive, target)));
    }
}

/// The walk's running state: what must not be entered, where orphans go,
/// what was pruned so far, and the plan so far.
pub struct ArchiveWalk {
    /// Declared, existing repository paths, plus the archive root.
    pub protected: Vec<String>,
    /// The archive root, relative to the workspace.
    pub archive_dir: String,
    /// Directories the walk decided not to descend into.
    pub pruned: Vec<String>,
    /// The relocations planned so far.
    pub plan: Vec<(String, String)>,
}

impl ArchiveWalk {
    /// Start a walk that protects the given paths and relocates orphans
    /// under `archive_dir`.
    pub fn new(protected: Vec<String>, archive_dir: String) -> (w: ArchiveWalk)
        ensures
            w.protected == protected,
            w.archive_dir == archive_dir,
            w.pruned@ == Seq::<String>::empty(),
            w.plan@ == Seq::<(String, String)>::empty(),
    {
        ArchiveWalk { protected, archive_dir, pruned: Vec::new(), plan: Vec::new() }
    }

    /// Classify one visited directory and update the plan: exactly the step
    /// that `walk_spec` takes on the entry `(path, has_vcs)`.
    pub fn step(&mut self, path: &String, has_vcs: bool) -> (action: WalkAction)
        ensures
            final(self).protected == old(self).protected,
            final(self).archive_dir == old(self).archive_dir,
            ({
                let p = path@;
                let prot = strs(old(self).protected@);
                let pruned = strs(old(self).pruned@);
                let arch = old(self).archive_dir@;
                if covered_by(pruned, p) {
                    &&& action == WalkAction::Prune
                    &&& strs(final(self).pruned@) == pruned
                    &&& plan_views(final(self).plan@) == plan_views(old(self).plan@)
                } else if prot.contains(p) {
                    &&& action == WalkAction::Prune
                    &&& strs(final(self).pruned@) == pruned.push(p)
                    &&& plan_views(final(self).plan@) == plan_views(old(self).plan@)
                } else if has_vcs {
                    &&& action == WalkAction::Archive
                    &&& strs(final(self).pruned@) == pruned.push(p)
                    &&& plan_views(final(self).plan@) == plan_views(old(self).plan@).push(
                        (p, dest_of(arch, p)),
                    )
                } else {
                    &&& action == WalkAction::Descend
                    &&& strs(final(self).pruned@) == pruned
                    &&& plan_views(final(self).plan@) == plan_views(old(self).plan@)
                }
            }),
    {
        let ghost pruned0 = strs(self.pruned@);
        let ghost plan0 = plan_views(self.plan@);
        if any_covers(&self.pruned, path.as_str()) {
            return WalkAction::Prune;
        }
        if contains_path(&self.protected, path.as_str()) {
            let ghost before = self.pruned@;
            self.pruned.push(path.clone());
            proof {
                assert(strs(self.pruned@) =~= pruned0.push(path@));
            }
            return WalkAction::Prune;
        }
        if has_vcs {
            let mut dest = String::new();
            dest.append(self.archive_dir.as_str());
            dest.append("/");
            dest.append(path.as_str());
            proof {
                reveal_strlit("/");
                assert("/"@ =~= seq!['/']);
                assert(dest@ =~= dest_of(self.archive_dir@, path@));
            }
            let ghost before_plan = plan_views(self.plan@);
            self.plan.push((path.clone(), dest));
            self.pruned.push(path.clone());
            proof {
                assert(strs(self.pruned@) =~= pruned0.push(path@));
                assert(plan_views(self.plan@) =~= plan0.push((path@, dest_of(self.archive_dir@, path@))));
            }
            return WalkAction::Archive;
        }
        WalkAction::Descend
    }
}

/// Compute the whole archive plan for a pre-order listing of the
/// workspace's directories.
pub fn plan_archive(entries: &Vec<DirEntry>, protected: Vec<String>, archive_dir: String) -> (plan:
    Vec<(String, String)>)
    ensures
        plan_views(plan@) == archive_plan_spec(
            entry_views(entries@),
            strs(protected@),
            archive_dir@,
        ),
{
    let ghost all = entry_views(entries@);
    let ghost prot = strs(protected@);
    let ghost arch = archive_dir@;
    let mut w = ArchiveWalk::new(protected, archive_dir);
    let mut i: usize = 0;
    proof {
        assert(all.subrange(0, all.len() as int) =~= all);
        assert(strs(w.pruned@) =~= Seq::<Seq<char>>::empty());
        assert(plan_views(w.plan@) =~= Seq::<(Seq<char>, Seq<char>)>::empty());
        assert(plan_views(w.plan@) + walk_spec(all, prot, arch, strs(w.pruned@)) =~= walk_spec(
            all,
            prot,
            arch,
            strs(w.pruned@),
        ));
    }
    while i < entries.len()
        invariant
            i <= entries@.len(),
            all == entry_views(entries@),
            prot == strs(w.protected@),
            arch == w.archive_dir@,
            archive_plan_spec(all, prot, arch) == plan_views(w.plan@) + walk_spec(
                all.subrange(i as int, all.len() as int),
                prot,
                arch,
                strs(w.pruned@),
            ),
        decreases entries@.len() - i,
    {
        let ghost rem = all.subrange(i as int, all.len() as int);
        let ghost pruned0 = strs(w.pruned@);
        let ghost plan0 = plan_views(w.plan@);
        let e = &entries[i];
        let _ = w.step(&e.path, e.has_vcs);
        proof {
            assert(rem[0] == (e.path@, e.has_vcs));
            assert(rem.drop_first() =~= all.subrange(i + 1, all.len() as int));
            if !covered_by(pruned0, e.path@) && !prot.contains(e.path@) && e.has_vcs {
                assert(plan0 + (seq![(e.path@, dest_of(arch, e.path@))] + walk_spec(
                    rem.drop_first(),
                    prot,
                    arch,
                    pruned0.push(e.path@),
                )) =~= plan_views(w.plan@) + walk_spec(
                    rem.drop_first(),
                    prot,
                    arch,
                    strs(w.pruned@),
                ));
            }
        }
        i = i + 1;
    }
    proof {
        assert(all.subrange(all.len() as int, all.len() as int) =~= Seq::<(Seq<char>, bool)>::empty());
        assert(plan_views(w.plan@) + Seq::<(Seq<char>, Seq<char>)>::empty() =~= plan_views(w.plan@));
    }
    w.plan
}

} // verus!
