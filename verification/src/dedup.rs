//! The lock-generation pipeline: sort the declared repositories by identity
//! and drop adjacent duplicates, so that the lockfile holds each `full_path`
//! exactly once, in ascending order.
//!
//! The pipeline's output order depends only on which paths occur in the
//! input, never on the order providers delivered them in:
//! see [`lemma_lock_pipeline_order_independent`].

use vstd::prelude::*;
use vstd::multiset::Multiset;
use vstd::relations::sorted_by;

use crate::order::lex_leq;
use crate::order::lex_lt;
use crate::order::lemma_lex_lt_connected;
use crate::order::lemma_lex_lt_transitive;
use crate::order::str_eq;
use crate::order::str_lt;
use crate::repository::Repository;

verus! {

broadcast use vstd::multiset::group_multiset_axioms;


/// The identity keys of a repository sequence, in order.
pub open spec fn path_seq(v: Seq<Repository>) -> Seq<Seq<char>> {
    v.map_values(|r: Repository| r@.path)
}

/// The total order used on identity keys.
pub open spec fn lex_leq_fn() -> spec_fn(Seq<char>, Seq<char>) -> bool {
    |a: Seq<char>, b: Seq<char>| lex_leq(a, b)
}

/// Strictly ascending: later keys are strictly greater, so all keys are
/// distinct.
pub open spec fn strictly_sorted(p: Seq<Seq<char>>) -> bool {
    forall|i: int, j: int| 0 <= i < j < p.len() ==> lex_lt(p[i], p[j])
}

/// Everything the lock pipeline promises of its output: identity keys
/// strictly ascending (hence unique), the same set of identity keys as the
/// input, and every entry drawn unchanged from the input.
pub open spec fn lock_pipeline_post(input: Seq<Repository>, output: Seq<Repository>) -> bool {
    &&& strictly_sorted(path_seq(output))
    &&& path_seq(output).to_set() == path_seq(input).to_set()
    &&& forall|i: int| 0 <= i < output.len() ==> input.contains(output[i])
}

proof fn lemma_sorted_pair(p: Seq<Seq<char>>, i: int, j: int)
    requires
        sorted_by(p, lex_leq_fn()),
        0 <= i <= j < p.len(),
    ensures
        lex_leq(p[i], p[j]),
{
    if i < j {
        assert(lex_leq_fn()(p[i], p[j]));
    }
}

proof fn lemma_to_set_insert0(q: Seq<Seq<char>>, y: Seq<char>)
    ensures
        q.insert(0, y).to_set() =~= q.to_set().insert(y),
{
    let qi = q.insert(0, y);
    assert forall|x: Seq<char>| qi.to_set().contains(x) implies q.to_set().insert(y).contains(
        x,
    ) by {
        let i = choose|i: int| 0 <= i < qi.len() && qi[i] == x;
        if i > 0 {
            assert(q[i - 1] == x);
        }
    }
    assert forall|x: Seq<char>| q.to_set().insert(y).contains(x) implies qi.to_set().contains(
        x,
    ) by {
        if x == y {
            assert(qi[0] == x);
        } else {
            let i = choose|i: int| 0 <= i < q.len() && q[i] == x;
            assert(qi[i + 1] == x);
        }
    }
}

proof fn lemma_to_set_push(q: Seq<Seq<char>>, y: Seq<char>)
    ensures
        q.push(y).to_set() =~= q.to_set().insert(y),
{
    let qp = q.push(y);
    assert forall|x: Seq<char>| qp.to_set().contains(x) implies q.to_set().insert(y).contains(
        x,
    ) by {
        let i = choose|i: int| 0 <= i < qp.len() && qp[i] == x;
        if i < q.len() {
            assert(q[i] == x);
        }
    }
    assert forall|x: Seq<char>| q.to_set().insert(y).contains(x) implies qp.to_set().contains(
        x,
    ) by {
        if x == y {
            assert(qp[q.len() as int] == x);
        } else {
            let i = choose|i: int| 0 <= i < q.len() && q[i] == x;
            assert(qp[i] == x);
        }
    }
}

proof fn lemma_lex_lt_lt_leq_trans(a: Seq<char>, b: Seq<char>, c: Seq<char>)
    ensures
        lex_lt(a, b) && lex_leq(b, c) ==> lex_lt(a, c),
        lex_leq(a, b) && lex_lt(b, c) ==> lex_lt(a, c),
{
    lemma_lex_lt_transitive(a, b, c);
}

/// Sort repositories by identity key, keeping exactly the same entries.
pub fn sort_repositories(v: Vec<Repository>) -> (r: Vec<Repository>)
    ensures
        sorted_by(path_seq(r@), lex_leq_fn()),
        r@.to_multiset() == v@.to_multiset(),
{
    broadcast use vstd::seq_lib::group_to_multiset_ensures;

    let ghost whole = v@;
    let mut out: Vec<Repository> = Vec::new();
    let mut rest = v;
    while rest.len() > 0
        invariant
            sorted_by(path_seq(out@), lex_leq_fn()),
            out@.to_multiset().add(rest@.to_multiset()) =~= whole.to_multiset(),
        decreases rest@.len(),
    {
        let ghost out_before = out@;
        let ghost rest_before = rest@;
        let x = rest.remove(0);
        let mut j: usize = 0;
        while j < out.len() && !str_lt(x.full_path.as_str(), out[j].full_path.as_str())
            invariant
                j <= out@.len(),
                out@ == out_before,
                forall|k: int| 0 <= k < j ==> lex_leq(path_seq(out@)[k], x@.path),
            decreases out@.len() - j,
        {
            proof {
                lemma_lex_lt_connected(x@.path, out@[j as int]@.path);
            }
            j = j + 1;
        }
        proof {
            let p = path_seq(out_before);
            let q = path_seq(out_before.insert(j as int, x));
            assert(q =~= p.insert(j as int, x@.path));
            assert forall|i1: int, i2: int| 0 <= i1 < i2 < q.len() implies lex_leq_fn()(
                q[i1],
                q[i2],
            ) by {
                if i2 == j {
                    assert(lex_leq(p[i1], x@.path));
                } else if i1 == j {
                    assert(lex_lt(x@.path, p[j as int]));
                    lemma_sorted_pair(p, j as int, i2 - 1);
                    lemma_lex_lt_lt_leq_trans(x@.path, p[j as int], p[i2 - 1]);
                } else if i1 < j && i2 > j {
                    lemma_sorted_pair(p, i1, i2 - 1);
                } else {
                    lemma_sorted_pair(p, if i1 < j { i1 } else { i1 - 1 }, if i2 < j { i2 } else { i2 - 1 });
                }
            }
            vstd::seq_lib::to_multiset_insert(out_before, j as int, x);
            vstd::seq_lib::to_multiset_remove(rest_before, 0);
            assert(rest_before[0] == x);
            assert(rest_before.contains(x));
            vstd::seq_lib::to_multiset_contains(rest_before, x);
            assert(rest_before.to_multiset().contains(x));
            assert(out_before.insert(j as int, x).to_multiset() =~= out_before.to_multiset().insert(
                x,
            ));
            assert(out_before.to_multiset().insert(x).add(rest@.to_multiset())
                =~= out_before.to_multiset().add(rest_before.to_multiset()));
        }
        out.insert(j, x);
    }
    proof {
        assert(rest@.to_multiset() =~= Multiset::<Repository>::empty());
        assert(out@.to_multiset().add(Multiset::<Repository>::empty()) =~= out@.to_multiset());
    }
    out
}

/// Drop adjacent duplicate identity keys from a sorted repository list.
/// Of two entries with the same key, the one kept is an input entry; the
/// output's keys are strictly ascending and cover the same set of keys.
pub fn dedup_sorted_repositories(v: Vec<Repository>) -> (r: Vec<Repository>)
    requires
        sorted_by(path_seq(v@), lex_leq_fn()),
    ensures
        strictly_sorted(path_seq(r@)),
        path_seq(r@).to_set() == path_seq(v@).to_set(),
        forall|i: int| 0 <= i < r@.len() ==> v@.contains(r@[i]),
{
    let ghost whole = v@;
    let mut out: Vec<Repository> = Vec::new();
    let mut rest = v;
    while rest.len() > 0
        invariant
            sorted_by(path_seq(whole), lex_leq_fn()),
            strictly_sorted(path_seq(out@)),
            rest@.len() <= whole.len(),
            forall|i: int| 0 <= i < out@.len() ==> whole.contains(out@[i]),
            forall|i: int|
                0 <= i < rest@.len() ==> rest@[i] == whole[whole.len() - rest@.len() + i],
            out@.len() > 0 && rest@.len() > 0 ==> lex_leq(
                path_seq(out@).last(),
                rest@[0]@.path,
            ),
            path_seq(out@).to_set() + path_seq(rest@).to_set() =~= path_seq(whole).to_set(),
            out@.len() > 0 ==> forall|i: int|
                0 <= i < rest@.len() ==> lex_leq(path_seq(out@).last(), rest@[i]@.path),
        decreases rest@.len(),
    {
        let ghost out_before = out@;
        let ghost rest_before = rest@;
        let x = rest.remove(0);
        let take = if out.len() == 0 {
            true
        } else {
            let last = out.len() - 1;
            !str_eq(out[last].full_path.as_str(), x.full_path.as_str())
        };
        proof {
            assert forall|i: int| 0 <= i < rest@.len() implies lex_leq(
                x@.path,
                rest@[i]@.path,
            ) by {
                let n = whole.len() - rest_before.len();
                assert(path_seq(whole)[n] == x@.path);
                assert(path_seq(whole)[n + 1 + i] == rest@[i]@.path);
                lemma_sorted_pair(path_seq(whole), n, n + 1 + i);
            }
        }
        if take {
            proof {
                let p = path_seq(out_before);
                let q = path_seq(out_before.push(x));
                assert(q =~= p.push(x@.path));
                if out_before.len() > 0 {
                    assert(lex_leq(p.last(), x@.path));
                    lemma_lex_lt_connected(p.last(), x@.path);
                    assert(lex_lt(p.last(), x@.path));
                    assert forall|i1: int, i2: int| 0 <= i1 < i2 < q.len() implies lex_lt(
                        q[i1],
                        q[i2],
                    ) by {
                        if i2 == q.len() - 1 && i1 < p.len() - 1 {
                            assert(lex_lt(p[i1], p.last()));
                            lemma_lex_lt_lt_leq_trans(p[i1], p.last(), x@.path);
                        }
                    }
                }
                assert forall|i: int| 0 <= i < rest@.len() implies lex_leq(
                    q.last(),
                    rest@[i]@.path,
                ) by {}
                assert(path_seq(rest_before) =~= path_seq(rest@).insert(0, x@.path));
                lemma_to_set_insert0(path_seq(rest@), x@.path);
                lemma_to_set_push(p, x@.path);
                assert(path_seq(out_before.push(x)).to_set() + path_seq(rest@).to_set()
                    =~= path_seq(whole).to_set());
                let n = whole.len() - rest_before.len();
                assert(whole[n] == x);
            }
            out.push(x);
        } else {
            proof {
                let p = path_seq(out_before);
                assert(p.last() == x@.path);
                assert(p[p.len() - 1] == x@.path);
                assert(p.to_set().contains(x@.path));
                assert(path_seq(rest_before) =~= path_seq(rest@).insert(0, x@.path));
                lemma_to_set_insert0(path_seq(rest@), x@.path);
                assert(p.to_set() + path_seq(rest@).to_set() =~= path_seq(whole).to_set());
            }
        }
    }
    proof {
        assert(path_seq(rest@).to_set() =~= Set::<Seq<char>>::empty());
        assert(path_seq(out@).to_set() + Set::<Seq<char>>::empty() =~= path_seq(out@).to_set());
        assert forall|i: int| 0 <= i < out@.len() implies whole.contains(out@[i]) by {}
    }
    out
}

/// The whole pipeline: sort by identity key, then deduplicate.
pub fn canonical_repositories(v: Vec<Repository>) -> (r: Vec<Repository>)
    ensures
        lock_pipeline_post(v@, r@),
{
    broadcast use vstd::seq_lib::group_to_multiset_ensures;

    let ghost input = v@;
    let sorted = sort_repositories(v);
    let ghost mid = sorted@;
    let r = dedup_sorted_repositories(sorted);
    proof {
        assert forall|x: Seq<char>|
            path_seq(mid).to_set().contains(x) == path_seq(input).to_set().contains(x) by {
            if path_seq(mid).to_set().contains(x) {
                let i = choose|i: int| 0 <= i < mid.len() && path_seq(mid)[i] == x;
                assert(mid.to_multiset().contains(mid[i]));
                assert(input.contains(mid[i]));
                let j = choose|j: int| 0 <= j < input.len() && input[j] == mid[i];
                assert(path_seq(input)[j] == x);
            }
            if path_seq(input).to_set().contains(x) {
                let i = choose|i: int| 0 <= i < input.len() && path_seq(input)[i] == x;
                assert(input.to_multiset().contains(input[i]));
                assert(mid.contains(input[i]));
                let j = choose|j: int| 0 <= j < mid.len() && mid[j] == input[i];
                assert(path_seq(mid)[j] == x);
            }
        }
        assert(path_seq(mid).to_set() =~= path_seq(input).to_set());
        assert forall|i: int| 0 <= i < r@.len() implies input.contains(r@[i]) by {
            assert(mid.contains(r@[i]));
            let j = choose|j: int| 0 <= j < mid.len() && mid[j] == r@[i];
            assert(mid.to_multiset().contains(mid[j]));
        }
    }
    r
}

/// Two strictly ascending key sequences over the same key set are equal.
pub proof fn lemma_strictly_sorted_unique(p: Seq<Seq<char>>, q: Seq<Seq<char>>)
    requires
        strictly_sorted(p),
        strictly_sorted(q),
        p.to_set() == q.to_set(),
    ensures
        p == q,
    decreases p.len(),
{
    if p.len() == 0 {
        if q.len() > 0 {
            assert(q.to_set().contains(q[0]));
            assert(p.to_set().contains(q[0]));
        }
        assert(p =~= q);
    } else if q.len() == 0 {
        assert(p.to_set().contains(p[0]));
        assert(q.to_set().contains(p[0]));
    } else {
        assert(p.to_set().contains(p[0]));
        assert(q.to_set().contains(p[0]));
        let i = choose|i: int| 0 <= i < q.len() && q[i] == p[0];
        assert(q.to_set().contains(q[0]));
        assert(p.to_set().contains(q[0]));
        let j = choose|j: int| 0 <= j < p.len() && p[j] == q[0];
        if i > 0 && j > 0 {
            assert(lex_lt(q[0], q[i]));
            assert(lex_lt(p[0], p[j]));
            lemma_lex_lt_connected(p[0], q[0]);
            assert(false);
        }
        assert(p[0] == q[0]);
        let pt = p.drop_first();
        let qt = q.drop_first();
        assert forall|x: Seq<char>| pt.to_set().contains(x) == qt.to_set().contains(x) by {
            lemma_drop_first_set(p, x);
            lemma_drop_first_set(q, x);
        }
        assert(pt.to_set() =~= qt.to_set());
        assert(strictly_sorted(pt)) by {
            assert forall|i1: int, i2: int| 0 <= i1 < i2 < pt.len() implies lex_lt(
                pt[i1],
                pt[i2],
            ) by {
                assert(pt[i1] == p[i1 + 1] && pt[i2] == p[i2 + 1]);
            }
        }
        assert(strictly_sorted(qt)) by {
            assert forall|i1: int, i2: int| 0 <= i1 < i2 < qt.len() implies lex_lt(
                qt[i1],
                qt[i2],
            ) by {
                assert(qt[i1] == q[i1 + 1] && qt[i2] == q[i2 + 1]);
            }
        }
        lemma_strictly_sorted_unique(pt, qt);
        assert forall|k: int| 0 <= k < p.len() implies p[k] == q[k] by {
            if k > 0 {
                assert(p[k] == pt[k - 1] && q[k] == qt[k - 1]);
            }
        }
        assert(p =~= q);
    }
}

/// In a strictly ascending sequence, the tail's key set is the whole set
/// without the head.
proof fn lemma_drop_first_set(p: Seq<Seq<char>>, x: Seq<char>)
    requires
        strictly_sorted(p),
        p.len() > 0,
    ensures
        p.drop_first().to_set().contains(x) == (p.to_set().contains(x) && x != p[0]),
{
    let pt = p.drop_first();
    if pt.to_set().contains(x) {
        let i = choose|i: int| 0 <= i < pt.len() && pt[i] == x;
        assert(p[i + 1] == x);
        assert(lex_lt(p[0], p[i + 1]));
        lemma_lex_lt_connected(p[0], x);
        assert(p.to_set().contains(x) && x != p[0]);
    }
    if p.to_set().contains(x) && x != p[0] {
        let i = choose|i: int| 0 <= i < p.len() && p[i] == x;
        assert(i > 0);
        assert(pt[i - 1] == x);
        assert(pt.to_set().contains(x));
    }
}

/// Law: the lock pipeline is order-independent. Two runs whose inputs
/// declare the same set of identity keys produce the same key sequence,
/// whatever order the providers delivered the entries in.
pub proof fn lemma_lock_pipeline_order_independent(
    in1: Seq<Repository>,
    out1: Seq<Repository>,
    in2: Seq<Repository>,
    out2: Seq<Repository>,
)
    requires
        lock_pipeline_post(in1, out1),
        lock_pipeline_post(in2, out2),
        path_seq(in1).to_set() == path_seq(in2).to_set(),
    ensures
        path_seq(out1) == path_seq(out2),
{
    lemma_strictly_sorted_unique(path_seq(out1), path_seq(out2));
}

} // verus!
