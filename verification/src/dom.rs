//! Dominator-tree mathematics shared by phi placement and control structuring:
//! one implementation, so that no two passes can disagree on what dominates
//! what.
//!
//! A graph is a list of predecessor lists (or successor lists, for the reverse
//! direction), one per block. Everything is stated over *paths*: a block `d`
//! dominates a block `i` when it lies on every path from the entry to `i`.

use std::collections::BTreeSet;

use vstd::prelude::*;
use vstd::std_specs::iter::IteratorSpec;

use crate::ir::{CfgArtifact, CfgBlock, Successor};
use crate::va::Va;

verus! {

broadcast use {
    vstd::std_specs::btree::group_btree_axioms,
    vstd::laws_cmp::group_laws_cmp,
    vstd::set::group_set_axioms,
};

/// `a` is listed as a predecessor of `b`.
pub open spec fn edge(pred: Seq<Vec<usize>>, a: int, b: int) -> bool {
    &&& 0 <= b < pred.len()
    &&& exists|k: int| 0 <= k < pred[b]@.len() && #[trigger] pred[b]@[k] == a
}

/// The `k`-th step of `p` follows an edge.
pub open spec fn step_ok(pred: Seq<Vec<usize>>, p: Seq<int>, k: int) -> bool {
    edge(pred, p[k], p[k + 1])
}

/// `p` is a non-empty walk over blocks below `n` along the edges of `pred`.
pub open spec fn is_path(pred: Seq<Vec<usize>>, n: int, p: Seq<int>) -> bool {
    &&& p.len() > 0
    &&& forall|k: int| 0 <= k < p.len() ==> 0 <= #[trigger] p[k] < n
    &&& forall|k: int| 0 <= k < p.len() - 1 ==> #[trigger] step_ok(pred, p, k)
}

/// `p` leads from `a` to `b`.
pub open spec fn path_between(pred: Seq<Vec<usize>>, n: int, a: int, b: int, p: Seq<int>) -> bool {
    &&& is_path(pred, n, p)
    &&& p[0] == a
    &&& p.last() == b
}

/// Some path leads from `a` to `b`.
pub open spec fn reaches(pred: Seq<Vec<usize>>, n: int, a: int, b: int) -> bool {
    exists|p: Seq<int>| path_between(pred, n, a, b, p)
}

/// Every path from `a` to `b` passes through `d`.
pub open spec fn on_every_path(pred: Seq<Vec<usize>>, n: int, a: int, b: int, d: int) -> bool {
    forall|p: Seq<int>| path_between(pred, n, a, b, p) ==> #[trigger] p.contains(d)
}

/// `d` dominates `i`: it lies on every path from block 0 to `i`. Dominance is
/// only defined over paths from the entry, so a block that no path reaches is
/// dominated by itself alone.
pub open spec fn dominates(pred: Seq<Vec<usize>>, n: int, d: int, i: int) -> bool {
    if reaches(pred, n, 0, i) {
        0 <= d < n && on_every_path(pred, n, 0, i, d)
    } else {
        d == i
    }
}

/// `e` leaves the function: it is marked as an exit, it is a dead end that is
/// not an abort, or it names the synthetic exit `n` as a successor.
pub open spec fn leaves(n: int, succ: Seq<Vec<usize>>, is_exit: Seq<bool>, is_abort: Seq<bool>, e: int) -> bool {
    ||| is_exit[e]
    ||| succ[e]@.len() == 0 && !is_abort[e]
    ||| edge(succ, n, e)
}

/// `p` leads from `i` along successor edges to a block that leaves the function.
pub open spec fn exit_path(
    n: int,
    succ: Seq<Vec<usize>>,
    is_exit: Seq<bool>,
    is_abort: Seq<bool>,
    i: int,
    p: Seq<int>,
) -> bool {
    &&& p.len() > 0
    &&& p[0] == i
    &&& forall|k: int| 0 <= k < p.len() ==> 0 <= #[trigger] p[k] < n
    &&& forall|k: int| 0 <= k < p.len() - 1 ==> #[trigger] exit_step(succ, p, k)
    &&& leaves(n, succ, is_exit, is_abort, p.last())
}

/// The `k`-th step of `p` goes to a listed successor.
pub open spec fn exit_step(succ: Seq<Vec<usize>>, p: Seq<int>, k: int) -> bool {
    edge(succ, p[k + 1], p[k])
}

/// `d` post-dominates `i`: it lies on every path from `i` out of the function.
pub open spec fn postdominates(
    n: int,
    succ: Seq<Vec<usize>>,
    is_exit: Seq<bool>,
    is_abort: Seq<bool>,
    d: int,
    i: int,
) -> bool {
    &&& 0 <= d < n
    &&& forall|p: Seq<int>|
        exit_path(n, succ, is_exit, is_abort, i, p) ==> #[trigger] p.contains(d)
}

// ---------------------------------------------------------------------------
// Paths
// ---------------------------------------------------------------------------

proof fn lemma_path_single(pred: Seq<Vec<usize>>, n: int, a: int)
    requires
        0 <= a < n,
    ensures
        path_between(pred, n, a, a, seq![a]),
{
}

proof fn lemma_path_push(pred: Seq<Vec<usize>>, n: int, a: int, b: int, c: int, p: Seq<int>)
    requires
        path_between(pred, n, a, b, p),
        edge(pred, b, c),
        0 <= c < n,
    ensures
        path_between(pred, n, a, c, p.push(c)),
{
    let q = p.push(c);
    assert forall|k: int| 0 <= k < q.len() - 1 implies #[trigger] step_ok(pred, q, k) by {
        if k < p.len() - 1 {
            assert(step_ok(pred, p, k));
        }
    }
}

proof fn lemma_path_prefix(pred: Seq<Vec<usize>>, n: int, a: int, b: int, p: Seq<int>, k: int)
    requires
        path_between(pred, n, a, b, p),
        0 <= k < p.len(),
    ensures
        path_between(pred, n, a, p[k], p.take(k + 1)),
{
    let q = p.take(k + 1);
    assert forall|j: int| 0 <= j < q.len() - 1 implies #[trigger] step_ok(pred, q, j) by {
        assert(step_ok(pred, p, j));
    }
}

/// `q` followed by what comes after index `k` of `p`.
pub open spec fn splice(q: Seq<int>, p: Seq<int>, k: int) -> Seq<int> {
    q + p.skip(k + 1)
}

proof fn lemma_path_splice(pred: Seq<Vec<usize>>, n: int, a: int, b: int, p: Seq<int>, k: int, q: Seq<int>)
    requires
        path_between(pred, n, a, b, p),
        0 <= k < p.len(),
        path_between(pred, n, a, p[k], q),
    ensures
        path_between(pred, n, a, b, splice(q, p, k)),
{
    let r = splice(q, p, k);
    assert(r.len() == q.len() + p.len() - k - 1);
    assert forall|j: int| 0 <= j < r.len() implies 0 <= #[trigger] r[j] < n by {
        if j < q.len() {
            assert(r[j] == q[j]);
        } else {
            assert(r[j] == p[j - q.len() + k + 1]);
        }
    }
    assert forall|j: int| 0 <= j < r.len() - 1 implies #[trigger] step_ok(pred, r, j) by {
        if j < q.len() - 1 {
            assert(step_ok(pred, q, j));
        } else if j == q.len() - 1 {
            assert(step_ok(pred, p, k));
        } else {
            assert(step_ok(pred, p, j - q.len() + k + 1));
        }
    }
    if k == p.len() - 1 {
        assert(r =~= q);
    } else {
        assert(r.last() == p.last());
    }
}

// ---------------------------------------------------------------------------
// The shared fixed point
// ---------------------------------------------------------------------------

/// Total number of elements in a list of sets.
spec fn weight(dom: Seq<BTreeSet<usize>>) -> nat
    decreases dom.len(),
{
    if dom.len() == 0 {
        0
    } else {
        weight(dom.drop_last()) + dom.last()@.len()
    }
}

proof fn lemma_weight_update(dom: Seq<BTreeSet<usize>>, i: int, s: BTreeSet<usize>)
    requires
        0 <= i < dom.len(),
        s@.len() < dom[i]@.len(),
    ensures
        weight(dom.update(i, s)) < weight(dom),
    decreases dom.len(),
{
    let upd = dom.update(i, s);
    if i == dom.len() - 1 {
        assert(upd.drop_last() =~= dom.drop_last());
    } else {
        assert(upd.drop_last() =~= dom.drop_last().update(i, s));
        lemma_weight_update(dom.drop_last(), i, s);
    }
}

/// Every element is below `total` and every set is finite.
spec fn bounded(dom: Seq<BTreeSet<usize>>, total: int) -> bool {
    &&& dom.len() == total
    &&& forall|i: int, d: usize|
        0 <= i < total && #[trigger] dom[i]@.contains(d) ==> d < total
    &&& forall|i: int| 0 <= i < total ==> (#[trigger] dom[i])@.finite()
}

/// `d` is in the set of every predecessor of `i`.
spec fn in_all_preds(dom: Seq<BTreeSet<usize>>, preds: Seq<Vec<usize>>, i: int, d: usize) -> bool {
    forall|k: int|
        0 <= k < preds[i]@.len() ==> dom[#[trigger] preds[i]@[k] as int]@.contains(d)
}

/// Nothing that belongs in a set is missing from it.
spec fn sound(dom: Seq<BTreeSet<usize>>, preds: Seq<Vec<usize>>, total: int, root: int) -> bool {
    forall|i: int, d: usize|
        0 <= i < total && d < total && on_every_path(preds, total, root, i, d as int)
            ==> #[trigger] dom[i]@.contains(d)
}

/// One step of the equations never adds anything.
spec fn shrinking(dom: Seq<BTreeSet<usize>>, preds: Seq<Vec<usize>>, total: int, root: int) -> bool {
    forall|i: int, d: usize|
        0 <= i < total && i != root && d < total && (d == i || in_all_preds(dom, preds, i, d))
            ==> #[trigger] dom[i]@.contains(d)
}

/// One step of the equations removes nothing at block `i`.
spec fn stable_at(dom: Seq<BTreeSet<usize>>, preds: Seq<Vec<usize>>, i: int) -> bool {
    forall|d: usize| #[trigger]
        dom[i]@.contains(d) ==> d == i || in_all_preds(dom, preds, i, d)
}

spec fn preds_ok(preds: Seq<Vec<usize>>, total: int) -> bool {
    &&& preds.len() == total
    &&& forall|i: int, k: int|
        0 <= i < total && 0 <= k < preds[i]@.len() ==> #[trigger] preds[i]@[k] < total
}

proof fn lemma_every_path_pred(preds: Seq<Vec<usize>>, total: int, root: int, i: int, d: int, k: int)
    requires
        preds_ok(preds, total),
        0 <= i < total,
        on_every_path(preds, total, root, i, d),
        d != i,
        0 <= k < preds[i]@.len(),
    ensures
        on_every_path(preds, total, root, preds[i]@[k] as int, d),
{
    let p0 = preds[i]@[k] as int;
    assert(edge(preds, p0, i));
    assert forall|p: Seq<int>| path_between(preds, total, root, p0, p) implies #[trigger] p.contains(d) by {
        lemma_path_push(preds, total, root, p0, i, p);
        let q = p.push(i);
        assert(q.contains(d));
        let j = choose|j: int| 0 <= j < q.len() && q[j] == d;
        assert(p[j] == d);
    }
}

proof fn lemma_stable_exact(
    dom: Seq<BTreeSet<usize>>,
    preds: Seq<Vec<usize>>,
    total: int,
    root: int,
    d: usize,
    i: int,
    p: Seq<int>,
)
    requires
        preds_ok(preds, total),
        bounded(dom, total),
        0 <= root < total <= usize::MAX,
        0 <= i < total,
        dom[root]@ == Set::<usize>::empty().insert(root as usize),
        forall|j: int| 0 <= j < total && j != root ==> #[trigger] stable_at(dom, preds, j),
        dom[i]@.contains(d),
        path_between(preds, total, root, i, p),
    ensures
        p.contains(d as int),
    decreases p.len(),
{
    if d == i {
        assert(p[p.len() - 1] == d);
    } else if i == root {
    } else {
        assert(stable_at(dom, preds, i));
        assert(p.len() > 1);
        let m = p.len() - 2;
        assert(step_ok(preds, p, m));
        let k = choose|k: int| 0 <= k < preds[i]@.len() && #[trigger] preds[i]@[k] == p[m];
        assert(dom[preds[i]@[k] as int]@.contains(d));
        lemma_path_prefix(preds, total, root, i, p, m);
        let q = p.take(m + 1);
        lemma_stable_exact(dom, preds, total, root, d, p[m], q);
        let j = choose|j: int| 0 <= j < q.len() && q[j] == d;
        assert(p[j] == d);
    }
}

fn full_set(total: usize) -> (s: BTreeSet<usize>)
    ensures
        forall|d: usize| s@.contains(d) <==> d < total,
        s@.finite(),
{
    let mut s: BTreeSet<usize> = BTreeSet::new();
    let mut k: usize = 0;
    while k < total
        invariant
            k <= total,
            s@.finite(),
            forall|d: usize| s@.contains(d) <==> d < k,
        decreases total - k,
    {
        s.insert(k);
        k = k + 1;
    }
    s
}

/// The elements below `total` that both sets hold.
fn intersect(total: usize, a: &BTreeSet<usize>, b: &BTreeSet<usize>) -> (s: BTreeSet<usize>)
    ensures
        forall|d: usize| s@.contains(d) <==> d < total && a@.contains(d) && b@.contains(d),
        s@.finite(),
{
    let mut s: BTreeSet<usize> = BTreeSet::new();
    let mut k: usize = 0;
    while k < total
        invariant
            k <= total,
            s@.finite(),
            forall|d: usize| s@.contains(d) <==> d < k && a@.contains(d) && b@.contains(d),
        decreases total - k,
    {
        if a.contains(&k) && b.contains(&k) {
            s.insert(k);
        }
        k = k + 1;
    }
    s
}

/// What the equations give at block `i`: the block itself and whatever is in
/// the set of every predecessor.
fn meet_at(
    total: usize,
    preds: &Vec<Vec<usize>>,
    dom: &Vec<BTreeSet<usize>>,
    i: usize,
) -> (s: BTreeSet<usize>)
    requires
        preds_ok(preds@, total as int),
        bounded(dom@, total as int),
        i < total,
    ensures
        forall|d: usize|
            s@.contains(d) <==> d < total && (d == i || in_all_preds(dom@, preds@, i as int, d)),
        s@.finite(),
{
    let mut acc = full_set(total);
    let mut k: usize = 0;
    let row = &preds[i];
    while k < row.len()
        invariant
            k <= row@.len(),
            i < total,
            row == preds@[i as int],
            preds_ok(preds@, total as int),
            bounded(dom@, total as int),
            acc@.finite(),
            forall|d: usize|
                acc@.contains(d) <==> d < total && (forall|j: int|
                    0 <= j < k ==> dom@[#[trigger] row@[j] as int]@.contains(d)),
        decreases row@.len() - k,
    {
        let p: usize = row[k];
        assert(p == preds@[i as int]@[k as int]);
        let next = intersect(total, &acc, &dom[p]);
        assert forall|d: usize| next@.contains(d) <==> d < total && (forall|j: int|
            0 <= j < k + 1 ==> dom@[#[trigger] row@[j] as int]@.contains(d)) by {
            if next@.contains(d) {
                assert forall|j: int| 0 <= j < k + 1 implies dom@[#[trigger] row@[j] as int]@.contains(d) by {
                    assert(acc@.contains(d));
                }
            }
            if d < total && (forall|j: int|
                0 <= j < k + 1 ==> dom@[#[trigger] row@[j] as int]@.contains(d)) {
                assert(dom@[row@[k as int] as int]@.contains(d));
                assert(acc@.contains(d));
            }
        }
        acc = next;
        k = k + 1;
    }
    acc.insert(i);
    acc
}

/// The greatest solution of the dominance equations with `root` pinned to
/// itself: `d` stays in the set of `i` exactly when every path from `root` to
/// `i` passes through it.
fn solve(total: usize, root: usize, preds: &Vec<Vec<usize>>) -> (dom: Vec<BTreeSet<usize>>)
    requires
        root < total,
        preds_ok(preds@, total as int),
    ensures
        bounded(dom@, total as int),
        forall|i: int, d: usize|
            0 <= i < total ==> (#[trigger] dom@[i]@.contains(d) <==> d < total && on_every_path(
                preds@,
                total as int,
                root as int,
                i,
                d as int,
            )),
{
    let mut dom: Vec<BTreeSet<usize>> = Vec::new();
    let mut k: usize = 0;
    while k < total
        invariant
            k <= total,
            root < total,
            dom@.len() == k,
            forall|i: int| 0 <= i < k ==> (#[trigger] dom@[i])@.finite(),
            forall|i: int, d: usize|
                0 <= i < k ==> (#[trigger] dom@[i]@.contains(d) <==> if i == root {
                    d == root
                } else {
                    d < total
                }),
        decreases total - k,
    {
        if k == root {
            let mut s: BTreeSet<usize> = BTreeSet::new();
            s.insert(root);
            dom.push(s);
        } else {
            dom.push(full_set(total));
        }
        k = k + 1;
    }
    assert(dom@[root as int]@ =~= Set::<usize>::empty().insert(root));
    proof {
        lemma_path_single(preds@, total as int, root as int);
        let single = seq![root as int];
        assert forall|d: usize|
            d < total && on_every_path(preds@, total as int, root as int, root as int, d as int) implies d
            == root by {
            assert(single.contains(d as int));
        }
    }
    let mut changed = true;
    while changed
        invariant
            root < total,
            preds_ok(preds@, total as int),
            bounded(dom@, total as int),
            dom@[root as int]@ == Set::<usize>::empty().insert(root),
            sound(dom@, preds@, total as int, root as int),
            shrinking(dom@, preds@, total as int, root as int),
            !changed ==> forall|j: int|
                0 <= j < total && j != root ==> #[trigger] stable_at(dom@, preds@, j),
        decreases weight(dom@), changed as int,
    {
        changed = false;
        let ghost w0 = weight(dom@);
        let mut i: usize = 0;
        while i < total
            invariant
                i <= total,
                root < total,
                preds_ok(preds@, total as int),
                bounded(dom@, total as int),
                dom@[root as int]@ == Set::<usize>::empty().insert(root),
                sound(dom@, preds@, total as int, root as int),
                shrinking(dom@, preds@, total as int, root as int),
                !changed ==> forall|j: int|
                    0 <= j < i && j != root ==> #[trigger] stable_at(dom@, preds@, j),
                changed ==> weight(dom@) < w0,
                !changed ==> weight(dom@) == w0,
            decreases total - i,
        {
            if i != root {
                let new = meet_at(total, preds, &dom, i);
                let ghost before = dom@;
                proof {
                    assert forall|d: usize| new@.contains(d) implies before[i as int]@.contains(d) by {
                        assert(d < total && (d == i || in_all_preds(before, preds@, i as int, d)));
                    }
                    assert(new@.subset_of(before[i as int]@));
                    vstd::set_lib::lemma_len_subset(new@, before[i as int]@);
                }
                if new.len() != dom[i].len() {
                    proof {
                        lemma_weight_update(before, i as int, new);
                    }
                    dom[i] = new;
                    changed = true;
                    proof {
                        lemma_update_keeps(before, dom@, preds@, total as int, root as int, i as int);
                    }
                } else {
                    proof {
                        vstd::set_lib::lemma_subset_equality(new@, before[i as int]@);
                        assert(stable_at(dom@, preds@, i as int));
                    }
                }
            }
            i = i + 1;
        }
    }
    proof {
        assert forall|i: int, d: usize| 0 <= i < total implies (#[trigger] dom@[i]@.contains(d) <==> d
            < total && on_every_path(preds@, total as int, root as int, i, d as int)) by {
            if dom@[i]@.contains(d) {
                assert forall|p: Seq<int>|
                    path_between(preds@, total as int, root as int, i, p) implies #[trigger] p.contains(
                    d as int,
                ) by {
                    lemma_stable_exact(dom@, preds@, total as int, root as int, d, i, p);
                }
            }
        }
    }
    dom
}

proof fn lemma_update_keeps(
    before: Seq<BTreeSet<usize>>,
    after: Seq<BTreeSet<usize>>,
    preds: Seq<Vec<usize>>,
    total: int,
    root: int,
    i: int,
)
    requires
        preds_ok(preds, total),
        bounded(before, total),
        0 <= i < total,
        i != root,
        sound(before, preds, total, root),
        shrinking(before, preds, total, root),
        after.len() == total,
        after == before.update(i, after[i]),
        after[i]@.finite(),
        forall|d: usize|
            #[trigger] after[i]@.contains(d) <==> d < total && (d == i || in_all_preds(before, preds, i, d)),
    ensures
        bounded(after, total),
        sound(after, preds, total, root),
        shrinking(after, preds, total, root),
{
    assert forall|j: int, d: usize|
        0 <= j < total && d < total && on_every_path(preds, total, root, j, d as int) implies #[trigger] after[j]@.contains(
        d,
    ) by {
        assert(before[j]@.contains(d));
        if j == i && d != i {
            assert forall|k: int| 0 <= k < preds[i]@.len() implies before[#[trigger] preds[i]@[k] as int]@.contains(
                d,
            ) by {
                lemma_every_path_pred(preds, total, root, i, d as int, k);
            }
            assert(in_all_preds(before, preds, i, d));
        }
        if j != i {
            assert(after[j] == before[j]);
        } else {
            assert(d == i || in_all_preds(before, preds, i, d));
            assert(after[i]@.contains(d));
        }
    }
    assert forall|j: int, d: usize| 0 <= j < total && #[trigger] after[j]@.contains(d) implies before[j]@.contains(
        d,
    ) by {
        if j == i {
            assert(d < total && (d == i || in_all_preds(before, preds, i, d)));
        } else {
            assert(after[j] == before[j]);
        }
    }
    assert forall|j: int, d: usize|
        0 <= j < total && j != root && d < total && (d == j || in_all_preds(after, preds, j, d)) implies #[trigger] after[j]@.contains(
        d,
    ) by {
        if d != j {
            assert forall|k: int| 0 <= k < preds[j]@.len() implies before[#[trigger] preds[j]@[k] as int]@.contains(
                d,
            ) by {
                assert(after[preds[j]@[k] as int]@.contains(d));
            }
            assert(in_all_preds(before, preds, j, d));
        }
        assert(before[j]@.contains(d));
        if j != i {
            assert(after[j] == before[j]);
        }
    }
}


// ---------------------------------------------------------------------------
// Reachability
// ---------------------------------------------------------------------------

/// `row` lists `b`.
spec fn lists(row: Seq<usize>, b: int) -> bool {
    exists|k: int| 0 <= k < row.len() && #[trigger] row[k] == b
}

/// `succ` inverts the predecessor lists of the blocks below `i`, and the first
/// `k` entries of block `i`.
spec fn inverted(succ: Seq<Vec<usize>>, pred: Seq<Vec<usize>>, n: int, i: int, k: int) -> bool {
    &&& succ.len() == n
    &&& forall|a: int, b: int|
        0 <= a < n ==> (#[trigger] lists(succ[a]@, b) <==> {
            ||| 0 <= b < i && edge(pred, a, b)
            ||| b == i && exists|j: int| 0 <= j < k && #[trigger] pred[i]@[j] == a
        })
}

proof fn lemma_lists_push(row: Seq<usize>, x: usize, b: int)
    ensures
        lists(row.push(x), b) <==> lists(row, b) || b == x,
{
    let r = row.push(x);
    if lists(row, b) {
        let k = choose|k: int| 0 <= k < row.len() && #[trigger] row[k] == b;
        assert(r[k] == b);
    }
    if b == x {
        assert(r[row.len() as int] == b);
    }
    if lists(r, b) && b != x {
        let k = choose|k: int| 0 <= k < r.len() && #[trigger] r[k] == b;
        assert(row[k] == b);
    }
}

fn invert(n: usize, pred: &[Vec<usize>]) -> (succ: Vec<Vec<usize>>)
    requires
        n <= pred@.len(),
    ensures
        succ@.len() == n,
        forall|a: int, b: int|
            0 <= a < n ==> (#[trigger] lists(succ@[a]@, b) <==> 0 <= b < n && edge(pred@, a, b)),
        forall|a: int, k: int|
            0 <= a < n && 0 <= k < succ@[a]@.len() ==> #[trigger] succ@[a]@[k] < n,
{
    let mut succ: Vec<Vec<usize>> = Vec::new();
    let mut m: usize = 0;
    while m < n
        invariant
            m <= n,
            succ@.len() == m,
            forall|a: int| 0 <= a < m ==> (#[trigger] succ@[a])@.len() == 0,
        decreases n - m,
    {
        succ.push(Vec::new());
        m = m + 1;
    }
    let mut i: usize = 0;
    while i < n
        invariant
            i <= n <= pred@.len(),
            inverted(succ@, pred@, n as int, i as int, 0),
        decreases n - i,
    {
        let row = &pred[i];
        let mut k: usize = 0;
        while k < row.len()
            invariant
                k <= row@.len(),
                i < n <= pred@.len(),
                *row == pred@[i as int],
                inverted(succ@, pred@, n as int, i as int, k as int),
            decreases row@.len() - k,
        {
            let p: usize = row[k];
            let ghost before = succ@;
            if p < n {
                succ[p].push(i);
                proof {
                    assert forall|a: int, b: int| 0 <= a < n implies (#[trigger] lists(succ@[a]@, b) <==> {
                        ||| 0 <= b < i && edge(pred@, a, b)
                        ||| b == i && exists|j: int|
                            0 <= j < k + 1 && #[trigger] pred@[i as int]@[j] == a
                    }) by {
                        assert(lists(before[a]@, b) <==> {
                            ||| 0 <= b < i && edge(pred@, a, b)
                            ||| b == i && exists|j: int|
                                0 <= j < k && #[trigger] pred@[i as int]@[j] == a
                        });
                        if a == p {
                            lemma_lists_push(before[a]@, i, b);
                            assert(pred@[i as int]@[k as int] == a);
                        }
                    }
                }
            } else {
                proof {
                    assert forall|a: int, b: int| 0 <= a < n implies (#[trigger] lists(succ@[a]@, b) <==> {
                        ||| 0 <= b < i && edge(pred@, a, b)
                        ||| b == i && exists|j: int|
                            0 <= j < k + 1 && #[trigger] pred@[i as int]@[j] == a
                    }) by {
                        assert(pred@[i as int]@[k as int] != a);
                    }
                }
            }
            k = k + 1;
        }
        proof {
            assert forall|a: int, b: int| 0 <= a < n implies (#[trigger] lists(succ@[a]@, b) <==> {
                ||| 0 <= b < i + 1 && edge(pred@, a, b)
                ||| b == i + 1 && exists|j: int| 0 <= j < 0 && #[trigger] pred@[i + 1]@[j] == a
            }) by {}
        }
        i = i + 1;
    }
    proof {
        assert forall|a: int, k: int|
            0 <= a < n && 0 <= k < succ@[a]@.len() implies #[trigger] succ@[a]@[k] < n by {
            assert(lists(succ@[a]@, succ@[a]@[k] as int));
        }
    }
    succ
}

/// How many entries are still `false`.
spec fn unmarked(m: Seq<bool>) -> nat
    decreases m.len(),
{
    if m.len() == 0 {
        0
    } else {
        unmarked(m.drop_last()) + if m.last() { 0nat } else { 1nat }
    }
}

proof fn lemma_mark(m: Seq<bool>, i: int)
    requires
        0 <= i < m.len(),
        !m[i],
    ensures
        unmarked(m.update(i, true)) < unmarked(m),
    decreases m.len(),
{
    let u = m.update(i, true);
    if i == m.len() - 1 {
        assert(u.drop_last() =~= m.drop_last());
    } else {
        assert(u.drop_last() =~= m.drop_last().update(i, true));
        lemma_mark(m.drop_last(), i);
    }
}

/// Every marked block other than those waiting on the stack, and other than
/// `cur`, has all its successors marked.
spec fn closed_but(marks: Seq<bool>, succ: Seq<Vec<usize>>, stack: Seq<usize>, cur: int) -> bool {
    forall|a: int, k: int|
        0 <= a < marks.len() && marks[a] && a != cur && !lists(stack, a) && 0 <= k < succ[a]@.len()
            ==> marks[#[trigger] succ[a]@[k] as int]
}

proof fn lemma_closed_marks_all(
    marks: Seq<bool>,
    pred: Seq<Vec<usize>>,
    n: int,
    i: int,
    p: Seq<int>,
)
    requires
        marks.len() == n,
        n > 0,
        marks[0],
        forall|a: int, b: int| 0 <= a < n && 0 <= b < n && marks[a] && #[trigger] edge(pred, a, b) ==> marks[b],
        path_between(pred, n, 0, i, p),
    ensures
        marks[i],
    decreases p.len(),
{
    if p.len() > 1 {
        let m = p.len() - 2;
        lemma_path_prefix(pred, n, 0, i, p, m);
        lemma_closed_marks_all(marks, pred, n, p[m], p.take(m + 1));
        assert(step_ok(pred, p, m));
        assert(edge(pred, p[m], p[m + 1]));
    }
}

/// Which blocks some path from block 0 leads to.
pub fn reachable_from_entry(n: usize, pred: &[Vec<usize>]) -> (reachable: Vec<bool>)
    requires
        0 < n <= pred@.len(),
    ensures
        reachable@.len() == n,
        forall|i: int| 0 <= i < n ==> (#[trigger] reachable@[i] <==> reaches(pred@, n as int, 0, i)),
{
    let succ = invert(n, pred);
    let mut marks: Vec<bool> = vec![false; n];
    marks[0] = true;
    let mut stack: Vec<usize> = Vec::new();
    stack.push(0);
    proof {
        lemma_path_single(pred@, n as int, 0);
        assert(stack@[0] == 0);
    }
    while stack.len() > 0
        invariant
            0 < n <= pred@.len(),
            marks@.len() == n,
            marks@[0],
            succ@.len() == n,
            forall|a: int, b: int|
                0 <= a < n ==> (#[trigger] lists(succ@[a]@, b) <==> 0 <= b < n && edge(pred@, a, b)),
            forall|a: int, k: int|
                0 <= a < n && 0 <= k < succ@[a]@.len() ==> #[trigger] succ@[a]@[k] < n,
            forall|k: int| 0 <= k < stack@.len() ==> #[trigger] stack@[k] < n && marks@[stack@[k] as int],
            forall|i: int| 0 <= i < n && #[trigger] marks@[i] ==> reaches(pred@, n as int, 0, i),
            closed_but(marks@, succ@, stack@, -1),
        decreases unmarked(marks@), stack@.len(),
    {
        let ghost stack0 = stack@;
        let ghost u0 = unmarked(marks@);
        let b: usize = stack.pop().unwrap();
        proof {
            assert(b == stack0[stack0.len() - 1]);
            assert(marks@[b as int]);
            assert forall|a: int, k: int|
                0 <= a < marks@.len() && marks@[a] && a != b && !lists(stack@, a) && 0 <= k < succ@[a]@.len()
                    implies marks@[#[trigger] succ@[a]@[k] as int] by {
                if lists(stack0, a) {
                    let j = choose|j: int| 0 <= j < stack0.len() && #[trigger] stack0[j] == a;
                    assert(stack@[j] == a);
                }
            }
        }
        let mut k: usize = 0;
        let row = &succ[b];
        while k < row.len()
            invariant
                k <= row@.len(),
                b < n <= pred@.len(),
                *row == succ@[b as int],
                marks@.len() == n,
                marks@[0],
                marks@[b as int],
                succ@.len() == n,
                forall|a: int, c: int|
                    0 <= a < n ==> (#[trigger] lists(succ@[a]@, c) <==> 0 <= c < n && edge(pred@, a, c)),
                forall|a: int, j: int|
                    0 <= a < n && 0 <= j < succ@[a]@.len() ==> #[trigger] succ@[a]@[j] < n,
                forall|j: int|
                    0 <= j < stack@.len() ==> #[trigger] stack@[j] < n && marks@[stack@[j] as int],
                forall|i: int| 0 <= i < n && #[trigger] marks@[i] ==> reaches(pred@, n as int, 0, i),
                closed_but(marks@, succ@, stack@, b as int),
                forall|j: int| 0 <= j < k ==> marks@[#[trigger] row@[j] as int],
                unmarked(marks@) < u0 || (unmarked(marks@) == u0 && stack@.len() < stack0.len()),
            decreases row@.len() - k,
        {
            let s: usize = row[k];
            assert(succ@[b as int]@[k as int] == s);
            if !marks[s] {
                let ghost marks0 = marks@;
                let ghost st = stack@;
                proof {
                    lemma_mark(marks@, s as int);
                    assert(lists(succ@[b as int]@, s as int));
                    let p = choose|p: Seq<int>| path_between(pred@, n as int, 0, b as int, p);
                    lemma_path_push(pred@, n as int, 0, b as int, s as int, p);
                }
                marks[s] = true;
                stack.push(s);
                proof {
                    assert forall|a: int, j: int|
                        0 <= a < marks@.len() && marks@[a] && a != b && !lists(stack@, a) && 0 <= j
                            < succ@[a]@.len() implies marks@[#[trigger] succ@[a]@[j] as int] by {
                        lemma_lists_push(st, s, a);
                        assert(a != s);
                        assert(marks0[a]);
                    }
                }
            }
            k = k + 1;
        }
        proof {
            assert forall|a: int, j: int|
                0 <= a < marks@.len() && marks@[a] && a != -1 && !lists(stack@, a) && 0 <= j
                    < succ@[a]@.len() implies marks@[#[trigger] succ@[a]@[j] as int] by {
                if a == b {
                    assert(marks@[row@[j] as int]);
                }
            }
        }
    }
    proof {
        assert forall|a: int, b: int| 0 <= a < n && 0 <= b < n && marks@[a] && #[trigger] edge(pred@, a, b) implies marks@[b] by {
            assert(lists(succ@[a]@, b));
            let k = choose|k: int| 0 <= k < succ@[a]@.len() && #[trigger] succ@[a]@[k] == b;
            assert(!lists(stack@, a));
            assert(marks@[succ@[a]@[k] as int]);
        }
        assert forall|i: int| 0 <= i < n implies (#[trigger] marks@[i] <==> reaches(pred@, n as int, 0, i)) by {
            if reaches(pred@, n as int, 0, i) {
                let p = choose|p: Seq<int>| path_between(pred@, n as int, 0, i, p);
                lemma_closed_marks_all(marks@, pred@, n as int, i, p);
            }
        }
    }
    marks
}

// ---------------------------------------------------------------------------
// Dominators and post-dominators
// ---------------------------------------------------------------------------

/// Forward dominator sets: the `i`-th holds every block that dominates block
/// `i`. Block 0 is the entry.
///
/// Blocks that no path reaches are left out of the lattice and get only
/// themselves: two of them must never pick each other as a dominator.
pub fn dominators_fwd(n: usize, pred: &[Vec<usize>]) -> (dom: Vec<BTreeSet<usize>>)
    requires
        n <= pred@.len(),
        forall|i: int, k: int|
            1 <= i < n && reaches(pred@, n as int, 0, i) && 0 <= k < pred@[i]@.len() ==> #[trigger] pred@[i]@[k]
                < n,
    ensures
        dom@.len() == n,
        forall|i: int, d: usize|
            0 <= i < n ==> (#[trigger] dom@[i]@.contains(d) <==> dominates(pred@, n as int, d as int, i)),
        forall|i: int| 0 <= i < n ==> (#[trigger] dom@[i])@.finite(),
{
    if n == 0 {
        return Vec::new();
    }
    let reachable = reachable_from_entry(n, pred);
    let mut inner: Vec<Vec<usize>> = Vec::new();
    let mut i: usize = 0;
    while i < n
        invariant
            i <= n <= pred@.len(),
            inner@.len() == i,
            forall|j: int, k: int| 0 <= j < i && 0 <= k < inner@[j]@.len() ==> #[trigger] inner@[j]@[k] < n,
            forall|j: int, a: int|
                0 <= j < i && 0 <= a < n ==> (#[trigger] lists(inner@[j]@, a) <==> edge(pred@, a, j)),
        decreases n - i,
    {
        let row = &pred[i];
        let mut kept: Vec<usize> = Vec::new();
        let mut k: usize = 0;
        while k < row.len()
            invariant
                k <= row@.len(),
                i < n <= pred@.len(),
                *row == pred@[i as int],
                forall|j: int| 0 <= j < kept@.len() ==> #[trigger] kept@[j] < n,
                forall|a: int|
                    0 <= a < n ==> (#[trigger] lists(kept@, a) <==> exists|j: int|
                        0 <= j < k && #[trigger] row@[j] == a),
            decreases row@.len() - k,
        {
            let ghost kept0 = kept@;
            if row[k] < n {
                kept.push(row[k]);
            }
            proof {
                assert forall|a: int| 0 <= a < n implies (#[trigger] lists(kept@, a) <==> exists|j: int|
                    0 <= j < k + 1 && #[trigger] row@[j] == a) by {
                    if row@[k as int] < n {
                        lemma_lists_push(kept0, row@[k as int], a);
                    }
                    assert(lists(kept0, a) <==> exists|j: int| 0 <= j < k && #[trigger] row@[j] == a);
                }
            }
            k = k + 1;
        }
        inner.push(kept);
        proof {
            assert forall|j: int, a: int| 0 <= j < i + 1 && 0 <= a < n implies (#[trigger] lists(inner@[j]@, a)
                <==> edge(pred@, a, j)) by {
                if j == i {
                    assert(lists(kept@, a) <==> edge(pred@, a, j));
                }
            }
        }
        i = i + 1;
    }
    proof {
        lemma_same_paths(pred@, inner@, n as int);
    }
    let mut dom = solve(n, 0, &inner);
    let ghost solved = dom@;
    let mut j: usize = 0;
    while j < n
        invariant
            j <= n,
            dom@.len() == n,
            solved.len() == n,
            reachable@.len() == n,
            forall|m: int| j <= m < n ==> dom@[m] == solved[m],
            forall|m: int, d: usize|
                0 <= m < j ==> (#[trigger] dom@[m]@.contains(d) <==> if reachable@[m] {
                    solved[m]@.contains(d)
                } else {
                    d == m
                }),
            forall|m: int| 0 <= m < j ==> (#[trigger] dom@[m])@.finite(),
            forall|m: int| 0 <= m < n ==> (#[trigger] solved[m])@.finite(),
        decreases n - j,
    {
        if !reachable[j] {
            let mut own: BTreeSet<usize> = BTreeSet::new();
            own.insert(j);
            dom[j] = own;
        } else {
            assert(dom@[j as int]@.finite()) by {
                assert(solved[j as int]@.finite());
            }
        }
        j = j + 1;
    }
    proof {
        assert forall|m: int, d: usize| 0 <= m < n implies (#[trigger] dom@[m]@.contains(d) <==> dominates(
            pred@,
            n as int,
            d as int,
            m,
        )) by {
            assert(reachable@[m] <==> reaches(pred@, n as int, 0, m));
            assert(solved[m]@.contains(d) <==> d < n && on_every_path(inner@, n as int, 0, m, d as int));
            assert(on_every_path(inner@, n as int, 0, m, d as int) <==> on_every_path(
                pred@,
                n as int,
                0,
                m,
                d as int,
            )) by {
                assert forall|p: Seq<int>| path_between(pred@, n as int, 0, m, p) <==> path_between(
                    inner@,
                    n as int,
                    0,
                    m,
                    p,
                ) by {
                    assert(is_path(pred@, n as int, p) <==> is_path(inner@, n as int, p));
                }
            }
        }
    }
    dom
}

proof fn lemma_same_paths(a: Seq<Vec<usize>>, b: Seq<Vec<usize>>, n: int)
    requires
        n <= a.len(),
        n == b.len(),
        forall|j: int, x: int| 0 <= j < n && 0 <= x < n ==> (#[trigger] lists(b[j]@, x) <==> edge(a, x, j)),
    ensures
        forall|p: Seq<int>| #[trigger] is_path(a, n, p) <==> is_path(b, n, p),
{
    assert forall|p: Seq<int>| #[trigger] is_path(a, n, p) <==> is_path(b, n, p) by {
        if is_path(a, n, p) {
            assert forall|k: int| 0 <= k < p.len() - 1 implies #[trigger] step_ok(b, p, k) by {
                assert(step_ok(a, p, k));
                assert(lists(b[p[k + 1]]@, p[k]));
            }
        }
        if is_path(b, n, p) {
            assert forall|k: int| 0 <= k < p.len() - 1 implies #[trigger] step_ok(a, p, k) by {
                assert(step_ok(b, p, k));
                assert(lists(b[p[k + 1]]@, p[k]));
            }
        }
    }
}

/// `q` read backwards.
pub open spec fn backwards(q: Seq<int>) -> Seq<int> {
    Seq::new(q.len(), |k: int| q[q.len() - 1 - k])
}

/// `rp` adds the synthetic exit `n` in front of the successors of the blocks
/// that leave the function by themselves.
spec fn exit_added(
    n: int,
    rp: Seq<Vec<usize>>,
    succ: Seq<Vec<usize>>,
    is_exit: Seq<bool>,
    is_abort: Seq<bool>,
    upto: int,
) -> bool {
    &&& rp.len() == upto
    &&& forall|j: int, a: int|
        0 <= j < upto && j < n && 0 <= a < n ==> (#[trigger] lists(rp[j]@, a) <==> edge(succ, a, j))
    &&& forall|j: int|
        0 <= j < upto && j < n ==> (#[trigger] lists(rp[j]@, n) <==> leaves(n, succ, is_exit, is_abort, j))
    &&& forall|j: int, k: int| 0 <= j < upto && 0 <= k < rp[j]@.len() ==> #[trigger] rp[j]@[k] <= n
}

proof fn lemma_exit_paths(
    n: int,
    rp: Seq<Vec<usize>>,
    succ: Seq<Vec<usize>>,
    is_exit: Seq<bool>,
    is_abort: Seq<bool>,
    i: int,
    d: int,
)
    requires
        0 <= i < n <= succ.len(),
        0 <= d < n,
        exit_added(n, rp, succ, is_exit, is_abort, n + 1),
        rp[n]@.len() == 0,
    ensures
        on_every_path(rp, n + 1, n, i, d) <==> postdominates(n, succ, is_exit, is_abort, d, i),
{
    if on_every_path(rp, n + 1, n, i, d) {
        assert forall|q: Seq<int>|
            exit_path(n, succ, is_exit, is_abort, i, q) implies #[trigger] q.contains(d) by {
            let p = seq![n] + backwards(q);
            assert forall|k: int| 0 <= k < p.len() implies 0 <= #[trigger] p[k] < n + 1 by {
                if k > 0 {
                    assert(p[k] == q[q.len() - k]);
                }
            }
            assert forall|k: int| 0 <= k < p.len() - 1 implies #[trigger] step_ok(rp, p, k) by {
                if k == 0 {
                    assert(p[1] == q.last());
                    assert(lists(rp[p[1]]@, n));
                } else {
                    assert(p[k] == q[q.len() - k]);
                    assert(p[k + 1] == q[q.len() - 1 - k]);
                    assert(exit_step(succ, q, q.len() - 1 - k));
                    assert(lists(rp[p[k + 1]]@, p[k]));
                }
            }
            assert(p.last() == q[0]);
            assert(path_between(rp, n + 1, n, i, p));
            assert(p.contains(d));
            let m = choose|m: int| 0 <= m < p.len() && p[m] == d;
            assert(q[q.len() - m] == d);
        }
    }
    if postdominates(n, succ, is_exit, is_abort, d, i) {
        assert forall|p: Seq<int>| path_between(rp, n + 1, n, i, p) implies #[trigger] p.contains(d) by {
            assert forall|k: int| 1 <= k < p.len() implies #[trigger] p[k] < n by {
                assert(step_ok(rp, p, k - 1));
            }
            let tail = p.skip(1);
            let q = backwards(tail);
            assert(p.len() > 1);
            assert(q.len() == p.len() - 1);
            assert forall|k: int| 0 <= k < q.len() implies 0 <= #[trigger] q[k] < n by {
                assert(q[k] == p[p.len() - 1 - k]);
            }
            assert forall|k: int| 0 <= k < q.len() - 1 implies #[trigger] exit_step(succ, q, k) by {
                assert(q[k] == p[p.len() - 1 - k]);
                assert(q[k + 1] == p[p.len() - 2 - k]);
                assert(step_ok(rp, p, p.len() - 2 - k));
                assert(lists(rp[q[k]]@, q[k + 1]));
            }
            assert(q.last() == p[1]);
            assert(step_ok(rp, p, 0));
            assert(lists(rp[p[1]]@, n));
            assert(exit_path(n, succ, is_exit, is_abort, i, q));
            assert(q.contains(d));
            let m = choose|m: int| 0 <= m < q.len() && q[m] == d;
            assert(p[p.len() - 1 - m] == d);
        }
    }
}

/// Post-dominator sets: the `i`-th holds every block that lies on every path
/// from block `i` out of the function. A block from which no path leaves is
/// post-dominated by every block.
///
/// A no-return or trap block ends its path without completing normally, so it
/// is no exit: a shared tail of the returning paths keeps post-dominating them.
pub fn dominators_rev(
    n: usize,
    succ: &[Vec<usize>],
    is_exit: &[bool],
    is_abort: &[bool],
) -> (dom: Vec<BTreeSet<usize>>)
    requires
        n < usize::MAX,
        n <= succ@.len(),
        n <= is_exit@.len(),
        n <= is_abort@.len(),
        forall|i: int, k: int| 0 <= i < n && 0 <= k < succ@[i]@.len() ==> #[trigger] succ@[i]@[k] <= n,
    ensures
        dom@.len() == n,
        forall|i: int, d: usize|
            0 <= i < n ==> (#[trigger] dom@[i]@.contains(d) <==> postdominates(
                n as int,
                succ@,
                is_exit@,
                is_abort@,
                d as int,
                i,
            )),
{
    if n == 0 {
        return Vec::new();
    }
    let mut rp: Vec<Vec<usize>> = Vec::new();
    let mut i: usize = 0;
    while i < n
        invariant
            i <= n < usize::MAX,
            n <= succ@.len(),
            n <= is_exit@.len(),
            n <= is_abort@.len(),
            forall|j: int, k: int| 0 <= j < n && 0 <= k < succ@[j]@.len() ==> #[trigger] succ@[j]@[k] <= n,
            exit_added(n as int, rp@, succ@, is_exit@, is_abort@, i as int),
        decreases n - i,
    {
        let row = &succ[i];
        let mut out: Vec<usize> = Vec::new();
        if is_exit[i] || (row.len() == 0 && !is_abort[i]) {
            out.push(n);
        }
        let ghost direct = is_exit@[i as int] || (row@.len() == 0 && !is_abort@[i as int]);
        proof {
            if direct {
                assert(out@[0] == n);
            }
            assert(lists(out@, n as int) <==> direct);
            assert forall|a: int| 0 <= a < n implies !#[trigger] lists(out@, a) by {}
        }
        let mut k: usize = 0;
        while k < row.len()
            invariant
                k <= row@.len(),
                i < n < usize::MAX,
                n <= succ@.len(),
                *row == succ@[i as int],
                forall|j: int, m: int|
                    0 <= j < n && 0 <= m < succ@[j]@.len() ==> #[trigger] succ@[j]@[m] <= n,
                forall|m: int| 0 <= m < out@.len() ==> #[trigger] out@[m] <= n,
                forall|a: int|
                    0 <= a <= n ==> (#[trigger] lists(out@, a) <==> (a == n && direct) || exists|j: int|
                        0 <= j < k && #[trigger] row@[j] == a),
            decreases row@.len() - k,
        {
            let ghost out0 = out@;
            assert(succ@[i as int]@[k as int] <= n);
            out.push(row[k]);
            proof {
                assert forall|a: int| 0 <= a <= n implies (#[trigger] lists(out@, a) <==> (a == n && direct)
                    || exists|j: int| 0 <= j < k + 1 && #[trigger] row@[j] == a) by {
                    lemma_lists_push(out0, row@[k as int], a);
                    assert(lists(out0, a) <==> (a == n && direct) || exists|j: int|
                        0 <= j < k && #[trigger] row@[j] == a);
                }
            }
            k = k + 1;
        }
        let ghost rp0 = rp@;
        rp.push(out);
        proof {
            assert forall|j: int, a: int| 0 <= j < i + 1 && j < n && 0 <= a < n implies (#[trigger] lists(
                rp@[j]@,
                a,
            ) <==> edge(succ@, a, j)) by {
                if j == i {
                    assert(lists(out@, a) <==> edge(succ@, a, j));
                } else {
                    assert(rp@[j] == rp0[j]);
                }
            }
            assert forall|j: int| 0 <= j < i + 1 && j < n implies (#[trigger] lists(rp@[j]@, n as int) <==> leaves(
                n as int,
                succ@,
                is_exit@,
                is_abort@,
                j,
            )) by {
                if j == i {
                    assert(lists(out@, n as int) <==> direct || edge(succ@, n as int, j));
                } else {
                    assert(rp@[j] == rp0[j]);
                }
            }
        }
        i = i + 1;
    }
    rp.push(Vec::new());
    let mut dom = solve(n + 1, n, &rp);
    let ghost solved = dom@;
    dom.truncate(n);
    let mut j: usize = 0;
    while j < n
        invariant
            j <= n < usize::MAX,
            dom@.len() == n,
            solved.len() == n + 1,
            forall|m: int| j <= m < n ==> dom@[m] == solved[m],
            forall|m: int, d: usize|
                0 <= m < j ==> (#[trigger] dom@[m]@.contains(d) <==> solved[m]@.contains(d) && d != n),
        decreases n - j,
    {
        dom[j].remove(&n);
        j = j + 1;
    }
    proof {
        assert forall|m: int, d: usize| 0 <= m < n implies (#[trigger] dom@[m]@.contains(d) <==> postdominates(
            n as int,
            succ@,
            is_exit@,
            is_abort@,
            d as int,
            m,
        )) by {
            assert(solved[m]@.contains(d) <==> d < n + 1 && on_every_path(
                rp@,
                n + 1,
                n as int,
                m,
                d as int,
            ));
            if d < n {
                lemma_exit_paths(n as int, rp@, succ@, is_exit@, is_abort@, m, d as int);
            }
        }
    }
    dom
}

// ---------------------------------------------------------------------------
// The dominator tree
// ---------------------------------------------------------------------------

/// `c` is an immediate dominator of `i` in the family `dom`: a strict dominator
/// that every other strict dominator of `i` dominates.
pub open spec fn is_idom(dom: Seq<BTreeSet<usize>>, i: int, c: usize) -> bool {
    &&& dom[i]@.contains(c)
    &&& c != i
    &&& forall|d: usize|
        #[trigger] dom[i]@.contains(d) && d != i && d != c ==> dom[c as int]@.contains(d)
}

/// `idom` names for each block its least immediate dominator in `dom`, if any.
pub open spec fn is_idom_of(idom: Seq<Option<usize>>, dom: Seq<BTreeSet<usize>>) -> bool {
    &&& idom.len() == dom.len()
    &&& forall|i: int|
        0 <= i < dom.len() ==> match #[trigger] idom[i] {
            Some(c) => is_idom(dom, i, c) && forall|e: usize| e < c ==> !#[trigger] is_idom(dom, i, e),
            None => forall|e: usize| !#[trigger] is_idom(dom, i, e),
        }
}

/// `c` is the only member besides `i`.
pub open spec fn only_other(members: Set<usize>, i: int, c: usize) -> bool {
    members.contains(c) && c != i && forall|d: usize| #[trigger] members.contains(d) && d != i ==> d == c
}

/// What dominates block `i` can be told from the family: every strict dominator has
/// dominators of its own there, or one that has is immediate, or there is but one.
pub open spec fn idom_known(dom: Seq<BTreeSet<usize>>, i: int) -> bool {
    ||| forall|d: usize| #[trigger] dom[i]@.contains(d) && d != i ==> d < dom.len()
    ||| exists|c: usize| c < dom.len() && #[trigger] is_idom(dom, i, c)
    ||| exists|c: usize| #[trigger] only_other(dom[i]@, i, c)
}

/// The members of a set.
fn members_of(s: &BTreeSet<usize>) -> (v: Vec<usize>)
    ensures
        forall|d: usize| #[trigger] v@.contains(d) <==> s@.contains(d),
{
    let mut v: Vec<usize> = Vec::new();
    let ghost keys = vstd::std_specs::btree::spec_btree_keys_iter(s).remaining().unref();
    for x in it: s.iter()
        invariant
            it.seq().unref() == keys,
            v@ == keys.take(it.index() as int),
    {
        v.push(*x);
    }
    proof {
        assert(v@ =~= keys);
        assert forall|d: usize| #[trigger] v@.contains(d) <==> s@.contains(d) by {
            assert(keys.to_set().contains(d) <==> s@.contains(d));
        }
    }
    v
}

/// Is `c` an immediate dominator of `i`?
fn is_immediate(dom: &[BTreeSet<usize>], i: usize, c: usize) -> (yes: bool)
    requires
        i < dom@.len(),
        c < dom@.len(),
    ensures
        yes == is_idom(dom@, i as int, c),
{
    if c == i || !dom[i].contains(&c) {
        return false;
    }
    let all = members_of(&dom[i]);
    let mut k: usize = 0;
    while k < all.len()
        invariant
            k <= all@.len(),
            i < dom@.len(),
            c < dom@.len(),
            forall|d: usize| #[trigger] all@.contains(d) <==> dom@[i as int]@.contains(d),
            forall|j: int|
                0 <= j < k && #[trigger] all@[j] != i && all@[j] != c ==> dom@[c as int]@.contains(all@[j]),
        decreases all@.len() - k,
    {
        let d: usize = all[k];
        assert(all@.contains(d));
        if d != i && d != c && !dom[c].contains(&d) {
            return false;
        }
        k = k + 1;
    }
    proof {
        assert forall|d: usize| #[trigger] dom@[i as int]@.contains(d) && d != i && d != c implies dom@[c as int]@.contains(
            d,
        ) by {
            assert(all@.contains(d));
        }
    }
    true
}

/// The only member besides `i`, if there is but one.
fn find_only_other(s: &BTreeSet<usize>, i: usize) -> (r: Option<usize>)
    ensures
        match r {
            Some(c) => only_other(s@, i as int, c),
            None => forall|c: usize| !#[trigger] only_other(s@, i as int, c),
        },
{
    let all = members_of(s);
    let mut found: Option<usize> = None;
    let mut k: usize = 0;
    while k < all.len()
        invariant
            k <= all@.len(),
            forall|d: usize| #[trigger] all@.contains(d) <==> s@.contains(d),
            match found {
                Some(c) => s@.contains(c) && c != i && forall|j: int| 0 <= j < k && #[trigger] all@[j] != i ==> all@[j] == c,
                None => forall|j: int| 0 <= j < k ==> #[trigger] all@[j] == i,
            },
        decreases all@.len() - k,
    {
        let d: usize = all[k];
        assert(all@.contains(d));
        if d != i {
            match found {
                Some(c) => if c != d {
                    assert(s@.contains(c) && s@.contains(d));
                    return None;
                },
                None => {
                    found = Some(d);
                },
            }
        }
        k = k + 1;
    }
    proof {
        assert forall|d: usize| #[trigger] s@.contains(d) && d != i implies found == Some(d) by {
            assert(all@.contains(d));
        }
    }
    found
}

/// The immediate dominator of each block: `None` for the entry and for every
/// block that nothing else dominates.
pub fn immediate_doms(dom: &[BTreeSet<usize>]) -> (idom: Vec<Option<usize>>)
    requires
        forall|i: int| 0 <= i < dom@.len() ==> #[trigger] idom_known(dom@, i),
    ensures
        is_idom_of(idom@, dom@),
{
    let n: usize = dom.len();
    let mut idom: Vec<Option<usize>> = Vec::new();
    let mut i: usize = 0;
    while i < n
        invariant
            i <= n,
            n == dom@.len(),
            idom@.len() == i,
            forall|j: int| 0 <= j < dom@.len() ==> #[trigger] idom_known(dom@, j),
            forall|j: int|
                0 <= j < i ==> match #[trigger] idom@[j] {
                    Some(c) => is_idom(dom@, j, c) && forall|e: usize| e < c ==> !#[trigger] is_idom(dom@, j, e),
                    None => forall|e: usize| !#[trigger] is_idom(dom@, j, e),
                },
        decreases n - i,
    {
        let mut found: Option<usize> = None;
        let mut c: usize = 0;
        while c < n && found.is_none()
            invariant
                c <= n,
                i < n,
                n == dom@.len(),
                match found {
                    Some(f) => is_idom(dom@, i as int, f) && forall|e: usize|
                        e < f ==> !#[trigger] is_idom(dom@, i as int, e),
                    None => forall|e: usize| e < c ==> !#[trigger] is_idom(dom@, i as int, e),
                },
            decreases n - c,
        {
            if is_immediate(dom, i, c) {
                found = Some(c);
            }
            c = c + 1;
        }
        if found.is_none() {
            found = find_only_other(&dom[i], i);
            assert(idom_known(dom@, i as int));
        }
        idom.push(found);
        i = i + 1;
    }
    idom
}

/// The block `k` steps up from `p` in the tree, if the chain is that long.
pub open spec fn walk(idom: Seq<Option<usize>>, p: int, k: nat) -> Option<int>
    decreases k,
{
    if k == 0 {
        Some(p)
    } else {
        match walk(idom, p, (k - 1) as nat) {
            Some(x) => if 0 <= x < idom.len() {
                match idom[x] {
                    Some(y) => Some(y as int),
                    None => None,
                }
            } else {
                None
            },
            None => None,
        }
    }
}

/// The walk up from `p` is at `r` after `k` steps and has not met `stop` by then.
pub open spec fn walk_hits(idom: Seq<Option<usize>>, p: int, stop: Option<usize>, k: nat, r: int) -> bool {
    &&& walk(idom, p, k) == Some(r)
    &&& forall|m: nat| m <= k ==> !at_stop(#[trigger] walk(idom, p, m), stop)
}

/// A walk has arrived where it has to stop.
pub open spec fn at_stop(w: Option<int>, stop: Option<usize>) -> bool {
    match (w, stop) {
        (Some(x), Some(s)) => x == s,
        _ => false,
    }
}

/// One of the first `upto` predecessors of `b` walks up through `r` before it
/// meets the immediate dominator of `b`.
pub open spec fn frontier_from(
    pred: Seq<Vec<usize>>,
    idom: Seq<Option<usize>>,
    r: int,
    b: int,
    upto: int,
) -> bool {
    exists|j: int, k: nat|
        0 <= j < upto && #[trigger] walk_hits(idom, pred[b]@[j] as int, idom[b], k, r)
}

/// `b` is in the dominance frontier of `r`: some predecessor of `b` walks up
/// through `r` before it meets the immediate dominator of `b`. The entry has no
/// immediate dominator, so a loop back to it counts.
pub open spec fn in_frontier(pred: Seq<Vec<usize>>, idom: Seq<Option<usize>>, r: int, b: int) -> bool {
    frontier_from(pred, idom, r, b, pred[b]@.len() as int)
}

/// A walk that has come back to a block it visited visits nothing new.
proof fn lemma_walk_cycle(idom: Seq<Option<usize>>, p: int, stop: Option<usize>, m0: nat, step: nat, k: nat, r: int)
    requires
        m0 < step,
        walk(idom, p, m0) == walk(idom, p, step),
        walk_hits(idom, p, stop, k, r),
    ensures
        exists|m: nat| m < step && #[trigger] walk_hits(idom, p, stop, m, r),
    decreases k,
{
    if k < step {
        assert(walk_hits(idom, p, stop, k, r));
    } else {
        let back = (k - (step - m0)) as nat;
        lemma_walk_shift(idom, p, m0, step, (k - step) as nat);
        assert(walk(idom, p, back) == Some(r));
        assert(walk_hits(idom, p, stop, back, r));
        lemma_walk_cycle(idom, p, stop, m0, step, back, r);
    }
}

proof fn lemma_walk_shift(idom: Seq<Option<usize>>, p: int, a: nat, b: nat, t: nat)
    requires
        walk(idom, p, a) == walk(idom, p, b),
    ensures
        walk(idom, p, a + t) == walk(idom, p, b + t),
    decreases t,
{
    if t > 0 {
        lemma_walk_shift(idom, p, a, b, (t - 1) as nat);
    }
}

/// A walk that has ended does not go on.
proof fn lemma_walk_ended(idom: Seq<Option<usize>>, p: int, k: nat, m: nat)
    requires
        walk(idom, p, k) is None,
        m >= k,
    ensures
        walk(idom, p, m) is None,
    decreases m,
{
    if m > k {
        lemma_walk_ended(idom, p, k, (m - 1) as nat);
    }
}

/// `df` holds exactly the frontier entries of the blocks below `b`, and those
/// of `b` that its first `j` predecessors and the first `step` steps from
/// predecessor `j` give.
spec fn frontier_so_far(
    df: Seq<BTreeSet<usize>>,
    pred: Seq<Vec<usize>>,
    idom: Seq<Option<usize>>,
    n: int,
    b: int,
    j: int,
    step: nat,
) -> bool {
    &&& df.len() == n
    &&& forall|r: int, x: usize|
        0 <= r < n ==> (#[trigger] df[r]@.contains(x) <==> {
            ||| x < b && in_frontier(pred, idom, r, x as int)
            ||| x == b && frontier_from(pred, idom, r, b, j)
            ||| x == b && exists|m: nat|
                m < step && #[trigger] walk_hits(idom, pred[b]@[j] as int, idom[b], m, r)
        })
}

/// The dominance frontier of every block: where its dominance runs out, which
/// is where phi placement has to look. Terminates on any tree-shaped or
/// malformed `idom`: a walk stops at a block it has already visited.
pub fn dominance_frontier(
    n: usize,
    pred: &[Vec<usize>],
    idom: &[Option<usize>],
) -> (df: Vec<BTreeSet<usize>>)
    requires
        n <= pred@.len(),
        n <= idom@.len(),
        forall|b: int, k: int|
            0 <= b < n && 0 <= k < pred@[b]@.len() ==> #[trigger] pred@[b]@[k] < n,
        forall|x: int| 0 <= x < n ==> (#[trigger] idom@[x] matches Some(y) ==> y < n),
    ensures
        df@.len() == n,
        forall|r: int, b: usize|
            0 <= r < n ==> (#[trigger] df@[r]@.contains(b) <==> b < n && in_frontier(pred@, idom@, r, b as int)),
{
    let mut df: Vec<BTreeSet<usize>> = Vec::new();
    let mut m: usize = 0;
    while m < n
        invariant
            m <= n,
            df@.len() == m,
            forall|r: int| 0 <= r < m ==> (#[trigger] df@[r])@ == Set::<usize>::empty(),
        decreases n - m,
    {
        df.push(BTreeSet::new());
        m = m + 1;
    }
    let mut b: usize = 0;
    while b < n
        invariant
            b <= n,
            n <= pred@.len(),
            n <= idom@.len(),
            forall|c: int, k: int|
                0 <= c < n && 0 <= k < pred@[c]@.len() ==> #[trigger] pred@[c]@[k] < n,
            forall|x: int| 0 <= x < n ==> (#[trigger] idom@[x] matches Some(y) ==> y < n),
            df@.len() == n,
            forall|r: int, x: usize|
                0 <= r < n ==> (#[trigger] df@[r]@.contains(x) <==> x < b && in_frontier(
                    pred@,
                    idom@,
                    r,
                    x as int,
                )),
        decreases n - b,
    {
        let row = &pred[b];
        let mut j: usize = 0;
        while j < row.len()
            invariant
                j <= row@.len(),
                b < n,
                n <= pred@.len(),
                n <= idom@.len(),
                *row == pred@[b as int],
                forall|c: int, k: int|
                    0 <= c < n && 0 <= k < pred@[c]@.len() ==> #[trigger] pred@[c]@[k] < n,
                forall|x: int| 0 <= x < n ==> (#[trigger] idom@[x] matches Some(y) ==> y < n),
                frontier_so_far(df@, pred@, idom@, n as int, b as int, j as int, 0),
            decreases row@.len() - j,
        {
            let p: usize = row[j];
            assert(pred@[b as int]@[j as int] == p);
            let mut seen: Vec<bool> = vec![false; n];
            let mut runner: usize = p;
            let ghost mut step: nat = 0;
            let mut going = true;
            while going
                invariant
                    j < row@.len(),
                    b < n,
                    n <= pred@.len(),
                    n <= idom@.len(),
                    *row == pred@[b as int],
                    p == row@[j as int],
                        runner < n,
                    seen@.len() == n,
                    forall|x: int| 0 <= x < n ==> (#[trigger] idom@[x] matches Some(y) ==> y < n),
                    frontier_so_far(df@, pred@, idom@, n as int, b as int, j as int, step),
                    going ==> walk(idom@, p as int, step) == Some(runner as int),
                    going ==> forall|q: nat|
                        q < step ==> !at_stop(#[trigger] walk(idom@, p as int, q), idom@[b as int]),
                    forall|x: int|
                        0 <= x < n && #[trigger] seen@[x] ==> exists|q: nat|
                            q < step && #[trigger] walk(idom@, p as int, q) == Some(x),
                    !going ==> forall|k: nat, r: int| #[trigger]
                        walk_hits(idom@, p as int, idom@[b as int], k, r) ==> exists|q: nat|
                            q < step && #[trigger] walk_hits(idom@, p as int, idom@[b as int], q, r),
                decreases unmarked(seen@), going as int,
            {
                let stop = match idom[b] {
                    Some(s) => s == runner,
                    None => false,
                };
                if stop || seen[runner] {
                    going = false;
                    proof {
                        assert forall|k: nat, r: int| #[trigger]
                            walk_hits(idom@, p as int, idom@[b as int], k, r) implies exists|q: nat|
                            q < step && #[trigger] walk_hits(idom@, p as int, idom@[b as int], q, r) by {
                            if stop {
                                assert(at_stop(walk(idom@, p as int, step), idom@[b as int]));
                                assert(k < step);
                            } else {
                                let m0 = choose|q: nat|
                                    q < step && #[trigger] walk(idom@, p as int, q) == Some(runner as int);
                                lemma_walk_cycle(idom@, p as int, idom@[b as int], m0, step, k, r);
                            }
                        }
                    }
                } else {
                    proof {
                        lemma_mark(seen@, runner as int);
                    }
                    let ghost seen0 = seen@;
                    seen[runner] = true;
                    let ghost df0 = df@;
                    df[runner].insert(b);
                    proof {
                        lemma_frontier_step(df0, df@, pred@, idom@, n as int, b, j as int, step, runner as int);
                        assert forall|x: int| 0 <= x < n && #[trigger] seen@[x] implies exists|q: nat|
                            q < step + 1 && #[trigger] walk(idom@, p as int, q) == Some(x) by {
                            if x == runner {
                                assert(walk(idom@, p as int, step) == Some(x));
                            } else {
                                assert(seen0[x]);
                                let q = choose|q: nat|
                                    q < step && #[trigger] walk(idom@, p as int, q) == Some(x);
                                assert(q < step + 1);
                            }
                        }
                        step = step + 1;
                    }
                    match idom[runner] {
                        Some(next) => {
                            proof {
                                assert(walk(idom@, p as int, (step - 1) as nat) == Some(runner as int));
                                assert(walk(idom@, p as int, step) == Some(next as int));
                            }
                            runner = next;
                        },
                        None => {
                            going = false;
                            proof {
                                assert(walk(idom@, p as int, (step - 1) as nat) == Some(runner as int));
                                assert(walk(idom@, p as int, step) is None);
                                assert forall|k: nat, r: int| #[trigger]
                                    walk_hits(idom@, p as int, idom@[b as int], k, r) implies exists|q: nat|
                                    q < step && #[trigger] walk_hits(
                                        idom@,
                                        p as int,
                                        idom@[b as int],
                                        q,
                                        r,
                                    ) by {
                                    if k >= step {
                                        lemma_walk_ended(idom@, p as int, step, k);
                                    }
                                }
                            }
                        },
                    }
                }
            }
            proof {
                assert forall|r: int, x: usize| 0 <= r < n implies (#[trigger] df@[r]@.contains(x) <==> {
                    ||| x < b && in_frontier(pred@, idom@, r, x as int)
                    ||| x == b && frontier_from(pred@, idom@, r, b as int, j + 1)
                    ||| x == b && exists|q: nat|
                        q < 0 && #[trigger] walk_hits(
                            idom@,
                            pred@[b as int]@[j + 1] as int,
                            idom@[b as int],
                            q,
                            r,
                        )
                }) by {
                    if x == b && frontier_from(pred@, idom@, r, b as int, j + 1) {
                        let (jj, k) = choose|jj: int, k: nat|
                            0 <= jj < j + 1 && #[trigger] walk_hits(
                                idom@,
                                pred@[b as int]@[jj] as int,
                                idom@[b as int],
                                k,
                                r,
                            );
                        if jj < j {
                            assert(frontier_from(pred@, idom@, r, b as int, j as int));
                        } else {
                            assert(walk_hits(idom@, p as int, idom@[b as int], k, r));
                        }
                    }
                    if x == b && df@[r]@.contains(x) {
                        if frontier_from(pred@, idom@, r, b as int, j as int) {
                            let (jj, k) = choose|jj: int, k: nat|
                                0 <= jj < j && #[trigger] walk_hits(
                                    idom@,
                                    pred@[b as int]@[jj] as int,
                                    idom@[b as int],
                                    k,
                                    r,
                                );
                            assert(0 <= jj < j + 1);
                        } else {
                            let q = choose|q: nat|
                                q < step && #[trigger] walk_hits(
                                    idom@,
                                    pred@[b as int]@[j as int] as int,
                                    idom@[b as int],
                                    q,
                                    r,
                                );
                            assert(0 <= j < j + 1);
                        }
                    }
                }
            }
            j = j + 1;
        }
        proof {
            assert forall|r: int, x: usize| 0 <= r < n implies (#[trigger] df@[r]@.contains(x) <==> x < b + 1
                && in_frontier(pred@, idom@, r, x as int)) by {}
        }
        b = b + 1;
    }
    df
}

proof fn lemma_frontier_step(
    df0: Seq<BTreeSet<usize>>,
    df1: Seq<BTreeSet<usize>>,
    pred: Seq<Vec<usize>>,
    idom: Seq<Option<usize>>,
    n: int,
    b: usize,
    j: int,
    step: nat,
    runner: int,
)
    requires
        frontier_so_far(df0, pred, idom, n, b as int, j, step),
        0 <= runner < n,
        walk(idom, pred[b as int]@[j] as int, step) == Some(runner),
        !at_stop(Some(runner), idom[b as int]),
        forall|q: nat|
            q < step ==> !at_stop(#[trigger] walk(idom, pred[b as int]@[j] as int, q), idom[b as int]),
        df1.len() == n,
        forall|r: int| 0 <= r < n && r != runner ==> #[trigger] df1[r] == df0[r],
        df1[runner]@ == df0[runner]@.insert(b),
    ensures
        frontier_so_far(df1, pred, idom, n, b as int, j, step + 1),
{
    let p = pred[b as int]@[j] as int;
    let stop = idom[b as int];
    assert(walk_hits(idom, p, stop, step, runner));
    assert forall|r: int, x: usize| 0 <= r < n implies (#[trigger] df1[r]@.contains(x) <==> {
        ||| x < b && in_frontier(pred, idom, r, x as int)
        ||| x == b && frontier_from(pred, idom, r, b as int, j)
        ||| x == b && exists|m: nat| m < step + 1 && #[trigger] walk_hits(idom, p, stop, m, r)
    }) by {
        if r != runner {
            assert(df1[r] == df0[r]);
        }
        assert(df0[r]@.contains(x) <==> {
            ||| x < b && in_frontier(pred, idom, r, x as int)
            ||| x == b && frontier_from(pred, idom, r, b as int, j)
            ||| x == b && exists|m: nat| m < step && #[trigger] walk_hits(idom, p, stop, m, r)
        });
        if x == b && exists|m: nat| m < step + 1 && #[trigger] walk_hits(idom, p, stop, m, r) {
            let m = choose|m: nat| m < step + 1 && #[trigger] walk_hits(idom, p, stop, m, r);
            if m == step {
                assert(r == runner);
            } else {
                assert(m < step);
            }
        }
        if x == b && exists|m: nat| m < step && #[trigger] walk_hits(idom, p, stop, m, r) {
            let m = choose|m: nat| m < step && #[trigger] walk_hits(idom, p, stop, m, r);
            assert(m < step + 1);
        }
    }
}

/// The blocks below `upto` whose immediate dominator is `p`, in ascending order.
pub open spec fn kids(idom: Seq<Option<usize>>, p: usize, upto: nat) -> Seq<usize>
    decreases upto,
{
    if upto == 0 {
        Seq::empty()
    } else {
        let before = kids(idom, p, (upto - 1) as nat);
        if idom[upto - 1] == Some(p) {
            before.push((upto - 1) as usize)
        } else {
            before
        }
    }
}

/// The children of each block in the dominator tree, in ascending order.
pub fn dom_children(idom: &[Option<usize>]) -> (children: Vec<Vec<usize>>)
    requires
        forall|i: int| 0 <= i < idom@.len() ==> (#[trigger] idom@[i] matches Some(p) ==> p < idom@.len()),
    ensures
        children@.len() == idom@.len(),
        forall|p: usize|
            p < idom@.len() ==> (#[trigger] children@[p as int])@ == kids(idom@, p, idom@.len()),
{
    let n: usize = idom.len();
    let mut children: Vec<Vec<usize>> = Vec::new();
    let mut m: usize = 0;
    while m < n
        invariant
            m <= n,
            children@.len() == m,
            forall|p: int| 0 <= p < m ==> (#[trigger] children@[p])@ == Seq::<usize>::empty(),
        decreases n - m,
    {
        children.push(Vec::new());
        m = m + 1;
    }
    let mut i: usize = 0;
    while i < n
        invariant
            i <= n,
            n == idom@.len(),
            children@.len() == n,
            forall|j: int| 0 <= j < idom@.len() ==> (#[trigger] idom@[j] matches Some(p) ==> p < idom@.len()),
            forall|p: usize| p < n ==> (#[trigger] children@[p as int])@ == kids(idom@, p, i as nat),
        decreases n - i,
    {
        let ghost before = children@;
        match idom[i] {
            Some(p) => {
                children[p].push(i);
            },
            None => {},
        }
        proof {
            assert forall|q: usize| q < n implies (#[trigger] children@[q as int])@ == kids(
                idom@,
                q,
                (i + 1) as nat,
            ) by {
                assert(before[q as int]@ == kids(idom@, q, i as nat));
            }
        }
        i = i + 1;
    }
    children
}

// ---------------------------------------------------------------------------
// What the pieces promise together
// ---------------------------------------------------------------------------

/// `dom` is the family of dominator sets of the graph.
pub open spec fn dominator_family(pred: Seq<Vec<usize>>, n: int, dom: Seq<BTreeSet<usize>>) -> bool {
    &&& dom.len() == n
    &&& 0 <= n <= pred.len()
    &&& n <= usize::MAX
    &&& forall|i: int| 0 <= i < n ==> (#[trigger] dom[i])@.finite()
    &&& forall|i: int, d: usize|
        0 <= i < n ==> (#[trigger] dom[i]@.contains(d) <==> dominates(pred, n, d as int, i))
}

/// Every block dominates itself.
pub proof fn dominance_is_reflexive(pred: Seq<Vec<usize>>, n: int, i: int)
    requires
        0 <= i < n,
    ensures
        dominates(pred, n, i, i),
{
    assert forall|p: Seq<int>| path_between(pred, n, 0, i, p) implies #[trigger] p.contains(i) by {
        assert(p[p.len() - 1] == i);
    }
}

/// Dominance is transitive.
pub proof fn dominance_is_transitive(pred: Seq<Vec<usize>>, n: int, a: int, b: int, c: int)
    requires
        dominates(pred, n, a, b),
        dominates(pred, n, b, c),
    ensures
        dominates(pred, n, a, c),
{
    if reaches(pred, n, 0, c) {
        let p0 = choose|p: Seq<int>| path_between(pred, n, 0, c, p);
        assert(p0.contains(b));
        let k0 = choose|k: int| 0 <= k < p0.len() && p0[k] == b;
        lemma_path_prefix(pred, n, 0, c, p0, k0);
        assert(reaches(pred, n, 0, b));
        assert forall|p: Seq<int>| path_between(pred, n, 0, c, p) implies #[trigger] p.contains(a) by {
            assert(p.contains(b));
            let k = choose|k: int| 0 <= k < p.len() && p[k] == b;
            lemma_path_prefix(pred, n, 0, c, p, k);
            let q = p.take(k + 1);
            assert(q.contains(a));
            let j = choose|j: int| 0 <= j < q.len() && q[j] == a;
            assert(p[j] == a);
        }
    }
}

/// Whatever dominates a reachable block is reachable.
proof fn lemma_dominator_reachable(pred: Seq<Vec<usize>>, n: int, d: int, i: int)
    requires
        dominates(pred, n, d, i),
        reaches(pred, n, 0, i),
    ensures
        reaches(pred, n, 0, d),
        0 <= d < n,
{
    let p = choose|p: Seq<int>| path_between(pred, n, 0, i, p);
    assert(p.contains(d));
    let k = choose|k: int| 0 <= k < p.len() && p[k] == d;
    lemma_path_prefix(pred, n, 0, i, p, k);
}

proof fn lemma_antisym_descent(pred: Seq<Vec<usize>>, n: int, a: int, b: int, p: Seq<int>)
    requires
        dominates(pred, n, a, b),
        dominates(pred, n, b, a),
        path_between(pred, n, 0, b, p),
    ensures
        a == b,
    decreases p.len(),
{
    if a != b {
        assert(reaches(pred, n, 0, b));
        assert(p.contains(a));
        let k = choose|k: int| 0 <= k < p.len() && p[k] == a;
        lemma_path_prefix(pred, n, 0, b, p, k);
        let q = p.take(k + 1);
        assert(reaches(pred, n, 0, a));
        assert(q.contains(b));
        let j = choose|j: int| 0 <= j < q.len() && q[j] == b;
        assert(p[j] == b);
        assert(j < k);
        lemma_path_prefix(pred, n, 0, b, p, j);
        lemma_antisym_descent(pred, n, a, b, p.take(j + 1));
    }
}

/// Two blocks that dominate each other are one block.
pub proof fn dominance_is_antisymmetric(pred: Seq<Vec<usize>>, n: int, a: int, b: int)
    requires
        dominates(pred, n, a, b),
        dominates(pred, n, b, a),
    ensures
        a == b,
{
    if a != b {
        if reaches(pred, n, 0, b) {
            let p = choose|p: Seq<int>| path_between(pred, n, 0, b, p);
            lemma_antisym_descent(pred, n, a, b, p);
        }
    }
}

/// `d` strictly dominates `i`.
pub open spec fn strictly_dominates(pred: Seq<Vec<usize>>, n: int, d: int, i: int) -> bool {
    dominates(pred, n, d, i) && d != i
}

/// The last index at or below `k` where `p` holds a strict dominator of `i`.
spec fn last_strict(pred: Seq<Vec<usize>>, n: int, i: int, p: Seq<int>, k: int) -> int
    decreases k,
{
    if k <= 0 || strictly_dominates(pred, n, p[k], i) {
        k
    } else {
        last_strict(pred, n, i, p, k - 1)
    }
}

proof fn lemma_last_strict(pred: Seq<Vec<usize>>, n: int, i: int, p: Seq<int>, k: int)
    requires
        0 <= k < p.len(),
        strictly_dominates(pred, n, p[0], i),
    ensures
        0 <= last_strict(pred, n, i, p, k) <= k,
        strictly_dominates(pred, n, p[last_strict(pred, n, i, p, k)], i),
        forall|j: int|
            last_strict(pred, n, i, p, k) < j <= k ==> !strictly_dominates(pred, n, #[trigger] p[j], i),
    decreases k,
{
    if k > 0 && !strictly_dominates(pred, n, p[k], i) {
        lemma_last_strict(pred, n, i, p, k - 1);
    }
}

/// Every reachable block but the entry has an immediate dominator; the entry
/// and the blocks that nothing reaches have none.
pub proof fn immediate_dominators_exist(
    pred: Seq<Vec<usize>>,
    n: int,
    dom: Seq<BTreeSet<usize>>,
    idom: Seq<Option<usize>>,
    i: int,
)
    requires
        dominator_family(pred, n, dom),
        is_idom_of(idom, dom),
        0 <= i < n,
    ensures
        idom[i] is Some <==> i != 0 && reaches(pred, n, 0, i),
{
    if i != 0 && reaches(pred, n, 0, i) {
        let p = choose|p: Seq<int>| path_between(pred, n, 0, i, p);
        assert forall|q: Seq<int>| path_between(pred, n, 0, i, q) implies #[trigger] q.contains(0) by {
            assert(q[0] == 0);
        }
        assert(strictly_dominates(pred, n, p[0], i));
        lemma_last_strict(pred, n, i, p, p.len() - 1);
        let k = last_strict(pred, n, i, p, p.len() - 1);
        let c = p[k] as usize;
        assert(c == p[k]);
        assert(dom[i]@.contains(c));
        assert forall|d: usize| #[trigger] dom[i]@.contains(d) && d != i && d != c implies dom[c as int]@.contains(d) by {
            assert(dominates(pred, n, d as int, i));
            lemma_path_prefix(pred, n, 0, i, p, k);
            assert(reaches(pred, n, 0, c as int));
            assert forall|q: Seq<int>| path_between(pred, n, 0, c as int, q) implies #[trigger] q.contains(d as int) by {
                lemma_path_splice(pred, n, 0, i, p, k, q);
                let r = splice(q, p, k);
                assert(r.contains(d as int));
                let j = choose|j: int| 0 <= j < r.len() && r[j] == d;
                if j >= q.len() {
                    assert(r[j] == p[j - q.len() + k + 1]);
                    assert(!strictly_dominates(pred, n, p[j - q.len() + k + 1], i));
                }
                assert(q[j] == d);
            }
            assert(dom[c as int]@.contains(d));
        }
        assert(is_idom(dom, i, c));
    } else {
        assert forall|e: usize| !#[trigger] is_idom(dom, i, e) by {
            if is_idom(dom, i, e) {
                assert(dominates(pred, n, e as int, i));
                if i == 0 {
                    lemma_path_single(pred, n, 0);
                    let s = seq![0int];
                    assert(reaches(pred, n, 0, 0));
                    assert(s.contains(e as int));
                }
            }
        }
    }
}

/// A block has at most one immediate dominator.
pub proof fn immediate_dominator_is_unique(
    pred: Seq<Vec<usize>>,
    n: int,
    dom: Seq<BTreeSet<usize>>,
    i: int,
    c: usize,
    e: usize,
)
    requires
        dominator_family(pred, n, dom),
        0 <= i < n,
        is_idom(dom, i, c),
        is_idom(dom, i, e),
    ensures
        c == e,
{
    if c != e {
        lemma_family_in_range(pred, n, dom, i, c);
        lemma_family_in_range(pred, n, dom, i, e);
        assert(dom[c as int]@.contains(e));
        assert(dom[e as int]@.contains(c));
        dominance_is_antisymmetric(pred, n, c as int, e as int);
    }
}

proof fn lemma_family_in_range(pred: Seq<Vec<usize>>, n: int, dom: Seq<BTreeSet<usize>>, i: int, d: usize)
    requires
        dominator_family(pred, n, dom),
        0 <= i < n,
        dom[i]@.contains(d),
    ensures
        d < n,
        dominates(pred, n, d as int, i),
{
    assert(dominates(pred, n, d as int, i));
}

/// The immediate dominator of a block has strictly fewer dominators than the
/// block: the tree has no cycle.
pub proof fn immediate_dominators_shrink(
    pred: Seq<Vec<usize>>,
    n: int,
    dom: Seq<BTreeSet<usize>>,
    i: int,
    c: usize,
)
    requires
        dominator_family(pred, n, dom),
        0 <= i < n,
        is_idom(dom, i, c),
    ensures
        c < n,
        dom[c as int]@.len() < dom[i]@.len(),
{
    lemma_family_in_range(pred, n, dom, i, c);
    let small = dom[c as int]@;
    let big = dom[i]@;
    dominance_is_reflexive(pred, n, i);
    assert(big.contains(i as usize));
    assert forall|d: usize| small.contains(d) implies #[trigger] big.contains(d) by {
        dominance_is_transitive(pred, n, d as int, c as int, i);
    }
    assert(!small.contains(i as usize)) by {
        if small.contains(i as usize) {
            dominance_is_antisymmetric(pred, n, i, c as int);
        }
    }
    assert(small.subset_of(big.remove(i as usize)));
    vstd::set_lib::lemma_len_subset(small, big.remove(i as usize));
}

proof fn lemma_walk_shrinks(
    pred: Seq<Vec<usize>>,
    n: int,
    dom: Seq<BTreeSet<usize>>,
    idom: Seq<Option<usize>>,
    i: int,
    k: nat,
)
    requires
        dominator_family(pred, n, dom),
        is_idom_of(idom, dom),
        0 <= i < n,
    ensures
        walk(idom, i, k) matches Some(x) ==> 0 <= x < n && dom[x]@.len() + k <= dom[i]@.len(),
    decreases k,
{
    if k > 0 {
        lemma_walk_shrinks(pred, n, dom, idom, i, (k - 1) as nat);
        if let Some(x) = walk(idom, i, (k - 1) as nat) {
            if let Some(c) = idom[x] {
                assert(is_idom(dom, x, c));
                immediate_dominators_shrink(pred, n, dom, x, c);
            }
        }
    }
}

/// Following immediate dominators from any block comes to an end.
pub proof fn dominator_chains_end(
    pred: Seq<Vec<usize>>,
    n: int,
    dom: Seq<BTreeSet<usize>>,
    idom: Seq<Option<usize>>,
    i: int,
)
    requires
        dominator_family(pred, n, dom),
        is_idom_of(idom, dom),
        0 <= i < n,
    ensures
        walk(idom, i, dom[i]@.len()) is None,
{
    lemma_walk_shrinks(pred, n, dom, idom, i, dom[i]@.len());
    if let Some(x) = walk(idom, i, dom[i]@.len()) {
        dominance_is_reflexive(pred, n, x);
        assert(dom[x]@.contains(x as usize));
        assert(dom[x]@.len() > 0);
    }
}

/// Every dominator of `p` is met on the walk up from `p`, and everything met
/// there dominates `p`.
proof fn lemma_walk_dominators(
    pred: Seq<Vec<usize>>,
    n: int,
    dom: Seq<BTreeSet<usize>>,
    idom: Seq<Option<usize>>,
    p: int,
    r: int,
)
    requires
        dominator_family(pred, n, dom),
        is_idom_of(idom, dom),
        0 <= p < n,
        dominates(pred, n, r, p),
    ensures
        exists|k: nat| #[trigger] walk(idom, p, k) == Some(r),
    decreases dom[p]@.len(),
{
    if r == p {
        assert(walk(idom, p, 0) == Some(r));
    } else {
        assert(reaches(pred, n, 0, p));
        assert(p != 0) by {
            if p == 0 {
                lemma_path_single(pred, n, 0);
                let s = seq![0int];
                assert(s.contains(r));
            }
        }
        immediate_dominators_exist(pred, n, dom, idom, p);
        let c = idom[p]->0;
        assert(is_idom(dom, p, c));
        immediate_dominators_shrink(pred, n, dom, p, c);
        assert(dom[p]@.contains(r as usize));
        if c != r {
            assert(dom[c as int]@.contains(r as usize));
        } else {
            dominance_is_reflexive(pred, n, r);
        }
        assert(dominates(pred, n, r, c as int));
        lemma_walk_dominators(pred, n, dom, idom, c as int, r);
        let k = choose|k: nat| #[trigger] walk(idom, c as int, k) == Some(r);
        lemma_walk_from_parent(idom, p, k);
        assert(walk(idom, p, k + 1) == Some(r));
    }
}

proof fn lemma_walk_from_parent(idom: Seq<Option<usize>>, p: int, k: nat)
    requires
        0 <= p < idom.len(),
        idom[p] is Some,
    ensures
        walk(idom, p, k + 1) == walk(idom, idom[p]->0 as int, k),
    decreases k,
{
    if k == 0 {
        assert(walk(idom, p, 0) == Some(p));
    } else {
        lemma_walk_from_parent(idom, p, (k - 1) as nat);
    }
}

proof fn lemma_walk_dominates(
    pred: Seq<Vec<usize>>,
    n: int,
    dom: Seq<BTreeSet<usize>>,
    idom: Seq<Option<usize>>,
    p: int,
    a: nat,
    k: nat,
)
    requires
        dominator_family(pred, n, dom),
        is_idom_of(idom, dom),
        0 <= p < n,
        a <= k,
        walk(idom, p, k) is Some,
    ensures
        walk(idom, p, a) is Some,
        0 <= walk(idom, p, k)->0 < n,
        0 <= walk(idom, p, a)->0 < n,
        dominates(pred, n, walk(idom, p, k)->0, walk(idom, p, a)->0),
    decreases k,
{
    lemma_walk_shrinks(pred, n, dom, idom, p, k);
    if a == k {
        dominance_is_reflexive(pred, n, walk(idom, p, k)->0);
    } else {
        lemma_walk_dominates(pred, n, dom, idom, p, a, (k - 1) as nat);
        let x = walk(idom, p, (k - 1) as nat)->0;
        let c = idom[x]->0;
        assert(is_idom(dom, x, c));
        assert(dominates(pred, n, c as int, x));
        dominance_is_transitive(pred, n, c as int, x, walk(idom, p, a)->0);
    }
}

/// The frontier of `r` is where its dominance runs out: the blocks `b` that `r`
/// does not strictly dominate although it dominates a predecessor of `b`.
pub proof fn frontier_is_where_dominance_ends(
    pred: Seq<Vec<usize>>,
    n: int,
    dom: Seq<BTreeSet<usize>>,
    idom: Seq<Option<usize>>,
    r: int,
    b: int,
)
    requires
        dominator_family(pred, n, dom),
        is_idom_of(idom, dom),
        0 <= r < n,
        0 <= b < n,
        forall|k: int| 0 <= k < pred[b]@.len() ==> #[trigger] pred[b]@[k] < n,
    ensures
        in_frontier(pred, idom, r, b) <==> {
            &&& !strictly_dominates(pred, n, r, b)
            &&& exists|j: int|
                0 <= j < pred[b]@.len() && dominates(pred, n, r, #[trigger] pred[b]@[j] as int)
        },
{
    if in_frontier(pred, idom, r, b) {
        let (j, k) = choose|j: int, k: nat|
            0 <= j < pred[b]@.len() && #[trigger] walk_hits(idom, pred[b]@[j] as int, idom[b], k, r);
        let p = pred[b]@[j] as int;
        lemma_walk_dominates(pred, n, dom, idom, p, 0, k);
        assert(walk(idom, p, 0) == Some(p));
        assert(dominates(pred, n, r, p));
        if strictly_dominates(pred, n, r, b) {
            assert(reaches(pred, n, 0, b));
            assert(b != 0) by {
                if b == 0 {
                    lemma_path_single(pred, n, 0);
                    let s = seq![0int];
                    assert(s.contains(r));
                }
            }
            immediate_dominators_exist(pred, n, dom, idom, b);
            let c = idom[b]->0;
            assert(is_idom(dom, b, c));
            lemma_family_in_range(pred, n, dom, b, c);
            assert(dom[b]@.contains(r as usize));
            if c == r {
                assert(at_stop(walk(idom, p, k), idom[b]));
            } else {
                assert(dom[c as int]@.contains(r as usize));
                lemma_idom_dominates_preds(pred, n, b, c as int, j, r);
                lemma_walk_dominators(pred, n, dom, idom, p, c as int);
                let kc = choose|kc: nat| #[trigger] walk(idom, p, kc) == Some(c as int);
                if kc <= k {
                    assert(at_stop(walk(idom, p, kc), idom[b]));
                } else {
                    lemma_walk_dominates(pred, n, dom, idom, p, k, kc);
                    dominance_is_antisymmetric(pred, n, c as int, r);
                }
            }
        }
    }
    if !strictly_dominates(pred, n, r, b) && exists|j: int|
        0 <= j < pred[b]@.len() && dominates(pred, n, r, #[trigger] pred[b]@[j] as int) {
        let j = choose|j: int|
            0 <= j < pred[b]@.len() && dominates(pred, n, r, #[trigger] pred[b]@[j] as int);
        let p = pred[b]@[j] as int;
        lemma_walk_dominators(pred, n, dom, idom, p, r);
        let k = choose|k: nat| #[trigger] walk(idom, p, k) == Some(r);
        assert forall|m: nat| m <= k implies !at_stop(#[trigger] walk(idom, p, m), idom[b]) by {
            if at_stop(walk(idom, p, m), idom[b]) {
                let c = idom[b]->0;
                assert(is_idom(dom, b, c));
                lemma_walk_dominates(pred, n, dom, idom, p, m, k);
                assert(dominates(pred, n, r, c as int));
                assert(dominates(pred, n, c as int, b));
                dominance_is_transitive(pred, n, r, c as int, b);
                if r == b {
                    dominance_is_antisymmetric(pred, n, b, c as int);
                }
            }
        }
        assert(walk_hits(idom, pred[b]@[j] as int, idom[b], k, r));
    }
}

/// A strict dominator of `b` dominates every reachable predecessor of `b`; so
/// it dominates predecessor `j`, which `r`, a block other than itself,
/// dominates while `r` strictly dominates `b`.
proof fn lemma_idom_dominates_preds(pred: Seq<Vec<usize>>, n: int, b: int, c: int, j: int, r: int)
    requires
        0 <= b < n <= pred.len(),
        0 <= j < pred[b]@.len(),
        pred[b]@[j] < n,
        dominates(pred, n, c, b),
        c != b,
        strictly_dominates(pred, n, r, b),
        dominates(pred, n, r, c),
        dominates(pred, n, r, pred[b]@[j] as int),
    ensures
        dominates(pred, n, c, pred[b]@[j] as int),
{
    let p = pred[b]@[j] as int;
    assert(edge(pred, p, b));
    lemma_dominator_reachable(pred, n, r, b);
    lemma_dominator_reachable(pred, n, c, b);
    if reaches(pred, n, 0, p) {
        assert forall|q: Seq<int>| path_between(pred, n, 0, p, q) implies #[trigger] q.contains(c) by {
            lemma_path_push(pred, n, 0, p, b, q);
            let w = q.push(b);
            assert(w.contains(c));
            let m = choose|m: int| 0 <= m < w.len() && w[m] == c;
            assert(q[m] == c);
        }
    } else {
        assert(r == p);
    }
}

/// A block that aborts takes no post-dominator away from any other: calling more
/// blocks aborts only adds post-dominators.
pub proof fn aborts_keep_post_dominators(
    n: int,
    succ: Seq<Vec<usize>>,
    is_exit: Seq<bool>,
    few: Seq<bool>,
    more: Seq<bool>,
    d: int,
    i: int,
)
    requires
        postdominates(n, succ, is_exit, few, d, i),
        forall|e: int| 0 <= e < n && #[trigger] few[e] ==> more[e],
    ensures
        postdominates(n, succ, is_exit, more, d, i),
{
    assert forall|p: Seq<int>| exit_path(n, succ, is_exit, more, i, p) implies #[trigger] p.contains(d) by {
        let e = p.last();
        assert(0 <= p[p.len() - 1] < n);
        assert(few[e] ==> more[e]);
        assert(exit_path(n, succ, is_exit, few, i, p));
    }
}

/// Every block post-dominates itself.
pub proof fn post_dominance_is_reflexive(
    n: int,
    succ: Seq<Vec<usize>>,
    is_exit: Seq<bool>,
    is_abort: Seq<bool>,
    i: int,
)
    requires
        0 <= i < n,
    ensures
        postdominates(n, succ, is_exit, is_abort, i, i),
{
    assert forall|p: Seq<int>| exit_path(n, succ, is_exit, is_abort, i, p) implies #[trigger] p.contains(i) by {
        assert(p[0] == i);
    }
}

// ---------------------------------------------------------------------------
// The graph of a function
// ---------------------------------------------------------------------------

/// The last of the first `k` blocks that starts at the address.
pub open spec fn last_at(blocks: Seq<CfgBlock>, a: Va, k: int) -> Option<int>
    decreases k,
{
    if k <= 0 {
        None
    } else if blocks[k - 1].start == a {
        Some(k - 1)
    } else {
        last_at(blocks, a, k - 1)
    }
}

/// The block that an edge leads to. An edge out of the function leads to none.
pub open spec fn led_to(blocks: Seq<CfgBlock>, s: Successor) -> Option<int> {
    last_at(blocks, s.to, blocks.len() as int)
}

/// The blocks that the first `k` edges lead to.
pub open spec fn succ_list(blocks: Seq<CfgBlock>, s: Seq<Successor>, k: int) -> Seq<usize>
    decreases k,
{
    if k <= 0 {
        Seq::empty()
    } else {
        match led_to(blocks, s[k - 1]) {
            Some(j) => succ_list(blocks, s, k - 1).push(j as usize),
            None => succ_list(blocks, s, k - 1),
        }
    }
}

/// Block `i`, once for each of its first `k` edges that leads to block `j`.
pub open spec fn pred_part(blocks: Seq<CfgBlock>, i: int, j: int, k: int) -> Seq<usize>
    decreases k,
{
    if k <= 0 {
        Seq::empty()
    } else if led_to(blocks, blocks[i].successors@[k - 1]) == Some(j) {
        pred_part(blocks, i, j, k - 1).push(i as usize)
    } else {
        pred_part(blocks, i, j, k - 1)
    }
}

/// The first `n` blocks, each once for each of its edges that leads to block `j`.
pub open spec fn pred_list(blocks: Seq<CfgBlock>, j: int, n: int) -> Seq<usize>
    decreases n,
{
    if n <= 0 {
        Seq::empty()
    } else {
        pred_list(blocks, j, n - 1) + pred_part(blocks, n - 1, j, blocks[n - 1].successors@.len() as int)
    }
}

fn find_last_at(blocks: &Vec<CfgBlock>, a: Va) -> (r: Option<usize>)
    ensures
        match (r, last_at(blocks@, a, blocks@.len() as int)) {
            (Some(x), Some(y)) => x == y && x < blocks@.len(),
            (None, None) => true,
            _ => false,
        },
{
    let mut k: usize = blocks.len();
    while k > 0
        invariant
            k <= blocks@.len(),
            last_at(blocks@, a, blocks@.len() as int) == last_at(blocks@, a, k as int),
        decreases k,
    {
        if blocks[k - 1].start == a {
            return Some(k - 1);
        }
        k = k - 1;
    }
    None
}

fn empty_lists(n: usize) -> (v: Vec<Vec<usize>>)
    ensures
        v@.len() == n,
        forall|i: int| 0 <= i < n ==> (#[trigger] v@[i])@ == Seq::<usize>::empty(),
{
    let mut v: Vec<Vec<usize>> = Vec::new();
    let mut k: usize = 0;
    while k < n
        invariant
            k <= n,
            v@.len() == k,
            forall|i: int| 0 <= i < k ==> (#[trigger] v@[i])@ == Seq::<usize>::empty(),
        decreases n - k,
    {
        v.push(Vec::new());
        k = k + 1;
    }
    v
}

/// The successors and the predecessors of each block, by index. Edges out of the
/// function are left out.
pub fn block_graph(cfg: &CfgArtifact) -> (r: (Vec<Vec<usize>>, Vec<Vec<usize>>))
    ensures
        r.0@.len() == cfg.blocks@.len(),
        r.1@.len() == cfg.blocks@.len(),
        forall|i: int|
            0 <= i < cfg.blocks@.len() ==> (#[trigger] r.0@[i])@ == succ_list(
                cfg.blocks@,
                cfg.blocks@[i].successors@,
                cfg.blocks@[i].successors@.len() as int,
            ),
        forall|j: int|
            0 <= j < cfg.blocks@.len() ==> (#[trigger] r.1@[j])@ == pred_list(
                cfg.blocks@,
                j,
                cfg.blocks@.len() as int,
            ),
{
    let blocks = &cfg.blocks;
    let n: usize = blocks.len();
    let mut succ = empty_lists(n);
    let mut pred = empty_lists(n);
    let ghost bs = blocks@;
    let mut i: usize = 0;
    while i < n
        invariant
            n == bs.len(),
            bs == blocks@,
            i <= n,
            succ@.len() == n,
            pred@.len() == n,
            forall|x: int|
                0 <= x < i ==> (#[trigger] succ@[x])@ == succ_list(
                    bs,
                    bs[x].successors@,
                    bs[x].successors@.len() as int,
                ),
            forall|x: int| i <= x < n ==> (#[trigger] succ@[x])@ == Seq::<usize>::empty(),
            forall|j: int| 0 <= j < n ==> (#[trigger] pred@[j])@ == pred_list(bs, j, i as int),
        decreases n - i,
    {
        let edges = &blocks[i].successors;
        let mut k: usize = 0;
        proof {
            assert forall|j: int| 0 <= j < n implies (#[trigger] pred@[j])@ == pred_list(bs, j, i as int) + pred_part(
                bs,
                i as int,
                j,
                0,
            ) by {
                assert(pred_list(bs, j, i as int) + Seq::<usize>::empty() =~= pred_list(bs, j, i as int));
            }
        }
        while k < edges.len()
            invariant
                n == bs.len(),
                bs == blocks@,
                i < n,
                edges@ == bs[i as int].successors@,
                k <= edges@.len(),
                succ@.len() == n,
                pred@.len() == n,
                forall|x: int|
                    0 <= x < i ==> (#[trigger] succ@[x])@ == succ_list(
                        bs,
                        bs[x].successors@,
                        bs[x].successors@.len() as int,
                    ),
                succ@[i as int]@ == succ_list(bs, edges@, k as int),
                forall|x: int| i < x < n ==> (#[trigger] succ@[x])@ == Seq::<usize>::empty(),
                forall|j: int|
                    0 <= j < n ==> (#[trigger] pred@[j])@ == pred_list(bs, j, i as int) + pred_part(
                        bs,
                        i as int,
                        j,
                        k as int,
                    ),
            decreases edges@.len() - k,
        {
            let ghost succ0 = succ@;
            let ghost pred0 = pred@;
            match find_last_at(blocks, edges[k].to) {
                Some(j) => {
                    succ[i].push(j);
                    pred[j].push(i);
                    proof {
                        assert forall|x: int| 0 <= x < n implies (#[trigger] pred@[x])@ == pred_list(
                            bs,
                            x,
                            i as int,
                        ) + pred_part(bs, i as int, x, k + 1) by {
                            assert(pred0[x]@ == pred_list(bs, x, i as int) + pred_part(bs, i as int, x, k as int));
                            if x == j {
                                let a = pred_list(bs, x, i as int);
                                let b = pred_part(bs, i as int, x, k as int);
                                assert((a + b).push(i) =~= a + b.push(i));
                            }
                        }
                        assert forall|x: int| 0 <= x < n && x != i implies (#[trigger] succ@[x])@ == succ0[x]@ by {}
                    }
                },
                None => {},
            }
            k = k + 1;
        }
        i = i + 1;
    }
    (succ, pred)
}

proof fn lemma_succ_has(blocks: Seq<CfgBlock>, s: Seq<Successor>, k: int, j: int)
    requires
        0 <= k <= s.len(),
        0 <= j < blocks.len() <= usize::MAX,
    ensures
        succ_list(blocks, s, k).contains(j as usize) <==> exists|e: int|
            0 <= e < k && led_to(blocks, #[trigger] s[e]) == Some(j),
    decreases k,
{
    if k > 0 {
        lemma_succ_has(blocks, s, k - 1, j);
        let p = succ_list(blocks, s, k - 1);
        lemma_last_at(blocks, s[k - 1].to, blocks.len() as int);
        match led_to(blocks, s[k - 1]) {
            Some(x) => {
                let q = p.push(x as usize);
                if p.contains(j as usize) {
                    let n = choose|n: int| 0 <= n < p.len() && p[n] == j as usize;
                    assert(q[n] == j as usize);
                }
                assert(q[p.len() as int] == x as usize);
                if q.contains(j as usize) && x != j {
                    let n = choose|n: int| 0 <= n < q.len() && q[n] == j as usize;
                    assert(p[n] == j as usize);
                }
            },
            None => {},
        }
    }
}

proof fn lemma_last_at(blocks: Seq<CfgBlock>, a: Va, k: int)
    requires
        0 <= k <= blocks.len(),
    ensures
        last_at(blocks, a, k) matches Some(j) ==> 0 <= j < k && blocks[j].start == a,
    decreases k,
{
    if k > 0 && blocks[k - 1].start != a {
        lemma_last_at(blocks, a, k - 1);
    }
}

proof fn lemma_pred_part(blocks: Seq<CfgBlock>, i: int, j: int, k: int)
    requires
        0 <= i < blocks.len(),
        0 <= k <= blocks[i].successors@.len(),
    ensures
        forall|n: int| 0 <= n < pred_part(blocks, i, j, k).len() ==> #[trigger] pred_part(blocks, i, j, k)[n] == i as usize,
        pred_part(blocks, i, j, k).len() > 0 <==> exists|e: int|
            0 <= e < k && led_to(blocks, #[trigger] blocks[i].successors@[e]) == Some(j),
    decreases k,
{
    if k > 0 {
        lemma_pred_part(blocks, i, j, k - 1);
    }
}

proof fn lemma_pred_has(blocks: Seq<CfgBlock>, i: int, j: int, n: int)
    requires
        0 <= i < blocks.len() <= usize::MAX,
        0 <= n <= blocks.len(),
    ensures
        pred_list(blocks, j, n).contains(i as usize) <==> i < n && pred_part(
            blocks,
            i,
            j,
            blocks[i].successors@.len() as int,
        ).len() > 0,
    decreases n,
{
    if n > 0 {
        lemma_pred_has(blocks, i, j, n - 1);
        let a = pred_list(blocks, j, n - 1);
        let b = pred_part(blocks, n - 1, j, blocks[n - 1].successors@.len() as int);
        lemma_pred_part(blocks, n - 1, j, blocks[n - 1].successors@.len() as int);
        if a.contains(i as usize) {
            let x = choose|x: int| 0 <= x < a.len() && a[x] == i as usize;
            assert((a + b)[x] == i as usize);
        }
        if i == n - 1 && b.len() > 0 {
            assert(b[0] == i as usize);
            assert((a + b)[a.len() as int] == i as usize);
        }
        if (a + b).contains(i as usize) {
            let x = choose|x: int| 0 <= x < (a + b).len() && (a + b)[x] == i as usize;
            if x < a.len() {
                assert(a[x] == i as usize);
            } else {
                assert(b[x - a.len()] == i as usize);
            }
        }
    }
}

/// Block `j` is a successor of block `i` exactly where `i` is a predecessor of
/// `j`.
pub proof fn predecessors_mirror_successors(blocks: Seq<CfgBlock>, i: int, j: int)
    requires
        0 <= i < blocks.len() <= usize::MAX,
        0 <= j < blocks.len(),
    ensures
        succ_list(blocks, blocks[i].successors@, blocks[i].successors@.len() as int).contains(j as usize) <==> pred_list(
            blocks,
            j,
            blocks.len() as int,
        ).contains(i as usize),
{
    lemma_succ_has(blocks, blocks[i].successors@, blocks[i].successors@.len() as int, j);
    lemma_pred_has(blocks, i, j, blocks.len() as int);
    lemma_pred_part(blocks, i, j, blocks[i].successors@.len() as int);
}

/// The children of a block in the tree are the blocks that it immediately dominates, in
/// ascending order.
pub proof fn children_are_immediately_dominated(idom: Seq<Option<usize>>, p: usize, upto: nat, x: usize)
    requires
        upto <= idom.len(),
        idom.len() <= usize::MAX,
    ensures
        kids(idom, p, upto).contains(x) <==> x < upto && idom[x as int] == Some(p),
        forall|i: int, j: int| 0 <= i < j < kids(idom, p, upto).len() ==> kids(idom, p, upto)[i] < kids(idom, p, upto)[j],
        forall|i: int| 0 <= i < kids(idom, p, upto).len() ==> #[trigger] kids(idom, p, upto)[i] < upto,
    decreases upto,
{
    if upto > 0 {
        let before = kids(idom, p, (upto - 1) as nat);
        let now = kids(idom, p, upto);
        children_are_immediately_dominated(idom, p, (upto - 1) as nat, x);
        if before.contains(x) {
            let i = choose|i: int| 0 <= i < before.len() && before[i] == x;
            assert(now[i] == x);
        }
        if idom[upto - 1] == Some(p) {
            assert(now[before.len() as int] == upto - 1);
            if now.contains(x) && x != upto - 1 {
                let i = choose|i: int| 0 <= i < now.len() && now[i] == x;
                assert(before[i] == x);
            }
        }
    }
}

/// An edge leads to the last block that starts at its address, and to none where no block
/// does; the successors of a block are where its edges lead, in order.
pub proof fn edges_lead_to_the_block_at_their_address(blocks: Seq<CfgBlock>, s: Seq<Successor>, k: int, j: int)
    requires
        0 <= k < s.len(),
        blocks.len() <= usize::MAX,
    ensures
        0 <= j < blocks.len() && blocks[j].start == s[k].to && (forall|m: int|
            j < m < blocks.len() ==> (#[trigger] blocks[m]).start != s[k].to) ==> succ_list(blocks, s, k + 1) == succ_list(
            blocks,
            s,
            k,
        ).push(j as usize),
        (forall|m: int| 0 <= m < blocks.len() ==> (#[trigger] blocks[m]).start != s[k].to) ==> succ_list(blocks, s, k + 1)
            == succ_list(blocks, s, k),
        succ_list(blocks, s, 0).len() == 0,
{
    if 0 <= j < blocks.len() && blocks[j].start == s[k].to && (forall|m: int|
        j < m < blocks.len() ==> (#[trigger] blocks[m]).start != s[k].to) {
        lemma_found_last(blocks, s[k].to, j, blocks.len() as int);
    }
    if forall|m: int| 0 <= m < blocks.len() ==> (#[trigger] blocks[m]).start != s[k].to {
        lemma_found_nowhere(blocks, s[k].to, blocks.len() as int);
    }
}

proof fn lemma_found_last(blocks: Seq<CfgBlock>, a: Va, j: int, k: int)
    requires
        0 <= j < k <= blocks.len(),
        blocks[j].start == a,
        forall|m: int| j < m < k ==> (#[trigger] blocks[m]).start != a,
    ensures
        last_at(blocks, a, k) == Some(j),
    decreases k,
{
    if j < k - 1 {
        lemma_found_last(blocks, a, j, k - 1);
    }
}

proof fn lemma_found_nowhere(blocks: Seq<CfgBlock>, a: Va, k: int)
    requires
        k <= blocks.len(),
        forall|m: int| 0 <= m < k ==> (#[trigger] blocks[m]).start != a,
    ensures
        last_at(blocks, a, k) is None,
    decreases k,
{
    if k > 0 {
        lemma_found_nowhere(blocks, a, k - 1);
    }
}

} // verus!
