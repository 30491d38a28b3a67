//! Sorting that keeps the order of equal items.

use vstd::prelude::*;

verus! {

/// A total preorder.
pub trait Ranked: Sized {
    /// Not after `other`.
    spec fn at_most(self, other: Self) -> bool;

    /// Of two items one is not after the other, and the order is transitive.
    proof fn rank_laws(a: Self, b: Self, c: Self)
        ensures
            a.at_most(b) || b.at_most(a),
            a.at_most(b) && b.at_most(c) ==> a.at_most(c),
    ;
}

/// A preorder that can be computed.
pub trait Sortable: Ranked {
    fn not_after(&self, other: &Self) -> (r: bool)
        ensures
            r == (*self).at_most(*other),
    ;
}

/// Places an item behind all those that do not come after it.
pub open spec fn place<T: Ranked>(s: Seq<T>, x: T) -> Seq<T>
    decreases s.len(),
{
    if s.len() == 0 || s.last().at_most(x) {
        s.push(x)
    } else {
        place(s.drop_last(), x).push(s.last())
    }
}

/// The items in order; equal ones stay as they were.
pub open spec fn stable<T: Ranked>(s: Seq<T>) -> Seq<T>
    decreases s.len(),
{
    if s.len() == 0 {
        s
    } else {
        place(stable(s.drop_last()), s.last())
    }
}

/// No item comes after a later one.
pub open spec fn in_order<T: Ranked>(s: Seq<T>) -> bool {
    forall|i: int, j: int| 0 <= i < j < s.len() ==> (#[trigger] s[i]).at_most(#[trigger] s[j])
}

pub proof fn lemma_place<T: Ranked>(s: Seq<T>, x: T)
    requires
        in_order(s),
    ensures
        in_order(place(s, x)),
        place(s, x).to_multiset() == s.to_multiset().insert(x),
        place(s, x).len() == s.len() + 1,
        forall|y: T| #[trigger] place(s, x).contains(y) <==> (s.contains(y) || y == x),
    decreases s.len(),
{
    broadcast use vstd::seq_lib::group_to_multiset_ensures;

    if s.len() == 0 || s.last().at_most(x) {
        let r = s.push(x);
        assert forall|i: int, j: int| 0 <= i < j < r.len() implies (#[trigger] r[i]).at_most(#[trigger] r[j]) by {
            if j == s.len() && i < s.len() - 1 {
                assert(s[i].at_most(s[s.len() - 1]));
                T::rank_laws(s[i], s.last(), x);
            }
        }
        assert forall|y: T| #[trigger] r.contains(y) <==> (s.contains(y) || y == x) by {
            if s.contains(y) {
                let k = choose|k: int| 0 <= k < s.len() && s[k] == y;
                assert(r[k] == y);
            }
            assert(r[s.len() as int] == x);
        }
    } else {
        let d = s.drop_last();
        let p = place(d, x);
        let r = p.push(s.last());
        assert(in_order(d));
        lemma_place(d, x);
        assert(d.push(s.last()) =~= s);
        assert(r.to_multiset() =~= s.to_multiset().insert(x));
        assert forall|i: int, j: int| 0 <= i < j < r.len() implies (#[trigger] r[i]).at_most(#[trigger] r[j]) by {
            if j == p.len() {
                assert(p.contains(r[i]));
                if d.contains(r[i]) {
                    let k = choose|k: int| 0 <= k < d.len() && d[k] == r[i];
                    assert(s[k].at_most(s[s.len() - 1]));
                } else {
                    T::rank_laws(s.last(), x, x);
                }
            } else {
                assert(p[i].at_most(p[j]));
            }
        }
        assert forall|y: T| #[trigger] r.contains(y) <==> (s.contains(y) || y == x) by {
            if s.contains(y) {
                let k = choose|k: int| 0 <= k < s.len() && s[k] == y;
                if k < s.len() - 1 {
                    assert(d[k] == y);
                    assert(p.contains(y));
                }
            }
            if d.contains(y) {
                let k = choose|k: int| 0 <= k < d.len() && d[k] == y;
                assert(s[k] == y);
            }
            if p.contains(y) {
                let k = choose|k: int| 0 <= k < p.len() && p[k] == y;
                assert(r[k] == y);
            }
            assert(p.contains(x));
            if r.contains(y) {
                let k = choose|k: int| 0 <= k < r.len() && r[k] == y;
                if k < p.len() {
                    assert(p[k] == y);
                } else {
                    assert(s[s.len() - 1] == y);
                }
            }
            assert(r[p.len() as int] == s.last());
        }
    }
}

/// Sorting puts the items in order and neither drops nor invents one.
pub proof fn sorting_permutes<T: Ranked>(s: Seq<T>)
    ensures
        in_order(stable(s)),
        stable(s).to_multiset() == s.to_multiset(),
        stable(s).len() == s.len(),
        forall|y: T| #[trigger] stable(s).contains(y) <==> s.contains(y),
    decreases s.len(),
{
    broadcast use vstd::seq_lib::group_to_multiset_ensures;

    if s.len() > 0 {
        let d = s.drop_last();
        sorting_permutes(d);
        lemma_place(stable(d), s.last());
        assert(d.push(s.last()) =~= s);
        assert(stable(s).to_multiset() =~= s.to_multiset());
        assert forall|y: T| #[trigger] stable(s).contains(y) <==> s.contains(y) by {
            if s.contains(y) {
                let k = choose|k: int| 0 <= k < s.len() && s[k] == y;
                if k < s.len() - 1 {
                    assert(d[k] == y);
                }
            }
            if d.contains(y) {
                let k = choose|k: int| 0 <= k < d.len() && d[k] == y;
                assert(s[k] == y);
            }
            assert(s[s.len() - 1] == s.last());
        }
    }
}

/// The items of `s` that are neither before nor after `x`.
pub open spec fn peers<T: Ranked>(s: Seq<T>, x: T) -> Seq<T> {
    s.filter(|y: T| y.at_most(x) && x.at_most(y))
}

proof fn lemma_peers_push<T: Ranked>(s: Seq<T>, x: T, z: T)
    ensures
        peers(s.push(x), z) == if x.at_most(z) && z.at_most(x) {
            peers(s, z).push(x)
        } else {
            peers(s, z)
        },
{
    reveal(Seq::filter);
    assert(s.push(x).drop_last() =~= s);
}

proof fn lemma_place_peers<T: Ranked>(s: Seq<T>, x: T, z: T)
    requires
        in_order(s),
    ensures
        peers(place(s, x), z) == peers(s.push(x), z),
    decreases s.len(),
{
    if s.len() > 0 && !s.last().at_most(x) {
        let d = s.drop_last();
        assert(in_order(d));
        lemma_place_peers(d, x, z);
        lemma_peers_push(place(d, x), s.last(), z);
        lemma_peers_push(d, x, z);
        lemma_peers_push(s, x, z);
        lemma_peers_push(d, s.last(), z);
        assert(d.push(s.last()) =~= s);
        T::rank_laws(s.last(), z, x);
    }
}

/// Items that the order does not tell apart come out as they came in.
pub proof fn sorting_is_stable<T: Ranked>(s: Seq<T>, x: T)
    ensures
        peers(stable(s), x) == peers(s, x),
    decreases s.len(),
{
    if s.len() > 0 {
        let d = s.drop_last();
        sorting_is_stable(d, x);
        sorting_permutes(d);
        lemma_place_peers(stable(d), s.last(), x);
        lemma_peers_push(stable(d), s.last(), x);
        lemma_peers_push(d, s.last(), x);
        assert(d.push(s.last()) =~= s);
    }
}

proof fn lemma_place_map<A: Ranked, B: Ranked>(s: Seq<A>, x: A, f: spec_fn(A) -> B)
    requires
        forall|a: A, b: A| #[trigger] a.at_most(b) == f(a).at_most(f(b)),
    ensures
        place(s, x).map_values(f) == place(s.map_values(f), f(x)),
    decreases s.len(),
{
    let m = s.map_values(f);
    if s.len() == 0 || s.last().at_most(x) {
        assert(s.push(x).map_values(f) =~= m.push(f(x)));
    } else {
        let d = s.drop_last();
        lemma_place_map(d, x, f);
        assert(d.map_values(f) =~= m.drop_last());
        assert(place(d, x).push(s.last()).map_values(f) =~= place(d, x).map_values(f).push(m.last()));
    }
}

/// Sorting commutes with a map that keeps the order.
pub proof fn lemma_stable_map<A: Ranked, B: Ranked>(s: Seq<A>, f: spec_fn(A) -> B)
    requires
        forall|a: A, b: A| #[trigger] a.at_most(b) == f(a).at_most(f(b)),
    ensures
        stable(s).map_values(f) == stable(s.map_values(f)),
    decreases s.len(),
{
    let m = s.map_values(f);
    if s.len() == 0 {
        assert(s.map_values(f) =~= m);
    } else {
        let d = s.drop_last();
        lemma_stable_map(d, f);
        assert(d.map_values(f) =~= m.drop_last());
        lemma_place_map(stable(d), s.last(), f);
    }
}

/// Where the first `k` items leave the new one.
proof fn lemma_place_at<T: Ranked>(s: Seq<T>, x: T, k: int)
    requires
        0 <= k <= s.len(),
        k > 0 ==> s[k - 1].at_most(x),
        forall|i: int| k <= i < s.len() ==> !(#[trigger] s[i]).at_most(x),
    ensures
        place(s, x) == s.insert(k, x),
    decreases s.len(),
{
    if k == s.len() {
        assert(s.insert(k, x) =~= s.push(x));
    } else {
        let d = s.drop_last();
        assert(!s[s.len() - 1].at_most(x));
        assert forall|i: int| k <= i < d.len() implies !(#[trigger] d[i]).at_most(x) by {
            assert(!s[i].at_most(x));
        }
        lemma_place_at(d, x, k);
        assert(d.insert(k, x).push(s.last()) =~= s.insert(k, x));
    }
}

/// Places an item behind all those that do not come after it.
pub fn put_in_order<T: Sortable>(v: &mut Vec<T>, x: T)
    ensures
        final(v)@ == place(old(v)@, x),
{
    let mut k: usize = v.len();
    while k > 0 && !v[k - 1].not_after(&x)
        invariant
            k <= v@.len(),
            v@ == old(v)@,
            forall|i: int| k <= i < v@.len() ==> !(#[trigger] v@[i]).at_most(x),
        decreases k,
    {
        k = k - 1;
    }
    proof {
        lemma_place_at(v@, x, k as int);
    }
    v.insert(k, x);
}

/// Sorts, keeping the order of equal items.
pub fn sort_stable<T: Sortable>(v: Vec<T>) -> (out: Vec<T>)
    ensures
        out@ == stable(v@),
{
    let mut rest = v;
    let ghost all = rest@;
    let mut back: Vec<T> = Vec::new();
    // The items in reverse, so that they can be taken off one by one.
    while rest.len() > 0
        invariant
            rest@ + back@.reverse() == all,
        decreases rest@.len(),
    {
        let ghost r0 = rest@;
        let ghost b0 = back@;
        match rest.pop() {
            Some(x) => {
                back.push(x);
                assert(rest@ + back@.reverse() =~= r0 + b0.reverse());
            },
            None => {},
        }
    }
    let mut out: Vec<T> = Vec::new();
    assert(rest@ + back@.reverse() =~= back@.reverse());
    proof {
        assert(all.take(0) =~= Seq::<T>::empty());
    }
    while back.len() > 0
        invariant
            back@.len() <= all.len(),
            back@ == all.reverse().take(back@.len() as int),
            out@ == stable(all.take(all.len() - back@.len())),
        decreases back@.len(),
    {
        let ghost n = all.len() - back@.len();
        let ghost b0 = back@;
        match back.pop() {
            Some(x) => {
                proof {
                    assert(x == b0[b0.len() - 1]);
                    assert(x == all[n]);
                    assert(all.take(n + 1).drop_last() =~= all.take(n));
                    assert(all.take(n + 1).last() == x);
                    assert(back@ =~= all.reverse().take(back@.len() as int));
                }
                put_in_order(&mut out, x);
            },
            None => {},
        }
    }
    assert(all.take(all.len() as int) =~= all);
    out
}

// ---------------------------------------------------------------------------
// Repetitions
// ---------------------------------------------------------------------------

/// Items of which some say the same.
pub trait Repeats: Sized {
    spec fn repeats(self, other: Self) -> bool;
}

/// Repetitions that can be recognized.
pub trait Comparable: Repeats {
    fn is_repeat(&self, other: &Self) -> (r: bool)
        ensures
            r == (*self).repeats(*other),
    ;
}

/// Those of the first `k` items that do not repeat the one before.
pub open spec fn firsts<T: Repeats>(s: Seq<T>, k: int) -> Seq<T>
    decreases k,
{
    if k <= 0 {
        Seq::empty()
    } else if k > 1 && s[k - 1].repeats(s[k - 2]) {
        firsts(s, k - 1)
    } else {
        firsts(s, k - 1).push(s[k - 1])
    }
}

/// Taking out repetitions commutes with a map that keeps them.
pub proof fn lemma_firsts_map<A: Repeats, B: Repeats>(s: Seq<A>, k: int, f: spec_fn(A) -> B)
    requires
        0 <= k <= s.len(),
        forall|a: A, b: A| #[trigger] a.repeats(b) == f(a).repeats(f(b)),
    ensures
        firsts(s, k).map_values(f) == firsts(s.map_values(f), k),
    decreases k,
{
    let m = s.map_values(f);
    if k == 0 {
        assert(firsts(s, k).map_values(f) =~= firsts(m, k));
    } else {
        lemma_firsts_map(s, k - 1, f);
        if k > 1 {
            assert(m[k - 2] == f(s[k - 2]));
        }
        assert(m[k - 1] == f(s[k - 1]));
        assert(firsts(s, k - 1).push(s[k - 1]).map_values(f) =~= firsts(s, k - 1).map_values(f).push(m[k - 1]));
    }
}

/// Takes out the items that repeat the one before.
pub fn keep_firsts<T: Comparable>(v: Vec<T>) -> (out: Vec<T>)
    ensures
        out@ == firsts(v@, v@.len() as int),
{
    let mut rest = v;
    let mut back: Vec<T> = Vec::new();
    let ghost all = v@;
    let ghost want = firsts(all, all.len() as int);
    assert(want + back@.reverse() =~= want);
    while rest.len() > 0
        invariant
            rest@.len() <= all.len(),
            rest@ == all.take(rest@.len() as int),
            firsts(all, rest@.len() as int) + back@.reverse() == want,
        decreases rest@.len(),
    {
        let ghost n = rest@.len() as int;
        let ghost b0 = back@;
        let ghost r0 = rest@;
        match rest.pop() {
            Some(x) => {
                let m: usize = rest.len();
                proof {
                    assert(rest@ =~= all.take(n - 1));
                    assert(x == r0[n - 1]);
                    assert(x == all[n - 1]);
                    if n > 1 {
                        assert(rest@[n - 2] == all[n - 2]);
                    }
                }
                if m == 0 || !x.is_repeat(&rest[m - 1]) {
                    back.push(x);
                    assert(firsts(all, n - 1) + back@.reverse() =~= firsts(all, n) + b0.reverse());
                }
            },
            None => {},
        }
    }
    let mut out: Vec<T> = Vec::new();
    assert(firsts(all, 0) + back@.reverse() =~= back@.reverse());
    assert(out@ + back@.reverse() =~= back@.reverse());
    while back.len() > 0
        invariant
            out@ + back@.reverse() == want,
        decreases back@.len(),
    {
        let ghost b0 = back@;
        let ghost o0 = out@;
        match back.pop() {
            Some(x) => {
                out.push(x);
                assert(out@ + back@.reverse() =~= o0 + b0.reverse());
            },
            None => {},
        }
    }
    assert(out@ + back@.reverse() =~= out@);
    out
}

} // verus!
