//! Sets and maps kept as sorted lists, so that walking one is deterministic.
//! Keys are names or integers; a name is known by its characters.

use vstd::prelude::*;

use crate::text::chars_of;

verus! {

broadcast use vstd::set::group_set_axioms;

/// A key with a total order, known by a mathematical model.
pub trait SortKey: Sized {
    type Model;

    /// What the key stands for.
    spec fn model(&self) -> Self::Model;

    /// The strict order on models.
    spec fn before(a: Self::Model, b: Self::Model) -> bool;

    /// The order is strict, transitive and total.
    proof fn order_laws()
        ensures
            forall|a: Self::Model| !(#[trigger] Self::before(a, a)),
            forall|a: Self::Model, b: Self::Model, c: Self::Model| #[trigger]
                Self::before(a, b) && #[trigger] Self::before(b, c) ==> Self::before(a, c),
            forall|a: Self::Model, b: Self::Model|
                #[trigger] Self::before(a, b) || a == b || Self::before(b, a),
    ;

    /// Does `self` come before `other`?
    fn less(&self, other: &Self) -> (r: bool)
        ensures
            r == Self::before(self.model(), other.model()),
    ;
}

// ---------------------------------------------------------------------------
// The order of names
// ---------------------------------------------------------------------------

/// Dictionary order by code point.
pub open spec fn lex_lt(a: Seq<char>, b: Seq<char>) -> bool
    decreases a.len(),
{
    if b.len() == 0 {
        false
    } else if a.len() == 0 {
        true
    } else if a[0] == b[0] {
        lex_lt(a.drop_first(), b.drop_first())
    } else {
        (a[0] as u32) < (b[0] as u32)
    }
}

proof fn lemma_lex_irreflexive(a: Seq<char>)
    ensures
        !lex_lt(a, a),
    decreases a.len(),
{
    if a.len() > 0 {
        lemma_lex_irreflexive(a.drop_first());
    }
}

proof fn lemma_lex_transitive(a: Seq<char>, b: Seq<char>, c: Seq<char>)
    requires
        lex_lt(a, b),
        lex_lt(b, c),
    ensures
        lex_lt(a, c),
    decreases a.len(),
{
    if a.len() > 0 && b.len() > 0 && c.len() > 0 && a[0] == b[0] && b[0] == c[0] {
        lemma_lex_transitive(a.drop_first(), b.drop_first(), c.drop_first());
    }
}

proof fn lemma_lex_total(a: Seq<char>, b: Seq<char>)
    ensures
        lex_lt(a, b) || a == b || lex_lt(b, a),
    decreases a.len(),
{
    if a.len() == 0 && b.len() == 0 {
        assert(a =~= b);
    } else if a.len() > 0 && b.len() > 0 {
        if a[0] == b[0] {
            lemma_lex_total(a.drop_first(), b.drop_first());
            if a.drop_first() == b.drop_first() {
                assert(a =~= seq![a[0]] + a.drop_first());
                assert(b =~= seq![b[0]] + b.drop_first());
            }
        } else {
            vstd::utf8::char_u32_cast(a[0], a[0] as u32);
            vstd::utf8::char_u32_cast(b[0], b[0] as u32);
        }
    }
}

proof fn lemma_lex_skip(a: Seq<char>, b: Seq<char>, k: int)
    requires
        0 <= k <= a.len(),
        k <= b.len(),
        forall|j: int| 0 <= j < k ==> a[j] == b[j],
    ensures
        lex_lt(a, b) == lex_lt(a.skip(k), b.skip(k)),
    decreases k,
{
    if k == 0 {
        assert(a.skip(0) =~= a);
        assert(b.skip(0) =~= b);
    } else {
        lemma_lex_skip(a.drop_first(), b.drop_first(), k - 1);
        assert(a.drop_first().skip(k - 1) =~= a.skip(k));
        assert(b.drop_first().skip(k - 1) =~= b.skip(k));
    }
}

/// Does `a` come before `b` in dictionary order?
pub fn name_less(a: &str, b: &str) -> (r: bool)
    ensures
        r == lex_lt(a@, b@),
{
    let x = chars_of(a);
    let y = chars_of(b);
    let mut k: usize = 0;
    while k < x.len() && k < y.len() && x[k] == y[k]
        invariant
            k <= x@.len(),
            k <= y@.len(),
            forall|j: int| 0 <= j < k ==> x@[j] == y@[j],
        decreases x@.len() - k,
    {
        k = k + 1;
    }
    proof {
        lemma_lex_skip(x@, y@, k as int);
    }
    if k >= y.len() {
        false
    } else if k >= x.len() {
        true
    } else {
        (x[k] as u32) < (y[k] as u32)
    }
}

impl SortKey for String {
    type Model = Seq<char>;

    open spec fn model(&self) -> Seq<char> {
        self@
    }

    open spec fn before(a: Seq<char>, b: Seq<char>) -> bool {
        lex_lt(a, b)
    }

    proof fn order_laws() {
        assert forall|a: Seq<char>| !(#[trigger] Self::before(a, a)) by {
            lemma_lex_irreflexive(a);
        }
        assert forall|a: Seq<char>, b: Seq<char>, c: Seq<char>| #[trigger]
            Self::before(a, b) && #[trigger] Self::before(b, c) implies Self::before(a, c) by {
            lemma_lex_transitive(a, b, c);
        }
        assert forall|a: Seq<char>, b: Seq<char>| #[trigger] Self::before(a, b) || a == b || Self::before(b, a) by {
            lemma_lex_total(a, b);
        }
    }

    fn less(&self, other: &Self) -> (r: bool) {
        name_less(self.as_str(), other.as_str())
    }
}

impl SortKey for i64 {
    type Model = i64;

    open spec fn model(&self) -> i64 {
        *self
    }

    open spec fn before(a: i64, b: i64) -> bool {
        a < b
    }

    proof fn order_laws() {
    }

    fn less(&self, other: &Self) -> (r: bool) {
        *self < *other
    }
}

impl SortKey for u64 {
    type Model = u64;

    open spec fn model(&self) -> u64 {
        *self
    }

    open spec fn before(a: u64, b: u64) -> bool {
        a < b
    }

    proof fn order_laws() {
    }

    fn less(&self, other: &Self) -> (r: bool) {
        *self < *other
    }
}

/// The models in `s` stand in strictly ascending order.
pub open spec fn ascending<K: SortKey>(s: Seq<K>) -> bool {
    forall|i: int, j: int|
        0 <= i < j < s.len() ==> K::before((#[trigger] s[i]).model(), (#[trigger] s[j]).model())
}

/// Some entry of `s` has the model `m`.
pub open spec fn holds<K: SortKey>(s: Seq<K>, m: K::Model) -> bool {
    exists|i: int| 0 <= i < s.len() && (#[trigger] s[i]).model() == m
}

/// The index of the first entry that does not come before `k`.
fn lower_bound<K: SortKey>(s: &Vec<K>, k: &K) -> (r: usize)
    requires
        ascending(s@),
    ensures
        r <= s@.len(),
        forall|i: int| 0 <= i < r ==> K::before((#[trigger] s@[i]).model(), k.model()),
        forall|i: int| r <= i < s@.len() ==> !K::before((#[trigger] s@[i]).model(), k.model()),
{
    let mut i: usize = 0;
    while i < s.len() && s[i].less(k)
        invariant
            i <= s@.len(),
            ascending(s@),
            forall|j: int| 0 <= j < i ==> K::before((#[trigger] s@[j]).model(), k.model()),
        decreases s@.len() - i,
    {
        i = i + 1;
    }
    proof {
        K::order_laws();
        if i < s@.len() {
            assert forall|j: int| i <= j < s@.len() implies !K::before((#[trigger] s@[j]).model(), k.model()) by {
                if j > i {
                    assert(K::before(s@[i as int].model(), s@[j].model()));
                }
            }
        }
    }
    i
}

/// The index of the entry with the model of `k`, if there is one.
pub fn index_in<K: SortKey>(s: &Vec<K>, k: &K) -> (r: Option<usize>)
    requires
        ascending(s@),
    ensures
        match r {
            Some(i) => i < s@.len() && s@[i as int].model() == k.model(),
            None => !holds(s@, k.model()),
        },
{
    let i: usize = lower_bound(s, k);
    proof {
        K::order_laws();
    }
    if i < s.len() && !k.less(&s[i]) {
        Some(i)
    } else {
        proof {
            if holds(s@, k.model()) {
                let j = choose|j: int| 0 <= j < s@.len() && (#[trigger] s@[j]).model() == k.model();
                assert(j >= i);
                if j > i {
                    assert(K::before(s@[i as int].model(), s@[j].model()));
                }
            }
        }
        None
    }
}

proof fn lemma_ascending_insert<K: SortKey>(s: Seq<K>, i: int, k: K)
    requires
        ascending(s),
        0 <= i <= s.len(),
        forall|j: int| 0 <= j < i ==> K::before((#[trigger] s[j]).model(), k.model()),
        forall|j: int| i <= j < s.len() ==> K::before(k.model(), (#[trigger] s[j]).model()),
    ensures
        ascending(s.insert(i, k)),
        forall|m: K::Model| #[trigger] holds(s.insert(i, k), m) <==> holds(s, m) || m == k.model(),
{
    let t = s.insert(i, k);
    assert forall|a: int, b: int| 0 <= a < b < t.len() implies K::before(
        (#[trigger] t[a]).model(),
        (#[trigger] t[b]).model(),
    ) by {
        let sa = if a < i { a } else { a - 1 };
        let sb = if b < i { b } else { b - 1 };
        if a != i && b != i {
            assert(t[a] == s[sa]);
            assert(t[b] == s[sb]);
        } else if a == i {
            assert(t[b] == s[sb]);
        } else {
            assert(t[a] == s[sa]);
        }
    }
    assert forall|m: K::Model| #[trigger] holds(t, m) <==> holds(s, m) || m == k.model() by {
        if holds(s, m) {
            let j = choose|j: int| 0 <= j < s.len() && (#[trigger] s[j]).model() == m;
            if j < i {
                assert(t[j].model() == m);
            } else {
                assert(t[j + 1].model() == m);
            }
        }
        if m == k.model() {
            assert(t[i].model() == m);
        }
        if holds(t, m) {
            let j = choose|j: int| 0 <= j < t.len() && (#[trigger] t[j]).model() == m;
            if j < i {
                assert(s[j].model() == m);
            } else if j > i {
                assert(s[j - 1].model() == m);
            }
        }
    }
}

// ---------------------------------------------------------------------------
// Sets
// ---------------------------------------------------------------------------

/// A set of keys, in ascending order.
pub struct SortedSet<K> {
    pub items: Vec<K>,
}

impl<K: SortKey> SortedSet<K> {
    /// In order, without repetition.
    pub open spec fn wf(&self) -> bool {
        ascending(self.items@)
    }

    /// The models of the members.
    pub open spec fn set(&self) -> Set<K::Model> {
        Set::new(|m: K::Model| holds(self.items@, m))
    }

    pub fn new() -> (r: Self)
        ensures
            r.wf(),
            r.items@.len() == 0,
            forall|m: K::Model| !#[trigger] r.set().contains(m),
    {
        SortedSet { items: Vec::new() }
    }

    pub fn contains(&self, k: &K) -> (r: bool)
        requires
            self.wf(),
        ensures
            r == self.set().contains(k.model()),
    {
        match index_in(&self.items, k) {
            Some(i) => true,
            None => false,
        }
    }

    /// Adds `k`; says whether it was new.
    pub fn insert(&mut self, k: K) -> (fresh: bool)
        requires
            old(self).wf(),
        ensures
            final(self).wf(),
            final(self).set() == old(self).set().insert(k.model()),
            fresh == !old(self).set().contains(k.model()),
            !fresh ==> final(self).items@ == old(self).items@,
            fresh ==> final(self).items@.len() == old(self).items@.len() + 1,
    {
        let i: usize = lower_bound(&self.items, &k);
        proof {
            K::order_laws();
        }
        if i < self.items.len() && !k.less(&self.items[i]) {
            proof {
                assert(self.items@[i as int].model() == k.model());
                assert(holds(self.items@, k.model()));
                assert(self.set().insert(k.model()) =~= self.set());
            }
            false
        } else {
            let ghost before = self.items@;
            let ghost m = k.model();
            proof {
                assert forall|j: int| i <= j < before.len() implies K::before(m, (#[trigger] before[j]).model()) by {
                    if j > i {
                        assert(K::before(before[i as int].model(), before[j].model()));
                    }
                }
                lemma_ascending_insert(before, i as int, k);
                assert(!holds(before, m)) by {
                    if holds(before, m) {
                        let j = choose|j: int| 0 <= j < before.len() && (#[trigger] before[j]).model() == m;
                        assert(j >= i);
                    }
                }
            }
            self.items.insert(i, k);
            proof {
                assert(self.set() =~= old(self).set().insert(m));
            }
            true
        }
    }

    /// Takes the member with the model of `k` out.
    pub fn remove(&mut self, k: &K)
        requires
            old(self).wf(),
        ensures
            final(self).wf(),
            final(self).set() == old(self).set().remove(k.model()),
    {
        let ghost before = self.items@;
        match index_in(&self.items, k) {
            Some(i) => {
                self.items.remove(i);
                proof {
                    let t = self.items@;
                    K::order_laws();
                    assert forall|a: int, b: int| 0 <= a < b < t.len() implies K::before(
                        (#[trigger] t[a]).model(),
                        (#[trigger] t[b]).model(),
                    ) by {
                        let sa = if a < i { a } else { a + 1 };
                        let sb = if b < i { b } else { b + 1 };
                        assert(t[a] == before[sa]);
                        assert(t[b] == before[sb]);
                    }
                    assert forall|m: K::Model| holds(t, m) <==> holds(before, m) && m != k.model() by {
                        if holds(before, m) && m != k.model() {
                            let j = choose|j: int| 0 <= j < before.len() && (#[trigger] before[j]).model() == m;
                            if j < i {
                                assert(t[j].model() == m);
                            } else {
                                assert(t[j - 1].model() == m);
                            }
                        }
                        if holds(t, m) {
                            let j = choose|j: int| 0 <= j < t.len() && (#[trigger] t[j]).model() == m;
                            let sj = if j < i { j } else { j + 1 };
                            assert(before[sj].model() == m);
                            if sj < i {
                                assert(K::before(before[sj].model(), before[i as int].model()));
                            } else {
                                assert(K::before(before[i as int].model(), before[sj].model()));
                            }
                        }
                    }
                    assert(self.set() =~= old(self).set().remove(k.model()));
                }
            },
            None => {
                proof {
                    assert(self.set() =~= old(self).set().remove(k.model()));
                }
            },
        }
    }
}

/// Distinct models in ascending order are as many as the set has members.
pub proof fn lemma_set_len<K: SortKey>(s: &SortedSet<K>)
    requires
        s.wf(),
    ensures
        s.set().finite(),
        s.set().len() == s.items@.len(),
{
    let ms = s.items@.map_values(|k: K| k.model());
    K::order_laws();
    assert(ms.no_duplicates()) by {
        assert forall|i: int, j: int| 0 <= i < ms.len() && 0 <= j < ms.len() && i != j implies ms[i] != ms[j] by {
            if i < j {
                assert(K::before(s.items@[i].model(), s.items@[j].model()));
            } else {
                assert(K::before(s.items@[j].model(), s.items@[i].model()));
            }
        }
    }
    ms.unique_seq_to_set();
    assert(ms.to_set() =~= s.set()) by {
        assert forall|m: K::Model| ms.to_set().contains(m) <==> s.set().contains(m) by {
            if s.set().contains(m) {
                let i = choose|i: int| 0 <= i < s.items@.len() && (#[trigger] s.items@[i]).model() == m;
                assert(ms[i] == m);
            }
            if ms.to_set().contains(m) {
                let i = choose|i: int| 0 <= i < ms.len() && ms[i] == m;
                assert(s.items@[i].model() == m);
            }
        }
    }
    vstd::seq_lib::seq_to_set_is_finite(ms);
}

/// A set of names.
pub type NameSet = SortedSet<String>;

/// A copy of `s` with the same members.
pub fn copy_names(s: &NameSet) -> (r: NameSet)
    requires
        s.wf(),
    ensures
        r.wf(),
        r.set() == s.set(),
{
    let mut items: Vec<String> = Vec::new();
    let mut i: usize = 0;
    while i < s.items.len()
        invariant
            i <= s.items@.len(),
            items@ == s.items@.take(i as int),
        decreases s.items@.len() - i,
    {
        items.push(s.items[i].clone());
        i = i + 1;
        assert(items@ =~= s.items@.take(i as int));
    }
    assert(items@ =~= s.items@);
    SortedSet { items }
}

/// Adds every member of `s` to `t`.
pub fn add_names(t: &mut NameSet, s: &NameSet)
    requires
        old(t).wf(),
        s.wf(),
    ensures
        final(t).wf(),
        final(t).set() == old(t).set().union(s.set()),
{
    let mut i: usize = 0;
    while i < s.items.len()
        invariant
            i <= s.items@.len(),
            t.wf(),
            forall|m: Seq<char>| #[trigger]
                t.set().contains(m) <==> old(t).set().contains(m) || holds(s.items@.take(i as int), m),
        decreases s.items@.len() - i,
    {
        t.insert(s.items[i].clone());
        proof {
            lemma_holds_take(s.items@, i as int);
        }
        i = i + 1;
    }
    proof {
        assert(s.items@.take(i as int) =~= s.items@);
        assert(t.set() =~= old(t).set().union(s.set()));
    }
}

/// One more entry adds one more model.
pub proof fn lemma_holds_take<K: SortKey>(s: Seq<K>, i: int)
    requires
        0 <= i < s.len(),
    ensures
        forall|m: K::Model| #[trigger] holds(s.take(i + 1), m) <==> holds(s.take(i), m) || m == s[i].model(),
{
    let a = s.take(i);
    let b = s.take(i + 1);
    assert forall|m: K::Model| #[trigger] holds(b, m) <==> holds(a, m) || m == s[i].model() by {
        if holds(a, m) {
            let j = choose|j: int| 0 <= j < a.len() && (#[trigger] a[j]).model() == m;
            assert(b[j].model() == m);
        }
        if m == s[i].model() {
            assert(b[i].model() == m);
        }
        if holds(b, m) {
            let j = choose|j: int| 0 <= j < b.len() && (#[trigger] b[j]).model() == m;
            if j < i {
                assert(a[j].model() == m);
            }
        }
    }
}

// ---------------------------------------------------------------------------
// Maps
// ---------------------------------------------------------------------------

/// A map, with its keys in ascending order; the value at an index belongs to
/// the key at that index.
pub struct SortedMap<K, V> {
    pub keys: Vec<K>,
    pub vals: Vec<V>,
}

/// The index of the entry with the model `m`.
pub open spec fn index_of_model<K: SortKey>(s: Seq<K>, m: K::Model) -> int {
    choose|i: int| 0 <= i < s.len() && (#[trigger] s[i]).model() == m
}

impl<K: SortKey, V> SortedMap<K, V> {
    /// In order, without repetition, one value to a key.
    pub open spec fn wf(&self) -> bool {
        &&& ascending(self.keys@)
        &&& self.keys@.len() == self.vals@.len()
    }

    /// The map from models to values.
    pub open spec fn map(&self) -> Map<K::Model, V> {
        Map::new(
            |m: K::Model| holds(self.keys@, m),
            |m: K::Model| self.vals@[index_of_model(self.keys@, m)],
        )
    }

    pub fn new() -> (r: Self)
        ensures
            r.wf(),
            r.keys@.len() == 0,
            r.map() == Map::<K::Model, V>::empty(),
    {
        let r = SortedMap { keys: Vec::new(), vals: Vec::new() };
        proof {
            assert(r.map() =~= Map::<K::Model, V>::empty());
        }
        r
    }

    /// The value of `k`.
    pub fn get(&self, k: &K) -> (r: Option<&V>)
        requires
            self.wf(),
        ensures
            match r {
                Some(v) => self.map().contains_key(k.model()) && *v == self.map()[k.model()],
                None => !self.map().contains_key(k.model()),
            },
    {
        match index_in(&self.keys, k) {
            Some(i) => {
                proof {
                    lemma_map_at(self, i as int);
                }
                Some(&self.vals[i])
            },
            None => None,
        }
    }

    /// Binds `k` to `v`, in place of an earlier binding.
    pub fn insert(&mut self, k: K, v: V)
        requires
            old(self).wf(),
        ensures
            final(self).wf(),
            final(self).map() == old(self).map().insert(k.model(), v),
    {
        let i: usize = lower_bound(&self.keys, &k);
        proof {
            K::order_laws();
        }
        let ghost m = k.model();
        let ghost before = *self;
        if i < self.keys.len() && !k.less(&self.keys[i]) {
            self.vals.set(i, v);
            proof {
                assert(self.keys@[i as int].model() == m);
                assert(holds(self.keys@, m));
                assert forall|x: K::Model| #[trigger] self.map().contains_key(x) implies self.map()[x]
                    == before.map().insert(m, v)[x] by {
                    let j = index_of_model(self.keys@, x);
                    lemma_index_unique(self.keys@, i as int);
                }
                assert(self.map() =~= before.map().insert(m, v));
            }
        } else {
            proof {
                assert forall|j: int| i <= j < before.keys@.len() implies K::before(
                    m,
                    (#[trigger] before.keys@[j]).model(),
                ) by {
                    if j > i {
                        assert(K::before(before.keys@[i as int].model(), before.keys@[j].model()));
                    }
                }
                lemma_ascending_insert(before.keys@, i as int, k);
            }
            self.keys.insert(i, k);
            self.vals.insert(i, v);
            proof {
                assert forall|x: K::Model| #[trigger] self.map().contains_key(x) implies self.map()[x]
                    == before.map().insert(m, v)[x] by {
                    if x == m {
                        assert(self.keys@[i as int].model() == m);
                        lemma_map_at(self, i as int);
                    } else {
                        assert(holds(before.keys@, x));
                        let j = index_of_model(before.keys@, x);
                        assert(before.keys@[j].model() == x);
                        let t = if j < i { j } else { j + 1 };
                        assert(self.keys@[t].model() == x);
                        lemma_map_at(self, t);
                        lemma_map_at(&before, j);
                    }
                }
                assert(self.map() =~= before.map().insert(m, v));
            }
        }
    }

    /// Unbinds `k`.
    pub fn remove(&mut self, k: &K)
        requires
            old(self).wf(),
        ensures
            final(self).wf(),
            final(self).map() == old(self).map().remove(k.model()),
    {
        let ghost before = *self;
        let ghost m = k.model();
        match index_in(&self.keys, k) {
            Some(i) => {
                self.keys.remove(i);
                self.vals.remove(i);
                proof {
                    K::order_laws();
                    assert(self.keys@ == before.keys@.remove(i as int));
                    assert forall|a: int, b: int| 0 <= a < b < self.keys@.len() implies K::before(
                        (#[trigger] self.keys@[a]).model(),
                        (#[trigger] self.keys@[b]).model(),
                    ) by {
                        let x = if a < i { a } else { a + 1 };
                        let y = if b < i { b } else { b + 1 };
                        assert(self.keys@[a] == before.keys@[x]);
                        assert(self.keys@[b] == before.keys@[y]);
                    }
                    assert forall|x: K::Model| #[trigger] self.map().contains_key(x) <==> before.map().remove(
                        m,
                    ).contains_key(x) by {
                        if holds(self.keys@, x) {
                            let j = index_of_model(self.keys@, x);
                            let t = if j < i { j } else { j + 1 };
                            assert(self.keys@[j] == before.keys@[t]);
                            assert(holds(before.keys@, x));
                            if x == m {
                                lemma_index_unique(before.keys@, t);
                                lemma_index_unique(before.keys@, i as int);
                            }
                        }
                        if holds(before.keys@, x) && x != m {
                            let j = index_of_model(before.keys@, x);
                            let t = if j < i { j } else { j - 1 };
                            assert(self.keys@[t] == before.keys@[j]);
                            assert(holds(self.keys@, x));
                        }
                    }
                    assert forall|x: K::Model| #[trigger] self.map().contains_key(x) implies self.map()[x]
                        == before.map().remove(m)[x] by {
                        let j = index_of_model(self.keys@, x);
                        assert(holds(self.keys@, x));
                        let t = if j < i { j } else { j + 1 };
                        assert(self.keys@[j] == before.keys@[t]);
                        lemma_map_at(self, j);
                        lemma_map_at(&before, t);
                    }
                    assert(self.map() =~= before.map().remove(m));
                }
            },
            None => {
                proof {
                    assert(self.map() =~= before.map().remove(m));
                }
            },
        }
    }
}

/// In an ascending list the index of a model is the index it was read at.
pub proof fn lemma_index_unique<K: SortKey>(s: Seq<K>, i: int)
    requires
        ascending(s),
        0 <= i < s.len(),
    ensures
        index_of_model(s, s[i].model()) == i,
        holds(s, s[i].model()),
{
    K::order_laws();
    let j = index_of_model(s, s[i].model());
    assert(0 <= j < s.len() && s[j].model() == s[i].model());
    if j < i {
        assert(K::before(s[j].model(), s[i].model()));
    } else if i < j {
        assert(K::before(s[i].model(), s[j].model()));
    }
}

/// What the map gives for the key at index `i`.
pub proof fn lemma_map_at<K: SortKey, V>(m: &SortedMap<K, V>, i: int)
    requires
        m.wf(),
        0 <= i < m.keys@.len(),
    ensures
        m.map().contains_key(m.keys@[i].model()),
        m.map()[m.keys@[i].model()] == m.vals@[i],
{
    lemma_index_unique(m.keys@, i);
}

/// A map has as many keys as entries.
pub proof fn lemma_map_len<K: SortKey, V>(m: &SortedMap<K, V>)
    requires
        m.wf(),
    ensures
        m.map().dom().finite(),
        m.map().dom().len() == m.keys@.len(),
{
    let ms = m.keys@.map_values(|k: K| k.model());
    K::order_laws();
    assert(ms.no_duplicates()) by {
        assert forall|i: int, j: int| 0 <= i < ms.len() && 0 <= j < ms.len() && i != j implies ms[i] != ms[j] by {
            if i < j {
                assert(K::before(m.keys@[i].model(), m.keys@[j].model()));
            } else {
                assert(K::before(m.keys@[j].model(), m.keys@[i].model()));
            }
        }
    }
    ms.unique_seq_to_set();
    assert forall|x: K::Model| ms.to_set().contains(x) <==> m.map().dom().contains(x) by {
        if m.map().dom().contains(x) {
            let i = choose|i: int| 0 <= i < m.keys@.len() && (#[trigger] m.keys@[i]).model() == x;
            assert(ms[i] == x);
        }
        if ms.to_set().contains(x) {
            let i = choose|i: int| 0 <= i < ms.len() && ms[i] == x;
            assert(m.keys@[i].model() == x);
        }
    }
    assert(ms.to_set() =~= m.map().dom());
}

/// A map from names.
pub type NameMap<V> = SortedMap<String, V>;

/// Texts are ordered as in a dictionary: by the first character in which they differ, and
/// a text before those that it begins.
pub proof fn texts_are_ordered_as_in_a_dictionary(p: Seq<char>, x: char, a: Seq<char>, y: char, b: Seq<char>)
    ensures
        lex_lt(p, p + seq![x] + a),
        !lex_lt(p + seq![x] + a, p),
        (x as u32) < (y as u32) ==> lex_lt(p + seq![x] + a, p + seq![y] + b) && !lex_lt(p + seq![y] + b, p + seq![x] + a),
        !lex_lt(p, p),
    decreases p.len(),
{
    let s = p + seq![x] + a;
    let t = p + seq![y] + b;
    if p.len() > 0 {
        texts_are_ordered_as_in_a_dictionary(p.drop_first(), x, a, y, b);
        assert(s.drop_first() =~= p.drop_first() + seq![x] + a);
        assert(t.drop_first() =~= p.drop_first() + seq![y] + b);
    } else {
        assert(s[0] == x && t[0] == y);
    }
}

} // verus!
