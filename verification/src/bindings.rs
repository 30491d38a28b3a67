//! The native functions behind the names of a script's bindings.
//!
//! A registration loads a name and a pointer to the function behind it close to
//! each other, and then calls. Each load of a name is paired with the nearest
//! load of a pointer into code. How sure that is follows from the distance and
//! from whether a call is near.

use vstd::prelude::*;
use vstd::string::{StrSliceExecFns, StringExecFns};

use crate::arch::{DecodedInsn, InsnKind};
use crate::ctx::{text_of, Ctx};
use crate::klass::{ascii, is_letter, is_letter_byte};
use crate::order::{lemma_stable_map, sort_stable, stable, Ranked, Sortable};
use crate::sorted::{lemma_set_len, lex_lt, name_less, NameSet, SortKey, SortedSet};
use crate::source::{sat_add, CoreError, SourceError};
use crate::text::same;
use crate::va::Va;

verus! {

/// Where to look.
#[derive(Clone, Debug, PartialEq, Eq)]
pub struct BindingsInput {
    /// Where names stand.
    pub data_start: Va,
    pub data_size: usize,
    /// Where the code stands, and the functions.
    pub code_start: Va,
    pub code_size: usize,
    /// The names that are looked for; all if there are none.
    pub names: Vec<String>,
    /// How many instructions on each side of a load are looked at.
    pub window: usize,
    pub limit: usize,
}

/// How sure a pairing is, by the distance of the two loads. A score is the bit
/// pattern of a number from zero to one, so that it orders as the number does.
/// A distance without a score counts as zero.
#[derive(Clone, Debug, PartialEq, Eq)]
pub struct ScoreTable {
    pub with_call: Vec<u32>,
    pub without_call: Vec<u32>,
}

/// A name and the function behind it.
#[derive(Clone, Debug, PartialEq, Eq)]
pub struct Binding {
    pub name: String,
    pub name_addr: Va,
    /// The instruction that loads the name.
    pub name_ref_site: Va,
    pub cfunc: Va,
    /// The instruction that loads the pointer to the function.
    pub cfunc_ref_site: Va,
    /// How many instructions stand between the two; none where they are adjacent.
    pub distance_insns: usize,
    pub call_nearby: bool,
    /// How sure the pairing is, as a bit pattern.
    pub confidence: u32,
}

/// What was found.
#[derive(Clone, Debug, PartialEq, Eq)]
pub struct BindingsArtifact {
    pub count: usize,
    /// How many different names have a function, those beyond the limit included.
    pub named: usize,
    pub bindings: Vec<Binding>,
}

/// A pairing, by contents.
pub ghost struct BindingNode {
    pub name: Seq<char>,
    pub name_addr: Va,
    pub name_ref_site: Va,
    pub cfunc: Va,
    pub cfunc_ref_site: Va,
    pub distance_insns: nat,
    pub call_nearby: bool,
    pub confidence: u32,
}

pub open spec fn binding_node(b: Binding) -> BindingNode {
    BindingNode {
        name: b.name@,
        name_addr: b.name_addr,
        name_ref_site: b.name_ref_site,
        cfunc: b.cfunc,
        cfunc_ref_site: b.cfunc_ref_site,
        distance_insns: b.distance_insns as nat,
        call_nearby: b.call_nearby,
        confidence: b.confidence,
    }
}

pub open spec fn binding_nodes(v: Seq<Binding>) -> Seq<BindingNode> {
    v.map_values(|b: Binding| binding_node(b))
}

// ---------------------------------------------------------------------------
// Names
// ---------------------------------------------------------------------------

/// A character that a name may hold behind its first.
pub open spec fn in_identifier(c: u8) -> bool {
    is_letter(c) || (0x30 <= c <= 0x39) || c == 0x5f || c == 0x2e || c == 0x3a
}

/// Where the characters of a name end, from `k` on.
pub open spec fn identifier_end(data: Seq<u8>, k: int) -> int
    decreases data.len() - k,
{
    if 0 <= k < data.len() && in_identifier(data[k]) {
        identifier_end(data, k + 1)
    } else {
        k
    }
}

/// The name at an offset: it is as long as asked for, and a byte that no name
/// holds follows it, so that no slice of a name is taken for a whole one.
pub open spec fn identifier_at(data: Seq<u8>, off: int, min_len: nat, max_len: nat) -> Option<Seq<char>> {
    if off < 0 || off >= data.len() || !(data[off] == 0x5f || is_letter(data[off])) {
        None
    } else {
        let end = identifier_end(data, off);
        if min_len <= end - off <= max_len && end < data.len() {
            Some(ascii(data.subrange(off, end)))
        } else {
            None
        }
    }
}

fn in_identifier_byte(c: u8) -> (r: bool)
    ensures
        r == in_identifier(c),
{
    is_letter_byte(c) || (0x30 <= c && c <= 0x39) || c == 0x5f || c == 0x2e || c == 0x3a
}

/// Reads the name at an offset.
pub fn read_identifier_at(data: &[u8], off: usize, min_len: usize, max_len: usize) -> (r: Option<String>)
    ensures
        text_of(r) == identifier_at(data@, off as int, min_len as nat, max_len as nat),
{
    if off >= data.len() || (data[off] != 0x5f && !is_letter_byte(data[off])) {
        return None;
    }
    let mut s: String = String::new();
    let mut k: usize = off;
    assert(s@ =~= ascii(data@.subrange(off as int, off as int)));
    while k < data.len() && in_identifier_byte(data[k])
        invariant
            off <= k <= data@.len(),
            identifier_end(data@, off as int) == identifier_end(data@, k as int),
            s@ == ascii(data@.subrange(off as int, k as int)),
        decreases data@.len() - k,
    {
        let c: u8 = data[k];
        s.push(c as char);
        k = k + 1;
        assert(ascii(data@.subrange(off as int, k as int)) =~= ascii(data@.subrange(off as int, k - 1)).push(c as char));
    }
    let n: usize = k - off;
    if n < min_len || n > max_len || k >= data.len() {
        return None;
    }
    Some(s)
}

// ---------------------------------------------------------------------------
// Pairs
// ---------------------------------------------------------------------------

/// The name is one of those that are looked for.
pub open spec fn wanted(names: Seq<String>, n: Seq<char>) -> bool {
    names.len() == 0 || exists|i: int| 0 <= i < names.len() && (#[trigger] names[i])@ == n
}

/// The name that an instruction loads, and where it stands.
pub open spec fn loads_name(data: Seq<u8>, input: BindingsInput, x: DecodedInsn) -> Option<(Va, Seq<char>)> {
    let lo = input.data_start.0;
    match x.rip_target {
        Some(t) => if x.mnemonic@ == "lea"@ && lo <= t.0 < sat_add(lo, data.len() as u64) {
            match identifier_at(data, t.0 - lo, 2, 64) {
                Some(n) => if wanted(input.names@, n) {
                    Some((t, n))
                } else {
                    None
                },
                None => None,
            }
        } else {
            None
        },
        None => None,
    }
}

/// The function to which an instruction loads a pointer.
pub open spec fn loads_code(input: BindingsInput, x: DecodedInsn) -> Option<Va> {
    let lo = input.code_start.0;
    match x.rip_target {
        Some(t) => if x.mnemonic@ == "lea"@ && lo <= t.0 < sat_add(lo, input.code_size as u64) {
            Some(t)
        } else {
            None
        },
        None => None,
    }
}

pub open spec fn apart(a: int, b: int) -> int {
    if a >= b {
        a - b
    } else {
        b - a
    }
}

/// The instruction among `lo..k` that loads a pointer to a function and is
/// nearest to `i`; of two equally near the first.
pub open spec fn nearest(insns: Seq<DecodedInsn>, input: BindingsInput, i: int, lo: int, k: int) -> Option<int>
    decreases k - lo,
{
    if k <= lo {
        None
    } else {
        let best = nearest(insns, input, i, lo, k - 1);
        if k - 1 == i || loads_code(input, insns[k - 1]) is None {
            best
        } else {
            match best {
                Some(b) => if apart(b, i) <= apart(k - 1, i) {
                    best
                } else {
                    Some(k - 1)
                },
                None => Some(k - 1),
            }
        }
    }
}

/// `a` without `b`, or zero.
pub open spec fn less(a: int, b: int) -> int {
    if a >= b {
        a - b
    } else {
        0
    }
}

pub open spec fn at_most_len(a: int, n: nat) -> int {
    if a <= n {
        a
    } else {
        n as int
    }
}

/// A call stands near the two loads.
pub open spec fn call_near(insns: Seq<DecodedInsn>, window: usize, i: int, c: int) -> bool {
    let first = if i <= c {
        i
    } else {
        c
    };
    let last = if i <= c {
        c
    } else {
        i
    };
    exists|k: int|
        less(first, window as int) <= k < at_most_len(last + window + 1, insns.len()) && (
        #[trigger] insns[k]).kind == InsnKind::Call
}

pub open spec fn score(t: ScoreTable, distance: int, call: bool) -> u32 {
    let v = if call {
        t.with_call@
    } else {
        t.without_call@
    };
    if 0 <= distance < v.len() {
        v[distance]
    } else {
        0
    }
}

/// The pairing for the instruction `i`.
pub open spec fn pair_at(
    insns: Seq<DecodedInsn>,
    data: Seq<u8>,
    input: BindingsInput,
    scores: ScoreTable,
    i: int,
) -> Option<BindingNode> {
    match loads_name(data, input, insns[i]) {
        None => None,
        Some((name_addr, name)) => match nearest(
            insns,
            input,
            i,
            less(i, input.window as int),
            at_most_len(i + input.window + 1, insns.len()),
        ) {
            None => None,
            Some(c) => {
                let call = call_near(insns, input.window, i, c);
                Some(
                    BindingNode {
                        name,
                        name_addr,
                        name_ref_site: insns[i].va,
                        cfunc: loads_code(input, insns[c])->0,
                        cfunc_ref_site: insns[c].va,
                        distance_insns: (apart(c, i) - 1) as nat,
                        call_nearby: call,
                        confidence: score(scores, apart(c, i), call),
                    },
                )
            },
        },
    }
}

/// The pairing of this name and function is already there.
pub open spec fn is_known(done: Seq<BindingNode>, b: BindingNode) -> bool {
    exists|j: int|
        0 <= j < done.len() && (#[trigger] done[j]).name_addr == b.name_addr && done[j].cfunc == b.cfunc
}

/// The pairings of the first `k` instructions, each name and function once.
pub open spec fn pairs(
    insns: Seq<DecodedInsn>,
    data: Seq<u8>,
    input: BindingsInput,
    scores: ScoreTable,
    k: int,
) -> Seq<BindingNode>
    decreases k,
{
    if k <= 0 {
        Seq::empty()
    } else {
        let done = pairs(insns, data, input, scores, k - 1);
        match pair_at(insns, data, input, scores, k - 1) {
            Some(b) => if is_known(done, b) {
                done
            } else {
                done.push(b)
            },
            None => done,
        }
    }
}

/// The surer come first, and of equally sure ones the lesser name.
pub open spec fn surer(a: u32, x: Seq<char>, b: u32, y: Seq<char>) -> bool {
    a > b || (a == b && !lex_lt(y, x))
}

impl Ranked for BindingNode {
    open spec fn at_most(self, other: BindingNode) -> bool {
        surer(self.confidence, self.name, other.confidence, other.name)
    }

    proof fn rank_laws(a: BindingNode, b: BindingNode, c: BindingNode) {
        <String as SortKey>::order_laws();
        lemma_names(a.name, b.name, c.name);
    }
}

impl Ranked for Binding {
    open spec fn at_most(self, other: Binding) -> bool {
        surer(self.confidence, self.name@, other.confidence, other.name@)
    }

    proof fn rank_laws(a: Binding, b: Binding, c: Binding) {
        lemma_names(a.name@, b.name@, c.name@);
    }
}

proof fn lemma_names(a: Seq<char>, b: Seq<char>, c: Seq<char>)
    ensures
        !lex_lt(a, b) || !lex_lt(b, a),
        !lex_lt(b, a) && !lex_lt(c, b) ==> !lex_lt(c, a),
{
    <String as SortKey>::order_laws();
    assert(<String as SortKey>::before(a, b) == lex_lt(a, b));
    assert(<String as SortKey>::before(b, a) == lex_lt(b, a));
    assert(<String as SortKey>::before(c, b) == lex_lt(c, b));
    assert(<String as SortKey>::before(b, c) == lex_lt(b, c));
    assert(<String as SortKey>::before(c, a) == lex_lt(c, a));
    assert(<String as SortKey>::before(a, c) == lex_lt(a, c));
    assert(<String as SortKey>::before(a, a) == lex_lt(a, a));
}

impl Sortable for Binding {
    fn not_after(&self, other: &Binding) -> (r: bool) {
        self.confidence > other.confidence || (self.confidence == other.confidence && !name_less(
            other.name.as_str(),
            self.name.as_str(),
        ))
    }
}

/// The names of the pairings.
pub open spec fn names_in(s: Seq<BindingNode>) -> Set<Seq<char>> {
    s.map_values(|b: BindingNode| b.name).to_set()
}

/// The artifact is what the code and the data say.
pub open spec fn binds(
    insns: Seq<DecodedInsn>,
    data: Seq<u8>,
    input: BindingsInput,
    scores: ScoreTable,
    a: BindingsArtifact,
) -> bool {
    let all = stable(pairs(insns, data, input, scores, insns.len() as int));
    let kept = all.take(at_most_len(input.limit as int, all.len()));
    &&& binding_nodes(a.bindings@) == kept
    &&& a.count == kept.len()
    &&& a.named == names_in(all).len()
}

fn is_wanted(names: &Vec<String>, n: &str) -> (r: bool)
    ensures
        r == wanted(names@, n@),
{
    if names.len() == 0 {
        return true;
    }
    let mut i: usize = 0;
    while i < names.len()
        invariant
            names@.len() > 0,
            i <= names@.len(),
            forall|j: int| 0 <= j < i ==> (#[trigger] names@[j])@ != n@,
        decreases names@.len() - i,
    {
        if same(names[i].as_str(), n) {
            assert(names@[i as int]@ == n@);
            return true;
        }
        i = i + 1;
    }
    false
}

fn loaded_name(data: &[u8], input: &BindingsInput, x: &DecodedInsn) -> (r: Option<(Va, String)>)
    ensures
        match (r, loads_name(data@, *input, *x)) {
            (Some((v, s)), Some((w, t))) => v == w && s@ == t,
            (None, None) => true,
            _ => false,
        },
{
    let lo: u64 = input.data_start.0;
    match x.rip_target {
        Some(t) => {
            let hi: u64 = lo.saturating_add(data.len() as u64);
            if !same(x.mnemonic.as_str(), "lea") || t.0 < lo || t.0 >= hi {
                return None;
            }
            match read_identifier_at(data, (t.0 - lo) as usize, 2, 64) {
                Some(n) => {
                    if is_wanted(&input.names, n.as_str()) {
                        Some((t, n))
                    } else {
                        None
                    }
                },
                None => None,
            }
        },
        None => None,
    }
}

fn loaded_code(input: &BindingsInput, x: &DecodedInsn) -> (r: Option<Va>)
    ensures
        r == loads_code(*input, *x),
{
    let lo: u64 = input.code_start.0;
    match x.rip_target {
        Some(t) => {
            let hi: u64 = lo.saturating_add(input.code_size as u64);
            if same(x.mnemonic.as_str(), "lea") && lo <= t.0 && t.0 < hi {
                Some(t)
            } else {
                None
            }
        },
        None => None,
    }
}

fn gap(a: usize, b: usize) -> (r: usize)
    ensures
        r == apart(a as int, b as int),
{
    if a >= b {
        a - b
    } else {
        b - a
    }
}

/// Where the neighbourhood of `i` ends.
fn upper(i: usize, window: usize, n: usize) -> (r: usize)
    requires
        i < n,
    ensures
        r == at_most_len(i + window + 1, n as nat),
        r <= n,
{
    if window >= n - i - 1 {
        n
    } else {
        i + window + 1
    }
}

fn lower(i: usize, window: usize) -> (r: usize)
    ensures
        r == less(i as int, window as int),
        r <= i,
{
    if i >= window {
        i - window
    } else {
        0
    }
}

fn find_nearest(insns: &Vec<DecodedInsn>, input: &BindingsInput, i: usize) -> (r: Option<usize>)
    requires
        i < insns@.len(),
    ensures
        match (
            r,
            nearest(
                insns@,
                *input,
                i as int,
                less(i as int, input.window as int),
                at_most_len(i + input.window + 1, insns@.len()),
            ),
        ) {
            (Some(a), Some(b)) => a == b && a < insns@.len() && loads_code(*input, insns@[b]) is Some,
            (None, None) => true,
            _ => false,
        },
{
    let lo: usize = lower(i, input.window);
    let hi: usize = upper(i, input.window, insns.len());
    let mut best: Option<usize> = None;
    let mut k: usize = lo;
    while k < hi
        invariant
            i < insns@.len(),
            lo <= k,
            k <= hi || k == lo,
            hi <= insns@.len(),
            match (best, nearest(insns@, *input, i as int, lo as int, k as int)) {
                (Some(a), Some(b)) => a == b && a < insns@.len() && loads_code(*input, insns@[b]) is Some,
                (None, None) => true,
                _ => false,
            },
        decreases hi - k,
    {
        if k != i && loaded_code(input, &insns[k]).is_some() {
            match best {
                Some(b) => {
                    if gap(b, i) > gap(k, i) {
                        best = Some(k);
                    }
                },
                None => {
                    best = Some(k);
                },
            }
        }
        k = k + 1;
    }
    best
}

fn any_call(insns: &Vec<DecodedInsn>, from: usize, to: usize) -> (r: bool)
    requires
        to <= insns@.len(),
    ensures
        r == exists|k: int| from <= k < to && (#[trigger] insns@[k]).kind == InsnKind::Call,
{
    let mut k: usize = from;
    while k < to
        invariant
            from <= k,
            to <= insns@.len(),
            forall|j: int| from <= j < k ==> (#[trigger] insns@[j]).kind != InsnKind::Call,
        decreases to - k,
    {
        let hit = match insns[k].kind {
            InsnKind::Call => true,
            _ => false,
        };
        if hit {
            assert(insns@[k as int].kind == InsnKind::Call);
            return true;
        }
        k = k + 1;
    }
    false
}

fn has_call(insns: &Vec<DecodedInsn>, window: usize, i: usize, c: usize) -> (r: bool)
    requires
        i < insns@.len(),
        c < insns@.len(),
    ensures
        r == call_near(insns@, window, i as int, c as int),
{
    let (first, last): (usize, usize) = if i <= c {
        (i, c)
    } else {
        (c, i)
    };
    any_call(insns, lower(first, window), upper(last, window, insns.len()))
}

fn look_up(t: &ScoreTable, distance: usize, call: bool) -> (r: u32)
    ensures
        r == score(*t, distance as int, call),
{
    let v = if call {
        &t.with_call
    } else {
        &t.without_call
    };
    if distance < v.len() {
        v[distance]
    } else {
        0
    }
}

fn make_pair(insns: &Vec<DecodedInsn>, data: &[u8], input: &BindingsInput, scores: &ScoreTable, i: usize) -> (r: Option<
    Binding,
>)
    requires
        i < insns@.len(),
    ensures
        match (r, pair_at(insns@, data@, *input, *scores, i as int)) {
            (Some(a), Some(b)) => binding_node(a) == b,
            (None, None) => true,
            _ => false,
        },
{
    let (name_addr, name) = match loaded_name(data, input, &insns[i]) {
        Some(x) => x,
        None => {
            return None;
        },
    };
    let c: usize = match find_nearest(insns, input, i) {
        Some(c) => c,
        None => {
            return None;
        },
    };
    let cfunc = match loaded_code(input, &insns[c]) {
        Some(v) => v,
        None => {
            return None;
        },
    };
    let call = has_call(insns, input.window, i, c);
    let distance: usize = gap(c, i);
    proof {
        lemma_nearest(
            insns@,
            *input,
            i as int,
            less(i as int, input.window as int),
            at_most_len(i + input.window + 1, insns@.len()),
        );
    }
    Some(
        Binding {
            name,
            name_addr,
            name_ref_site: insns[i].va,
            cfunc,
            cfunc_ref_site: insns[c].va,
            distance_insns: distance - 1,
            call_nearby: call,
            confidence: look_up(scores, distance, call),
        },
    )
}

fn knows(done: &Vec<Binding>, b: &Binding) -> (r: bool)
    ensures
        r == is_known(binding_nodes(done@), binding_node(*b)),
{
    let mut j: usize = 0;
    while j < done.len()
        invariant
            j <= done@.len(),
            forall|k: int|
                0 <= k < j ==> !((#[trigger] done@[k]).name_addr == b.name_addr && done@[k].cfunc == b.cfunc),
        decreases done@.len() - j,
    {
        if done[j].name_addr.0 == b.name_addr.0 && done[j].cfunc.0 == b.cfunc.0 {
            assert(binding_nodes(done@)[j as int] == binding_node(done@[j as int]));
            return true;
        }
        j = j + 1;
    }
    proof {
        assert forall|k: int| 0 <= k < binding_nodes(done@).len() implies !((#[trigger] binding_nodes(
            done@,
        )[k]).name_addr == b.name_addr && binding_nodes(done@)[k].cfunc == b.cfunc) by {
            assert(binding_nodes(done@)[k] == binding_node(done@[k]));
        }
    }
    false
}

fn count_named(v: &Vec<Binding>) -> (n: usize)
    ensures
        n == names_in(binding_nodes(v@)).len(),
{
    let mut set: NameSet = SortedSet::new();
    let mut k: usize = 0;
    let ghost names = binding_nodes(v@).map_values(|b: BindingNode| b.name);
    while k < v.len()
        invariant
            set.wf(),
            k <= v@.len(),
            names == binding_nodes(v@).map_values(|b: BindingNode| b.name),
            forall|n: Seq<char>| #[trigger]
                set.set().contains(n) <==> exists|j: int| 0 <= j < k && #[trigger] names[j] == n,
        decreases v@.len() - k,
    {
        let ghost before = set.set();
        set.insert(v[k].name.clone());
        proof {
            let name = v@[k as int].name@;
            assert(names[k as int] == name);
            assert forall|n: Seq<char>| #[trigger]
                set.set().contains(n) <==> exists|j: int| 0 <= j < k + 1 && #[trigger] names[j] == n by {
                assert(before.contains(n) <==> exists|j: int| 0 <= j < k && #[trigger] names[j] == n);
            }
        }
        k = k + 1;
    }
    proof {
        lemma_set_len(&set);
        assert forall|n: Seq<char>| #[trigger] set.set().contains(n) <==> names.to_set().contains(n) by {
            if names.to_set().contains(n) {
                let j = choose|j: int| 0 <= j < names.len() && names[j] == n;
                assert(names[j] == n);
            }
        }
        assert(set.set() =~= names.to_set());
    }
    set.items.len()
}

/// Pairs the names of bindings with the functions behind them.
pub struct BindingsPass;

impl BindingsPass {
    pub fn name(&self) -> (r: &'static str)
        ensures
            r@ == "bindings.list"@,
    {
        "bindings.list"
    }

    /// Pairs the names that the decoded instructions `insns` of the code load
    /// with functions, the surest first.
    pub fn run(&self, ctx: &Ctx, insns: &Vec<DecodedInsn>, scores: &ScoreTable, input: BindingsInput) -> (r: Result<
        BindingsArtifact,
        CoreError,
    >)
        ensures
            match (
                ctx.source.read_of(input.data_start.0, input.data_size as nat),
                ctx.source.read_of(input.code_start.0, input.code_size as nat),
            ) {
                (None, _) => r == Err::<BindingsArtifact, CoreError>(
                    CoreError::Source(SourceError::Unmapped(input.data_start)),
                ),
                (Some(_), None) => r == Err::<BindingsArtifact, CoreError>(
                    CoreError::Source(SourceError::Unmapped(input.code_start)),
                ),
                (Some(data), Some(_)) => r matches Ok(a) && binds(insns@, data, input, *scores, a),
            },
    {
        let data = match ctx.source.read(input.data_start, input.data_size) {
            Ok(b) => b,
            Err(e) => {
                return Err(CoreError::Source(e));
            },
        };
        match ctx.source.read(input.code_start, input.code_size) {
            Ok(_) => {},
            Err(e) => {
                return Err(CoreError::Source(e));
            },
        }
        let mut out: Vec<Binding> = Vec::new();
        let mut i: usize = 0;
        assert(binding_nodes(out@) =~= Seq::<BindingNode>::empty());
        while i < insns.len()
            invariant
                i <= insns@.len(),
                binding_nodes(out@) == pairs(insns@, data@, input, *scores, i as int),
            decreases insns@.len() - i,
        {
            match make_pair(insns, data.as_slice(), &input, scores, i) {
                Some(b) => {
                    if !knows(&out, &b) {
                        let ghost before = binding_nodes(out@);
                        assert(binding_nodes(out@.push(b)) =~= before.push(binding_node(b)));
                        out.push(b);
                    }
                },
                None => {},
            }
            i = i + 1;
        }
        proof {
            lemma_stable_map(out@, |b: Binding| binding_node(b));
        }
        let mut sorted = sort_stable(out);
        let ghost all = binding_nodes(sorted@);
        let n: usize = if input.limit <= sorted.len() {
            input.limit
        } else {
            sorted.len()
        };
        let named: usize = count_named(&sorted);
        sorted.truncate(n);
        proof {
            assert(binding_nodes(sorted@) =~= all.take(n as int));
        }
        Ok(BindingsArtifact { count: sorted.len(), named, bindings: sorted })
    }
}

// ---------------------------------------------------------------------------
// Laws
// ---------------------------------------------------------------------------

proof fn lemma_nearest(insns: Seq<DecodedInsn>, input: BindingsInput, i: int, lo: int, k: int)
    ensures
        match nearest(insns, input, i, lo, k) {
            Some(c) => {
                &&& lo <= c < k
                &&& c != i
                &&& loads_code(input, insns[c]) is Some
                &&& forall|j: int|
                    lo <= j < k && j != i && loads_code(input, #[trigger] insns[j]) is Some ==> apart(c, i) <= apart(j, i)
            },
            None => forall|j: int| lo <= j < k && j != i ==> loads_code(input, #[trigger] insns[j]) is None,
        },
    decreases k - lo,
{
    if k > lo {
        lemma_nearest(insns, input, i, lo, k - 1);
    }
}

/// A name is paired with the function whose pointer is loaded nearest to it, and
/// never with one that is loaded farther away than the window.
pub proof fn names_are_paired_with_the_nearest_function(
    insns: Seq<DecodedInsn>,
    data: Seq<u8>,
    input: BindingsInput,
    scores: ScoreTable,
    i: int,
)
    requires
        0 <= i < insns.len(),
    ensures
        pair_at(insns, data, input, scores, i) matches Some(b) ==> {
            &&& b.distance_insns < input.window
            &&& exists|c: int|
                0 <= c < insns.len() && c != i && loads_code(input, #[trigger] insns[c]) == Some(b.cfunc) && apart(c, i)
                    == b.distance_insns + 1
            &&& forall|j: int|
                0 <= j < insns.len() && j != i && apart(j, i) <= input.window && loads_code(input, #[trigger] insns[j]) is Some
                    ==> b.distance_insns < apart(j, i)
        },
{
    let lo = less(i, input.window as int);
    let hi = at_most_len(i + input.window + 1, insns.len());
    lemma_nearest(insns, input, i, lo, hi);
    if pair_at(insns, data, input, scores, i) is Some {
        let c = nearest(insns, input, i, lo, hi)->0;
        assert(loads_code(input, insns[c]) is Some);
    }
}

/// A name without a function near it is not reported.
pub proof fn names_without_a_function_are_left_out(
    insns: Seq<DecodedInsn>,
    data: Seq<u8>,
    input: BindingsInput,
    scores: ScoreTable,
    i: int,
)
    requires
        0 <= i < insns.len(),
        forall|j: int|
            0 <= j < insns.len() && j != i && apart(j, i) <= input.window ==> loads_code(input, #[trigger] insns[j]) is None,
    ensures
        pair_at(insns, data, input, scores, i) is None,
{
    let lo = less(i, input.window as int);
    let hi = at_most_len(i + input.window + 1, insns.len());
    lemma_nearest(insns, input, i, lo, hi);
    if nearest(insns, input, i, lo, hi) is Some {
        let c = nearest(insns, input, i, lo, hi)->0;
        assert(loads_code(input, insns[c]) is Some);
    }
}

// ---------------------------------------------------------------------------
// What a name is found by
// ---------------------------------------------------------------------------

/// A name is a run of letters, digits, underscores, dots and colons that begins with a
/// letter or an underscore and that another byte ends.
pub proof fn names_are_whole_runs(data: Seq<u8>, off: int, end: int, min_len: nat, max_len: nat)
    requires
        0 <= off < end < data.len(),
        forall|i: int| off <= i < end ==> in_identifier(#[trigger] data[i]),
        !in_identifier(data[end]),
    ensures
        (is_letter(data[off]) || data[off] == '_' as u8) && min_len <= end - off <= max_len ==> identifier_at(
            data,
            off,
            min_len,
            max_len,
        ) == Some(ascii(data.subrange(off, end))),
        '0' as u8 <= data[off] <= '9' as u8 ==> identifier_at(data, off, min_len, max_len) is None,
        end - off < min_len || end - off > max_len ==> identifier_at(data, off, min_len, max_len) is None,
{
    lemma_identifier_end(data, off, end);
}

proof fn lemma_identifier_end(data: Seq<u8>, k: int, end: int)
    requires
        0 <= k <= end < data.len(),
        forall|i: int| k <= i < end ==> in_identifier(#[trigger] data[i]),
        !in_identifier(data[end]),
    ensures
        identifier_end(data, k) == end,
    decreases end - k,
{
    if k < end {
        lemma_identifier_end(data, k + 1, end);
    }
}

/// An instruction loads a name, or a pointer to a function, where it is a `lea` of an
/// address in the data, or in the code.
pub proof fn loads_go_by_the_address(data: Seq<u8>, input: BindingsInput, x: DecodedInsn)
    ensures
        loads_name(data, input, x) matches Some((t, n)) ==> x.mnemonic@ == "lea"@ && x.rip_target == Some(t)
            && input.data_start.0 <= t.0 && identifier_at(data, t.0 - input.data_start.0, 2, 64) == Some(n) && wanted(
            input.names@,
            n,
        ),
        loads_code(input, x) matches Some(t) ==> x.mnemonic@ == "lea"@ && x.rip_target == Some(t) && input.code_start.0
            <= t.0,
        x.mnemonic@ == "lea"@ ==> (x.rip_target matches Some(t) ==> (input.code_start.0 <= t.0 < input.code_start.0
            + input.code_size && input.code_start.0 + input.code_size <= u64::MAX ==> loads_code(input, x) == Some(t))),
        x.mnemonic@ != "lea"@ ==> loads_name(data, input, x) is None && loads_code(input, x) is None,
        input.names@.len() == 0 ==> wanted(input.names@, Seq::empty()),
{
}

/// A pairing is made of what its two instructions load, the number of instructions
/// between them, and whether a call is near.
pub proof fn pairings_are_made_of_their_loads(
    insns: Seq<DecodedInsn>,
    data: Seq<u8>,
    input: BindingsInput,
    scores: ScoreTable,
    i: int,
)
    ensures
        pair_at(insns, data, input, scores, i) matches Some(b) ==> {
            &&& loads_name(data, input, insns[i]) == Some((b.name_addr, b.name))
            &&& b.name_ref_site == insns[i].va
            &&& nearest(
                insns,
                input,
                i,
                less(i, input.window as int),
                at_most_len(i + input.window + 1, insns.len()),
            ) matches Some(c) && b.cfunc_ref_site == insns[c].va && loads_code(input, insns[c])->0 == b.cfunc && (c > i
                ==> b.distance_insns == (c - i - 1) as nat) && (c < i ==> b.distance_insns == (i - c - 1) as nat)
                && b.call_nearby == call_near(insns, input.window, i, c) && b.confidence == score(
                scores,
                if c > i {
                    c - i
                } else {
                    i - c
                },
                b.call_nearby,
            )
        },
        loads_name(data, input, insns[i]) is None ==> pair_at(insns, data, input, scores, i) is None,
{
}

/// The score of a pairing goes by its distance, in the table for pairings with or without
/// a call.
pub proof fn scores_go_by_distance_and_call(t: ScoreTable, distance: int)
    ensures
        0 <= distance < t.with_call@.len() ==> score(t, distance, true) == t.with_call@[distance],
        0 <= distance < t.without_call@.len() ==> score(t, distance, false) == t.without_call@[distance],
        distance >= t.with_call@.len() ==> score(t, distance, true) == 0,
{
}

/// The surer pairing comes first, and of two that are equally sure the one whose name
/// comes first.
pub proof fn surer_pairings_come_first(a: BindingNode, b: BindingNode)
    ensures
        a.confidence > b.confidence ==> a.at_most(b) && !b.at_most(a),
        a.confidence == b.confidence && lex_lt(a.name, b.name) && !lex_lt(b.name, a.name) ==> a.at_most(b) && !b.at_most(a),
{
}

/// Of each name and function one pairing is kept.
pub proof fn each_pairing_is_kept_once(
    insns: Seq<DecodedInsn>,
    data: Seq<u8>,
    input: BindingsInput,
    scores: ScoreTable,
    k: int,
    i: int,
    j: int,
)
    requires
        0 <= i < j < pairs(insns, data, input, scores, k).len(),
    ensures
        pairs(insns, data, input, scores, k)[i].name_addr != pairs(insns, data, input, scores, k)[j].name_addr || pairs(
            insns,
            data,
            input,
            scores,
            k,
        )[i].cfunc != pairs(insns, data, input, scores, k)[j].cfunc,
    decreases k,
{
    if k > 0 {
        let done = pairs(insns, data, input, scores, k - 1);
        if j < done.len() {
            each_pairing_is_kept_once(insns, data, input, scores, k - 1, i, j);
        } else {
            assert(!is_known(done, pair_at(insns, data, input, scores, k - 1)->0));
            assert(done[i].name_addr == done[i].name_addr);
        }
    }
}

} // verus!
