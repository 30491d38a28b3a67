//! The internal calls of an engine, from the code that resolves them.
//!
//! The code loads the name of a call, hands it to a resolver, and keeps the
//! address that comes back in a slot of its data. The name is static and so is
//! the slot; the address in it is not. A name whose slot is not found is
//! reported without one, never with a guess.

use vstd::prelude::*;
use vstd::string::{StrSliceExecFns, StringExecFns};

use crate::arch::{DecodedInsn, InsnKind};
use crate::bytes::{find_zero, zero_from};
use crate::ctx::{text_of, Ctx};
use crate::klass::{ascii, is_letter, is_letter_byte, one_more, rank_hits, ranking, Hit};
use crate::sorted::SortedMap;
use crate::source::{sat_add, CoreError, SourceError};
use crate::text::{drop_spaces, ends, ends_with, same, without_spaces};
use crate::va::Va;

verus! {

/// How many instructions are looked at behind the load of a name.
pub const DEFAULT_WINDOW: usize = 12;

/// How short and how long a name may be.
pub const MIN_NAME: usize = 8;

pub const MAX_NAME: usize = 512;

/// How many resolvers are reported.
pub const MAX_RESOLVERS: usize = 8;

/// Where to look.
#[derive(Clone, Copy, Debug, PartialEq, Eq, Structural)]
pub struct IcallInput {
    /// Where names stand.
    pub data_start: Va,
    pub data_size: usize,
    /// Where the code stands.
    pub code_start: Va,
    pub code_size: usize,
    /// Where slots stand. With a size of zero they may stand anywhere but in the
    /// code.
    pub slot_start: Va,
    pub slot_size: usize,
    /// How many instructions are looked at behind a load; 0 for the default.
    pub window: usize,
    /// How many calls are returned at most; 0 for all.
    pub limit: usize,
}

/// An internal call.
#[derive(Clone, Debug, PartialEq, Eq)]
pub struct Icall {
    pub name: String,
    pub name_addr: Va,
    /// The instruction that loads the name.
    pub site: Va,
    pub resolver: Option<Va>,
    /// Where the resolved address is kept.
    pub slot: Option<Va>,
    /// How many instructions lie between the load and the store.
    pub distance_insns: Option<usize>,
}

/// How many sites call a resolver.
#[derive(Clone, Copy, Debug, PartialEq, Eq, Structural)]
pub struct ResolverCount {
    pub va: Va,
    pub sites: usize,
}

/// What was found.
#[derive(Clone, Debug, PartialEq, Eq)]
pub struct IcallArtifact {
    /// How many names the data holds, whether or not code loads them.
    pub names_in_data: usize,
    pub count: usize,
    /// How many calls have a slot.
    pub with_slot: usize,
    /// The resolvers, the most frequent first.
    pub resolvers: Vec<ResolverCount>,
    pub icalls: Vec<Icall>,
}

/// A call, by contents.
pub ghost struct IcallNode {
    pub name: Seq<char>,
    pub name_addr: Va,
    pub site: Va,
    pub found: Found,
}

/// What follows the load of a name.
#[derive(Clone, Copy, Debug, PartialEq, Eq, Structural)]
pub struct Found {
    pub resolver: Option<Va>,
    pub slot: Option<Va>,
    pub distance: Option<usize>,
}

pub open spec fn icall_node(c: Icall) -> IcallNode {
    IcallNode {
        name: c.name@,
        name_addr: c.name_addr,
        site: c.site,
        found: Found { resolver: c.resolver, slot: c.slot, distance: c.distance_insns },
    }
}

pub open spec fn icall_nodes(v: Seq<Icall>) -> Seq<IcallNode> {
    v.map_values(|c: Icall| icall_node(c))
}

// ---------------------------------------------------------------------------
// Names
// ---------------------------------------------------------------------------

/// A printable character.
pub open spec fn printable(c: u8) -> bool {
    0x20 <= c < 0x7f
}

/// Two colons stand side by side at `i`.
pub open spec fn colons_at(b: Seq<u8>, i: int) -> bool {
    0 <= i && i + 1 < b.len() && b[i] == 0x3a && b[i + 1] == 0x3a
}

/// The bytes are the name of a call: a type, two colons and a method.
pub open spec fn is_icall_name(b: Seq<u8>) -> bool {
    &&& MIN_NAME <= b.len() <= MAX_NAME
    &&& b[0] == 0x5f || is_letter(b[0])
    &&& forall|i: int| 0 <= i < b.len() ==> printable(#[trigger] b[i])
    &&& exists|i: int| #[trigger] colons_at(b, i)
}

/// The name at an offset, which ends with a zero byte.
pub open spec fn icall_name_at(data: Seq<u8>, off: int) -> Option<Seq<char>> {
    if off < 0 || off >= data.len() {
        None
    } else {
        match zero_from(data, off) {
            Some(z) => if is_icall_name(data.subrange(off, z)) {
                Some(ascii(data.subrange(off, z)))
            } else {
                None
            },
            None => None,
        }
    }
}

/// Reads the name of a call at an offset.
pub fn read_icall_name(data: &[u8], off: usize) -> (r: Option<String>)
    ensures
        text_of(r) == icall_name_at(data@, off as int),
{
    if off >= data.len() {
        return None;
    }
    let z: usize = match find_zero(data, off) {
        Some(z) => z,
        None => {
            return None;
        },
    };
    let n: usize = z - off;
    let ghost b = data@.subrange(off as int, z as int);
    if n < MIN_NAME || n > MAX_NAME || (data[off] != 0x5f && !is_letter_byte(data[off])) {
        return None;
    }
    let mut s: String = String::new();
    let mut colons = false;
    let mut k: usize = off;
    assert(s@ =~= ascii(b.take(0)));
    while k < z
        invariant
            off <= k <= z < data@.len(),
            b == data@.subrange(off as int, z as int),
            n == z - off,
            icall_name_at(data@, off as int) == if is_icall_name(b) {
                Some(ascii(b))
            } else {
                None
            },
            s@ == ascii(b.take(k - off)),
            forall|j: int| 0 <= j < k - off ==> printable(#[trigger] b[j]),
            colons == exists|j: int| j < k - off && #[trigger] colons_at(b, j),
        decreases z - k,
    {
        let c: u8 = data[k];
        assert(b[k - off] == c);
        if c < 0x20 || c >= 0x7f {
            assert(!printable(b[k - off]));
            return None;
        }
        let here = c == 0x3a && k + 1 < z && data[k + 1] == 0x3a;
        proof {
            assert(here == colons_at(b, k - off));
            assert(ascii(b.take(k + 1 - off)) =~= ascii(b.take(k - off)).push(c as char));
            if colons {
                let j = choose|j: int| j < k - off && #[trigger] colons_at(b, j);
                assert(colons_at(b, j));
            }
        }
        s.push(c as char);
        colons = colons || here;
        k = k + 1;
    }
    proof {
        assert(b.take(n as int) =~= b);
        if exists|i: int| #[trigger] colons_at(b, i) {
            let i = choose|i: int| #[trigger] colons_at(b, i);
            assert(i < k - off && colons_at(b, i));
        }
    }
    if colons {
        Some(s)
    } else {
        None
    }
}

/// How many names the data holds from `at` on, one at most for each text that
/// ends with a zero byte.
pub open spec fn names_from(data: Seq<u8>, at: int) -> nat
    decreases data.len() - at,
{
    if at < 0 || at >= data.len() {
        0
    } else {
        let one = if icall_name_at(data, at) is Some {
            1nat
        } else {
            0
        };
        match zero_from(data, at) {
            Some(z) => if at <= z < data.len() {
                one + names_from(data, z + 1)
            } else {
                one
            },
            None => one,
        }
    }
}

fn count_names(data: &[u8]) -> (n: usize)
    ensures
        n == names_from(data@, 0),
{
    let mut n: usize = 0;
    let mut at: usize = 0;
    let len: usize = data.len();
    while at < len
        invariant
            len == data@.len(),
            at <= len,
            n <= at,
            n + names_from(data@, at as int) == names_from(data@, 0),
        decreases len - at,
    {
        if read_icall_name(data, at).is_some() {
            n = n + 1;
        }
        match find_zero(data, at) {
            Some(z) => {
                at = z + 1;
            },
            None => {
                return n;
            },
        }
    }
    n
}

// ---------------------------------------------------------------------------
// Sites
// ---------------------------------------------------------------------------

/// The data and where it stands.
pub ghost struct DataAt {
    pub bytes: Seq<u8>,
    pub lo: u64,
}

/// The name that an instruction loads, and where it stands.
pub open spec fn loads(d: DataAt, x: DecodedInsn) -> Option<(Va, Seq<char>)> {
    if x.mnemonic@ != "lea"@ {
        None
    } else {
        match x.rip_target {
            Some(t) => if d.lo <= t.0 < sat_add(d.lo, d.bytes.len() as u64) {
                match icall_name_at(d.bytes, t.0 - d.lo) {
                    Some(n) => Some((t, n)),
                    None => None,
                }
            } else {
                None
            },
            None => None,
        }
    }
}

/// The address can be that of a slot.
pub open spec fn in_slots(input: IcallInput, va: Va) -> bool {
    if input.slot_size == 0 {
        va.0 < input.code_start.0 || va.0 >= sat_add(input.code_start.0, input.code_size as u64)
    } else {
        input.slot_start.0 <= va.0 < sat_add(input.slot_start.0, input.slot_size as u64)
    }
}

/// The slot that an instruction stores the result of a call to.
pub open spec fn stores(input: IcallInput, x: DecodedInsn) -> Option<Va> {
    if x.mnemonic@ == "mov"@ && ends(without_spaces(x.text@), ",rax"@) {
        match x.rip_target {
            Some(t) => if in_slots(input, t) {
                Some(t)
            } else {
                None
            },
            None => None,
        }
    } else {
        None
    }
}

/// The resolver that a direct call goes to.
pub open spec fn calls(x: DecodedInsn) -> Option<Va> {
    if x.kind == InsnKind::Call {
        x.target
    } else {
        None
    }
}

/// What follows the load at `i`, from `d` instructions behind it on: the first
/// direct call, and the first store to a slot. The next load of a name belongs
/// to the next call.
pub open spec fn found_from(
    insns: Seq<DecodedInsn>,
    data: DataAt,
    input: IcallInput,
    window: usize,
    i: int,
    d: int,
    resolver: Option<Va>,
) -> Found
    decreases window + 1 - d,
{
    if d < 1 || d > window || i + d >= insns.len() || loads(data, insns[i + d]) is Some {
        Found { resolver, slot: None, distance: None }
    } else {
        let x = insns[i + d];
        let r = if resolver is None {
            calls(x)
        } else {
            resolver
        };
        match stores(input, x) {
            Some(slot) => Found { resolver: r, slot: Some(slot), distance: Some(d as usize) },
            None => found_from(insns, data, input, window, i, d + 1, r),
        }
    }
}

/// The calls that the instructions from `i` on resolve, after those in `done`.
pub open spec fn icalls_from(
    insns: Seq<DecodedInsn>,
    data: DataAt,
    input: IcallInput,
    window: usize,
    i: int,
    done: Seq<IcallNode>,
) -> Seq<IcallNode>
    decreases insns.len() - i,
{
    if i < 0 || i >= insns.len() {
        done
    } else {
        match loads(data, insns[i]) {
            None => icalls_from(insns, data, input, window, i + 1, done),
            Some((t, name)) => {
                let next = done.push(
                    IcallNode {
                        name,
                        name_addr: t,
                        site: insns[i].va,
                        found: found_from(insns, data, input, window, i, 1, None),
                    },
                );
                if input.limit != 0 && next.len() >= input.limit {
                    next
                } else {
                    icalls_from(insns, data, input, window, i + 1, next)
                }
            },
        }
    }
}

/// How often each resolver is called, after the first `k` calls.
pub open spec fn resolvers_of(c: Seq<IcallNode>, k: int) -> Map<u64, usize>
    decreases k,
{
    if k <= 0 {
        Map::empty()
    } else {
        let done = resolvers_of(c, k - 1);
        match c[k - 1].found.resolver {
            Some(r) => if done.contains_key(r.0) {
                done.insert(r.0, one_more(done[r.0]))
            } else {
                done.insert(r.0, 1)
            },
            None => done,
        }
    }
}

/// How many of the first `k` calls have a slot.
pub open spec fn slots_in(c: Seq<IcallNode>, k: int) -> nat
    decreases k,
{
    if k <= 0 {
        0
    } else if c[k - 1].found.slot is Some {
        slots_in(c, k - 1) + 1
    } else {
        slots_in(c, k - 1)
    }
}

pub open spec fn window_of(w: usize) -> usize {
    if w == 0 {
        DEFAULT_WINDOW
    } else {
        w
    }
}

/// The artifact is what the code and the data say.
pub open spec fn resolves(insns: Seq<DecodedInsn>, data: Seq<u8>, input: IcallInput, a: IcallArtifact) -> bool {
    let d = DataAt { bytes: data, lo: input.data_start.0 };
    let c = icalls_from(insns, d, input, window_of(input.window), 0, Seq::empty());
    &&& a.names_in_data == names_from(data, 0)
    &&& icall_nodes(a.icalls@) == c
    &&& a.count == c.len()
    &&& a.with_slot == slots_in(c, c.len() as int)
    &&& exists|ranked: Seq<Hit>| #[trigger]
        ranking(ranked, resolvers_of(c, c.len() as int), 0) && {
            let n = if ranked.len() <= MAX_RESOLVERS {
                ranked.len()
            } else {
                MAX_RESOLVERS as nat
            };
            a.resolvers@ == Seq::new(n, |i: int| ResolverCount { va: Va(ranked[i].va), sites: ranked[i].hits })
        }
}

/// Where the data stands, with its bytes.
struct Data<'a> {
    bytes: &'a [u8],
    lo: u64,
}

impl<'a> Data<'a> {
    spec fn at(&self) -> DataAt {
        DataAt { bytes: self.bytes@, lo: self.lo }
    }

    fn loaded(&self, x: &DecodedInsn) -> (r: Option<(Va, String)>)
        ensures
            match (r, loads(self.at(), *x)) {
                (Some((v, s)), Some((w, t))) => v == w && s@ == t,
                (None, None) => true,
                _ => false,
            },
    {
        if !same(x.mnemonic.as_str(), "lea") {
            return None;
        }
        match x.rip_target {
            Some(t) => {
                let hi: u64 = self.lo.saturating_add(self.bytes.len() as u64);
                if t.0 < self.lo || t.0 >= hi {
                    return None;
                }
                match read_icall_name(self.bytes, (t.0 - self.lo) as usize) {
                    Some(n) => Some((t, n)),
                    None => None,
                }
            },
            None => None,
        }
    }
}

fn is_slot(input: &IcallInput, va: Va) -> (r: bool)
    ensures
        r == in_slots(*input, va),
{
    if input.slot_size == 0 {
        va.0 < input.code_start.0 || va.0 >= input.code_start.0.saturating_add(input.code_size as u64)
    } else {
        input.slot_start.0 <= va.0 && va.0 < input.slot_start.0.saturating_add(input.slot_size as u64)
    }
}

fn stored_slot(input: &IcallInput, x: &DecodedInsn) -> (r: Option<Va>)
    ensures
        r == stores(*input, *x),
{
    if !same(x.mnemonic.as_str(), "mov") || !ends_with(&drop_spaces(x.text.as_str()), ",rax") {
        return None;
    }
    match x.rip_target {
        Some(t) => {
            if is_slot(input, t) {
                Some(t)
            } else {
                None
            }
        },
        None => None,
    }
}

fn called(x: &DecodedInsn) -> (r: Option<Va>)
    ensures
        r == calls(*x),
{
    match x.kind {
        InsnKind::Call => x.target,
        _ => None,
    }
}

fn look_behind(insns: &Vec<DecodedInsn>, data: &Data, input: &IcallInput, window: usize, i: usize) -> (f: Found)
    requires
        i < insns@.len(),
    ensures
        f == found_from(insns@, data.at(), *input, window, i as int, 1, None),
{
    let n: usize = insns.len();
    let mut resolver: Option<Va> = None;
    let mut d: usize = 1;
    while d <= window && d < n - i
        invariant
            n == insns@.len(),
            i < n,
            1 <= d <= n - i,
            found_from(insns@, data.at(), *input, window, i as int, 1, None) == found_from(
                insns@,
                data.at(),
                *input,
                window,
                i as int,
                d as int,
                resolver,
            ),
        decreases n - i - d,
    {
        let x = &insns[i + d];
        if data.loaded(x).is_some() {
            return Found { resolver, slot: None, distance: None };
        }
        if resolver.is_none() {
            resolver = called(x);
        }
        match stored_slot(input, x) {
            Some(slot) => {
                return Found { resolver, slot: Some(slot), distance: Some(d) };
            },
            None => {},
        }
        d = d + 1;
    }
    Found { resolver, slot: None, distance: None }
}

fn collect_icalls(insns: &Vec<DecodedInsn>, data: &Data, input: &IcallInput, window: usize) -> (out: Vec<Icall>)
    ensures
        icall_nodes(out@) == icalls_from(insns@, data.at(), *input, window, 0, Seq::empty()),
{
    let mut out: Vec<Icall> = Vec::new();
    let mut i: usize = 0;
    let ghost all = icalls_from(insns@, data.at(), *input, window, 0, Seq::empty());
    assert(icall_nodes(out@) =~= Seq::<IcallNode>::empty());
    while i < insns.len()
        invariant
            i <= insns@.len(),
            all == icalls_from(insns@, data.at(), *input, window, 0, Seq::empty()),
            icalls_from(insns@, data.at(), *input, window, i as int, icall_nodes(out@)) == all,
        decreases insns@.len() - i,
    {
        let x = &insns[i];
        match data.loaded(x) {
            Some((t, name)) => {
                let f = look_behind(insns, data, input, window, i);
                let c = Icall {
                    name,
                    name_addr: t,
                    site: x.va,
                    resolver: f.resolver,
                    slot: f.slot,
                    distance_insns: f.distance,
                };
                let ghost before = icall_nodes(out@);
                assert(icall_nodes(out@.push(c)) =~= before.push(icall_node(c)));
                out.push(c);
                assert(icall_nodes(out@).len() == out@.len());
                if input.limit != 0 && out.len() >= input.limit {
                    return out;
                }
            },
            None => {},
        }
        i = i + 1;
    }
    out
}

fn count_resolvers(c: &Vec<Icall>) -> (m: SortedMap<u64, usize>)
    ensures
        m.wf(),
        m.map() == resolvers_of(icall_nodes(c@), c@.len() as int),
{
    let mut m: SortedMap<u64, usize> = SortedMap::new();
    let mut k: usize = 0;
    while k < c.len()
        invariant
            m.wf(),
            k <= c@.len(),
            m.map() == resolvers_of(icall_nodes(c@), k as int),
        decreases c@.len() - k,
    {
        assert(icall_nodes(c@)[k as int] == icall_node(c@[k as int]));
        match c[k].resolver {
            Some(r) => {
                let n: usize = match m.get(&r.0) {
                    Some(n) => n.saturating_add(1),
                    None => 1,
                };
                m.insert(r.0, n);
            },
            None => {},
        }
        k = k + 1;
    }
    m
}

fn count_slots(c: &Vec<Icall>) -> (n: usize)
    ensures
        n == slots_in(icall_nodes(c@), c@.len() as int),
{
    let mut n: usize = 0;
    let mut k: usize = 0;
    while k < c.len()
        invariant
            k <= c@.len(),
            n <= k,
            n == slots_in(icall_nodes(c@), k as int),
        decreases c@.len() - k,
    {
        assert(icall_nodes(c@)[k as int] == icall_node(c@[k as int]));
        if c[k].slot.is_some() {
            n = n + 1;
        }
        k = k + 1;
    }
    n
}

/// Recovers the internal calls of an engine from the code that resolves them.
pub struct IcallPass;

impl IcallPass {
    pub fn name(&self) -> (r: &'static str)
        ensures
            r@ == "il2cpp.icalls"@,
    {
        "il2cpp.icalls"
    }

    /// Recovers the calls that the decoded instructions `insns` of the code
    /// resolve.
    pub fn run(&self, ctx: &Ctx, insns: &Vec<DecodedInsn>, input: IcallInput) -> (r: Result<IcallArtifact, CoreError>)
        ensures
            match (
                ctx.source.read_of(input.data_start.0, input.data_size as nat),
                ctx.source.read_of(input.code_start.0, input.code_size as nat),
            ) {
                (None, _) => r == Err::<IcallArtifact, CoreError>(
                    CoreError::Source(SourceError::Unmapped(input.data_start)),
                ),
                (Some(_), None) => r == Err::<IcallArtifact, CoreError>(
                    CoreError::Source(SourceError::Unmapped(input.code_start)),
                ),
                (Some(data), Some(_)) => r matches Ok(a) && resolves(insns@, data, input, a),
            },
    {
        let bytes = match ctx.source.read(input.data_start, input.data_size) {
            Ok(b) => b,
            Err(e) => {
                return Err(CoreError::Source(e));
            },
        };
        match ctx.source.read(input.code_start, input.code_size) {
            Ok(_) => {},
            Err(e) => {
                return Err(CoreError::Source(e));
            },
        }
        let window: usize = if input.window == 0 {
            DEFAULT_WINDOW
        } else {
            input.window
        };
        let data = Data { bytes: bytes.as_slice(), lo: input.data_start.0 };
        let icalls = collect_icalls(insns, &data, &input, window);
        let counts = count_resolvers(&icalls);
        let ranked = rank_hits(&counts, 0);
        let mut resolvers: Vec<ResolverCount> = Vec::new();
        let mut i: usize = 0;
        while i < ranked.len() && i < MAX_RESOLVERS
            invariant
                i <= ranked@.len(),
                i <= MAX_RESOLVERS,
                resolvers@.len() == i,
                forall|j: int|
                    0 <= j < i ==> #[trigger] resolvers@[j] == (ResolverCount {
                        va: Va(ranked@[j].va),
                        sites: ranked@[j].hits,
                    }),
            decreases ranked@.len() - i,
        {
            resolvers.push(ResolverCount { va: Va(ranked[i].va), sites: ranked[i].hits });
            i = i + 1;
        }
        let a = IcallArtifact {
            names_in_data: count_names(bytes.as_slice()),
            count: icalls.len(),
            with_slot: count_slots(&icalls),
            resolvers,
            icalls,
        };
        proof {
            let d = DataAt { bytes: bytes@, lo: input.data_start.0 };
            assert(data.at() == d);
            let c = icalls_from(insns@, d, input, window_of(input.window), 0, Seq::empty());
            assert(icall_nodes(a.icalls@) == c);
            assert(icall_nodes(a.icalls@).len() == a.icalls@.len());
            let n = if ranked@.len() <= MAX_RESOLVERS {
                ranked@.len()
            } else {
                MAX_RESOLVERS as nat
            };
            assert(n == i);
            assert(ranking(ranked@, resolvers_of(c, c.len() as int), 0));
            assert(a.resolvers@ =~= Seq::new(
                n,
                |i: int| ResolverCount { va: Va(ranked@[i].va), sites: ranked@[i].hits },
            ));
        }
        Ok(a)
    }
}

// ---------------------------------------------------------------------------
// Laws
// ---------------------------------------------------------------------------

/// A direct call to `r` stands up to `window` instructions behind `i`.
pub open spec fn calls_within(insns: Seq<DecodedInsn>, window: usize, i: int, r: Va) -> bool {
    exists|d: int| 1 <= d <= window && i + d < insns.len() && calls(#[trigger] insns[i + d]) == Some(r)
}

proof fn lemma_found(
    insns: Seq<DecodedInsn>,
    data: DataAt,
    input: IcallInput,
    window: usize,
    i: int,
    d: int,
    resolver: Option<Va>,
)
    requires
        0 <= i,
        1 <= d <= window + 1,
        resolver matches Some(r) ==> calls_within(insns, window, i, r),
    ensures
        ({
            let f = found_from(insns, data, input, window, i, d, resolver);
            &&& f.slot is Some <==> f.distance is Some
            &&& f.slot matches Some(s) ==> {
                let n = f.distance->0;
                1 <= n <= window && i + n < insns.len() && stores(input, insns[i + n]) == Some(s)
            }
            &&& f.resolver matches Some(r) ==> calls_within(insns, window, i, r)
        }),
    decreases window + 1 - d,
{
    if d <= window && i + d < insns.len() && loads(data, insns[i + d]) is None {
        let r = if resolver is None {
            calls(insns[i + d])
        } else {
            resolver
        };
        if stores(input, insns[i + d]) is None {
            lemma_found(insns, data, input, window, i, d + 1, r);
        }
    }
}

/// No slot and no resolver is guessed: near the load of the name an instruction
/// stores to the slot, and a direct call goes to the resolver. A slot lies where
/// slots can lie.
pub proof fn slots_and_resolvers_are_seen(
    insns: Seq<DecodedInsn>,
    data: DataAt,
    input: IcallInput,
    window: usize,
    i: int,
)
    requires
        0 <= i,
    ensures
        ({
            let f = found_from(insns, data, input, window, i, 1, None);
            &&& f.slot matches Some(s) ==> {
                let n = f.distance->0;
                &&& f.distance is Some
                &&& 1 <= n <= window
                &&& i + n < insns.len()
                &&& stores(input, insns[i + n]) == Some(s)
                &&& in_slots(input, s)
            }
            &&& f.resolver matches Some(r) ==> calls_within(insns, window, i, r)
        }),
{
    lemma_found(insns, data, input, window, i, 1, None);
}

/// No more calls are reported than were asked for.
pub proof fn no_more_calls_than_asked_for(
    insns: Seq<DecodedInsn>,
    data: DataAt,
    input: IcallInput,
    window: usize,
    i: int,
    done: Seq<IcallNode>,
)
    requires
        0 <= i,
        done.len() < input.limit,
    ensures
        icalls_from(insns, data, input, window, i, done).len() <= input.limit,
    decreases insns.len() - i,
{
    if i < insns.len() {
        match loads(data, insns[i]) {
            None => no_more_calls_than_asked_for(insns, data, input, window, i + 1, done),
            Some((t, name)) => {
                let next = done.push(
                    IcallNode {
                        name,
                        name_addr: t,
                        site: insns[i].va,
                        found: found_from(insns, data, input, window, i, 1, None),
                    },
                );
                if next.len() < input.limit {
                    no_more_calls_than_asked_for(insns, data, input, window, i + 1, next);
                }
            },
        }
    }
}

// ---------------------------------------------------------------------------
// What a call is found by
// ---------------------------------------------------------------------------

/// A text is the name of a call where it is printable, begins with a letter or an
/// underscore, and holds two colons side by side.
pub proof fn names_hold_two_colons(b: Seq<u8>, i: int)
    ensures
        is_icall_name(b) ==> exists|j: int| 0 <= j && j + 1 < b.len() && #[trigger] b[j] == ':' as u8 && b[j + 1] == ':' as u8,
        5 <= b.len() <= 200 && ('a' as u8 <= b[0] <= 'z' as u8 || 'A' as u8 <= b[0] <= 'Z' as u8 || b[0] == '_' as u8) && (
        forall|j: int| 0 <= j < b.len() ==> 0x20 <= #[trigger] b[j] <= 0x7e) && 0 <= i && i + 1 < b.len() && b[i]
            == ':' as u8 && b[i + 1] == ':' as u8 && MIN_NAME <= b.len() <= MAX_NAME ==> is_icall_name(b),
        is_icall_name(b) && 0 <= i < b.len() ==> 0x20 <= b[i] <= 0x7e,
{
    if is_icall_name(b) {
        let j = choose|j: int| #[trigger] colons_at(b, j);
        assert(b[j] == ':' as u8 && b[j + 1] == ':' as u8);
    }
    if 0 <= i && i + 1 < b.len() && b[i] == ':' as u8 && b[i + 1] == ':' as u8 {
        assert(colons_at(b, i));
    }
}

/// An instruction loads a name where it is a `lea` of an address in the data at which a
/// name stands.
pub proof fn names_are_loaded_by_address(d: DataAt, x: DecodedInsn)
    ensures
        loads(d, x) matches Some((t, n)) ==> x.mnemonic@ == "lea"@ && x.rip_target == Some(t) && d.lo <= t.0 && icall_name_at(
            d.bytes,
            t.0 - d.lo,
        ) == Some(n),
        x.mnemonic@ != "lea"@ || x.rip_target is None ==> loads(d, x) is None,
        x.mnemonic@ == "lea"@ ==> (x.rip_target matches Some(t) ==> (d.lo <= t.0 < d.lo + d.bytes.len() && d.lo
            + d.bytes.len() <= u64::MAX ==> (icall_name_at(d.bytes, t.0 - d.lo) matches Some(n) ==> loads(d, x) == Some(
            (t, n),
        )))),
{
}

/// A slot is where the result of the call is stored: a `mov` from `rax` to an address
/// among the slots.
pub proof fn results_are_stored_from_the_result_register(input: IcallInput, x: DecodedInsn)
    ensures
        stores(input, x) matches Some(t) ==> x.mnemonic@ == "mov"@ && x.rip_target == Some(t) && ends(
            without_spaces(x.text@),
            ",rax"@,
        ) && in_slots(input, t),
        x.mnemonic@ == "mov"@ && ends(without_spaces(x.text@), ",rax"@) ==> (x.rip_target matches Some(t) ==> (in_slots(
            input,
            t,
        ) ==> stores(input, x) == Some(t))),
        input.slot_size > 0 && input.slot_start.0 + input.slot_size <= u64::MAX ==> (forall|va: Va| #[trigger]
            in_slots(input, va) <==> input.slot_start.0 <= va.0 < input.slot_start.0 + input.slot_size),
        input.slot_size == 0 && input.code_start.0 + input.code_size <= u64::MAX ==> (forall|va: Va| #[trigger]
            in_slots(input, va) <==> va.0 < input.code_start.0 || va.0 >= input.code_start.0 + input.code_size),
{
}

/// The resolver is the first direct call behind the load, and the slot the first store;
/// the search ends at the next load of a name and at the end of the window.
pub proof fn the_first_call_and_store_count(
    insns: Seq<DecodedInsn>,
    data: DataAt,
    input: IcallInput,
    window: usize,
    i: int,
    d: int,
    resolver: Option<Va>,
)
    requires
        1 <= d,
        0 <= i,
    ensures
        ({
            let f = found_from(insns, data, input, window, i, d, resolver);
            let over = d > window || i + d >= insns.len();
            &&& over ==> f.resolver == resolver && f.slot is None && f.distance is None
            &&& !over && loads(data, insns[i + d]) is Some ==> f.resolver == resolver && f.slot is None
            &&& resolver is Some ==> f.resolver == resolver
            &&& !over && loads(data, insns[i + d]) is None ==> (stores(input, insns[i + d]) matches Some(s) ==> f.slot
                == Some(s) && f.distance == Some(d as usize))
            &&& !over && loads(data, insns[i + d]) is None && resolver is None && insns[i + d].kind == InsnKind::Call
                && insns[i + d].target is Some ==> f.resolver == insns[i + d].target
            &&& !over && loads(data, insns[i + d]) is None && stores(input, insns[i + d]) is None && !(insns[i + d].kind
                == InsnKind::Call) ==> f == found_from(insns, data, input, window, i, d + 1, resolver)
        }),
    decreases window + 1 - d,
{
    if !(d > window || i + d >= insns.len()) && loads(data, insns[i + d]) is None {
        let r = if resolver is None {
            calls(insns[i + d])
        } else {
            resolver
        };
        the_first_call_and_store_count(insns, data, input, window, i, d + 1, r);
    }
}

/// Each load of a name gives one call, at its place and with its name.
pub proof fn each_load_gives_a_call(
    insns: Seq<DecodedInsn>,
    data: DataAt,
    input: IcallInput,
    window: usize,
    i: int,
    done: Seq<IcallNode>,
)
    requires
        0 <= i < insns.len(),
    ensures
        loads(data, insns[i]) is None ==> icalls_from(insns, data, input, window, i, done) == icalls_from(
            insns,
            data,
            input,
            window,
            i + 1,
            done,
        ),
        loads(data, insns[i]) matches Some((t, n)) ==> (input.limit == 0 ==> icalls_from(
            insns,
            data,
            input,
            window,
            i,
            done,
        ) == icalls_from(
            insns,
            data,
            input,
            window,
            i + 1,
            done.push(
                IcallNode {
                    name: n,
                    name_addr: t,
                    site: insns[i].va,
                    found: found_from(insns, data, input, window, i, 1, None),
                },
            ),
        )),
{
}

/// A resolver is counted once for each call that goes to it.
pub proof fn resolvers_are_counted(c: Seq<IcallNode>, k: int)
    requires
        0 <= k < c.len(),
    ensures
        ({
            let done = resolvers_of(c, k);
            let now = resolvers_of(c, k + 1);
            &&& c[k].found.resolver is None ==> now == done
            &&& c[k].found.resolver matches Some(r) ==> now.contains_key(r.0) && (!done.contains_key(r.0) ==> now[r.0] == 1)
                && (done.contains_key(r.0) && done[r.0] < usize::MAX ==> now[r.0] == done[r.0] + 1)
            &&& c[k].found.slot is Some ==> slots_in(c, k + 1) == slots_in(c, k) + 1
            &&& c[k].found.slot is None ==> slots_in(c, k + 1) == slots_in(c, k)
        }),
{
}

} // verus!
