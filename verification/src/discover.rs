//! Finding functions: those that the image declares, those that code leads to,
//! and those that begin like functions.

use vstd::prelude::*;
use vstd::string::{StrSliceExecFns, StringExecFns};

use crate::arch::{is_filler, is_filler_insn, CodeView, DecodedInsn, InsnKind};
use crate::bytes::{le, le16, le32};
use crate::ctx::{Ctx, StatedFunction};
use crate::ir::{entry_symbol, symbol_on_entry};
use crate::order::{sort_stable, sorting_permutes, stable, Ranked, Sortable};
use crate::sorted::{ascending, holds, lemma_map_at, NameMap, SortedMap, SortedSet};
use crate::source::{lemma_read_len, sat_add, CoreError, CoreFault, Snapshot, SourceError};
use crate::text::{hexadecimal, spell, zero_padded};
use crate::va::{wrap_add, Va};

verus! {

broadcast use {
    vstd::laws_cmp::group_laws_cmp,
    vstd::set::group_set_axioms,
    vstd::std_specs::btree::group_btree_axioms,
};

/// Where and how much to search.
#[derive(Clone, Copy, Debug, PartialEq, Eq, Structural)]
pub struct DiscoverInput {
    pub start: Va,
    pub size: usize,
    /// How many functions are returned at most; 0 for all.
    pub limit: usize,
    /// How many functions are passed over first.
    pub offset: usize,
}

/// A function that was found.
#[derive(Clone, Debug, PartialEq, Eq)]
pub struct FunctionCandidate {
    pub name: String,
    pub va: Va,
    /// Its exclusive end, where that is known.
    pub end: Option<Va>,
}

/// A function that was found, by contents.
pub ghost struct CandidateNode {
    pub name: Seq<char>,
    pub va: Va,
    pub end: Option<Va>,
}

pub open spec fn candidate_node(f: FunctionCandidate) -> CandidateNode {
    CandidateNode { name: f.name@, va: f.va, end: f.end }
}

pub open spec fn candidate_nodes(s: Seq<FunctionCandidate>) -> Seq<CandidateNode> {
    s.map_values(|f: FunctionCandidate| candidate_node(f))
}

proof fn lemma_nodes_push(s: Seq<FunctionCandidate>, f: FunctionCandidate)
    ensures
        candidate_nodes(s.push(f)) == candidate_nodes(s).push(candidate_node(f)),
{
    assert(candidate_nodes(s.push(f)) =~= candidate_nodes(s).push(candidate_node(f)));
}

/// The name of a function that is known by its address alone.
pub open spec fn address_name(va: Va) -> Seq<char> {
    "sub_"@ + zero_padded(spell(va.0 as nat, 16, true), 0)
}

fn name_by_address(va: Va) -> (s: String)
    ensures
        s@ == address_name(va),
{
    String::from_str("sub_").concat(hexadecimal(va.0, true, 0).as_str())
}

// ---------------------------------------------------------------------------
// The exception directory
// ---------------------------------------------------------------------------

/// The largest table that is read in one go.
pub const MAX_EXCEPTION_TABLE: u32 = 0x400_0000;

/// The 32-bit number at `p`, where it fits.
pub open spec fn word_opt(b: Seq<u8>, p: int) -> Option<u32> {
    if p + 4 <= b.len() {
        Some(le(b, p, 4) as u32)
    } else {
        None
    }
}

/// What the optional header starts with; the 64-bit form where it does not fit.
pub open spec fn magic_of(hdr: Seq<u8>, e: int) -> u16 {
    if e + 26 <= hdr.len() {
        le(hdr, e + 24, 2) as u16
    } else {
        0x20b
    }
}

/// Where the entry of the exception directory stands. The directories of the
/// 32-bit form start earlier than those of the 64-bit form.
pub open spec fn directory_at(hdr: Seq<u8>, e: int) -> int {
    e + 24 + (if magic_of(hdr, e) == 0x10b {
        96int
    } else {
        112int
    }) + 24
}

/// The offset and size of the exception table, or why there is none.
pub open spec fn exception_table(hdr: Seq<u8>) -> Result<(u32, u32), Seq<char>> {
    match word_opt(hdr, 0x3c) {
        None => Err("truncated PE header at module base"@),
        Some(e) => if e + 4 > hdr.len() || hdr[e as int] != 0x50 || hdr[e + 1] != 0x45 || hdr[e + 2] != 0 || hdr[e + 3]
            != 0 {
            Err("no PE signature at module base (not a mapped PE image?)"@)
        } else {
            match word_opt(hdr, directory_at(hdr, e as int)) {
                None => Err("PE optional header too short for the exception directory"@),
                Some(rva) => {
                    let size = match word_opt(hdr, directory_at(hdr, e as int) + 4) {
                        Some(n) => n,
                        None => 0,
                    };
                    if rva == 0 || size == 0 {
                        Err(
                            "this image declares no exception directory, so there is no `.pdata` table to discover from ("@
                                + (if magic_of(hdr, e as int) == 0x10b {
                                "PE32 — x64 unwind tables are a PE32+ structure"@
                            } else {
                                "PE32+ with the directory empty or stripped"@
                            }) + ")"@,
                        )
                    } else {
                        Ok((rva, size))
                    }
                },
            }
        },
    }
}

/// The functions of the entries from `p` on, up to one that is all zero. An
/// entry that does not end behind its start is none.
pub open spec fn runtime_from(base: Va, t: Seq<u8>, p: int) -> Seq<CandidateNode>
    decreases t.len() - p,
{
    if p < 0 || p + 12 > t.len() {
        Seq::empty()
    } else {
        let begin = le(t, p, 4);
        let end = le(t, p + 4, 4);
        let rest = runtime_from(base, t, p + 12);
        if begin == 0 && end == 0 {
            Seq::empty()
        } else if end <= begin {
            rest
        } else {
            let va = Va(wrap_add(base.0, begin as u64));
            seq![
                CandidateNode { name: address_name(va), va, end: Some(Va(wrap_add(base.0, end as u64))) },
            ] + rest
        }
    }
}

/// The functions of the exception table of a module, or why there are none.
pub open spec fn pdata_functions(src: Snapshot, base: Va) -> Result<Seq<CandidateNode>, CoreFault> {
    match src.read_of(base.0, 0x400) {
        None => Err(CoreFault::Source(SourceError::Unmapped(base))),
        Some(hdr) => match exception_table(hdr) {
            Err(s) => Err(CoreFault::Other(s)),
            Ok((rva, size)) => {
                let at = Va(wrap_add(base.0, rva as u64));
                let n = if size <= MAX_EXCEPTION_TABLE {
                    size
                } else {
                    MAX_EXCEPTION_TABLE
                };
                match src.read_of(at.0, n as nat) {
                    None => Err(CoreFault::Source(SourceError::Unmapped(at))),
                    Some(t) => Ok(runtime_from(base, t, 0)),
                }
            },
        },
    }
}

fn read_word(b: &[u8], p: usize) -> (r: Option<u32>)
    requires
        p <= 0x1000,
    ensures
        r == word_opt(b@, p as int),
{
    if b.len() < 4 || p > b.len() - 4 {
        None
    } else {
        Some(le32(b, p))
    }
}

fn locate_exceptions(hdr: &[u8]) -> (r: Result<(u32, u32), String>)
    requires
        hdr@.len() <= 0x400,
    ensures
        match (r, exception_table(hdr@)) {
            (Ok(a), Ok(b)) => a == b,
            (Err(s), Err(t)) => s@ == t,
            _ => false,
        },
{
    let e32: u32 = match read_word(hdr, 0x3c) {
        Some(v) => v,
        None => {
            return Err(String::from_str("truncated PE header at module base"));
        },
    };
    let bad = "no PE signature at module base (not a mapped PE image?)";
    if e32 as u64 + 4 > hdr.len() as u64 {
        return Err(String::from_str(bad));
    }
    let e: usize = e32 as usize;
    if hdr[e] != 0x50 || hdr[e + 1] != 0x45 || hdr[e + 2] != 0 || hdr[e + 3] != 0 {
        return Err(String::from_str(bad));
    }
    let magic: u16 = if hdr.len() < 26 || e > hdr.len() - 26 {
        0x20b
    } else {
        le16(hdr, e + 24)
    };
    let skip: usize = if magic == 0x10b {
        96
    } else {
        112
    };
    let at: usize = e + 24 + skip + 24;
    let rva: u32 = match read_word(hdr, at) {
        Some(v) => v,
        None => {
            return Err(String::from_str("PE optional header too short for the exception directory"));
        },
    };
    let size: u32 = match read_word(hdr, at + 4) {
        Some(v) => v,
        None => 0,
    };
    if rva == 0 || size == 0 {
        let why = if magic == 0x10b {
            "PE32 — x64 unwind tables are a PE32+ structure"
        } else {
            "PE32+ with the directory empty or stripped"
        };
        return Err(
            String::from_str(
                "this image declares no exception directory, so there is no `.pdata` table to discover from (",
            ).concat(why).concat(")"),
        );
    }
    Ok((rva, size))
}

fn read_runtime(base: Va, t: &[u8]) -> (out: Vec<FunctionCandidate>)
    ensures
        candidate_nodes(out@) == runtime_from(base, t@, 0),
{
    let mut out: Vec<FunctionCandidate> = Vec::new();
    let mut p: usize = 0;
    let n: usize = t.len();
    let ghost all = runtime_from(base, t@, 0);
    assert(candidate_nodes(out@) =~= Seq::<CandidateNode>::empty());
    assert(candidate_nodes(out@) + all =~= all);
    while n - p >= 12
        invariant
            n == t@.len(),
            p <= n,
            all == runtime_from(base, t@, 0),
            candidate_nodes(out@) + runtime_from(base, t@, p as int) == all,
        decreases n - p,
    {
        let begin: u32 = le32(t, p);
        let end: u32 = le32(t, p + 4);
        let ghost before = candidate_nodes(out@);
        if begin == 0 && end == 0 {
            assert(before + Seq::<CandidateNode>::empty() =~= before);
            return out;
        }
        if end > begin {
            let va = base.offset(begin as u64);
            let f = FunctionCandidate { name: name_by_address(va), va, end: Some(base.offset(end as u64)) };
            proof {
                lemma_nodes_push(out@, f);
                let rest = runtime_from(base, t@, p + 12);
                assert(before.push(candidate_node(f)) + rest =~= before + (seq![candidate_node(f)] + rest));
            }
            out.push(f);
        }
        p = p + 12;
    }
    assert(candidate_nodes(out@) + Seq::<CandidateNode>::empty() =~= candidate_nodes(out@));
    out
}

/// The functions that the exception directory of a module declares, each with
/// its extent. They are known by their addresses alone. An image without the
/// directory is refused: it has no such table to ask.
pub fn discover_pdata(source: &Snapshot, module_base: Va) -> (r: Result<Vec<FunctionCandidate>, CoreError>)
    ensures
        match (r, pdata_functions(*source, module_base)) {
            (Ok(v), Ok(w)) => candidate_nodes(v@) == w,
            (Err(e), Err(f)) => e.fault() == f,
            _ => false,
        },
{
    let hdr = match source.read(module_base, 0x400) {
        Ok(h) => h,
        Err(e) => {
            return Err(CoreError::Source(e));
        },
    };
    let (rva, size) = match locate_exceptions(hdr.as_slice()) {
        Ok(x) => x,
        Err(s) => {
            return Err(CoreError::Other(s));
        },
    };
    let n: u32 = if size <= MAX_EXCEPTION_TABLE {
        size
    } else {
        MAX_EXCEPTION_TABLE
    };
    match source.read(module_base.offset(rva as u64), n as usize) {
        Ok(t) => Ok(read_runtime(module_base, t.as_slice())),
        Err(e) => Err(CoreError::Source(e)),
    }
}

// ---------------------------------------------------------------------------
// Declared functions
// ---------------------------------------------------------------------------

/// The extent of a declared function.
#[derive(Clone, Copy, Debug, PartialEq, Eq, Structural)]
pub struct Extent {
    pub start: u64,
    pub end: u64,
}

impl Ranked for Extent {
    open spec fn at_most(self, other: Extent) -> bool {
        self.start < other.start || (self.start == other.start && self.end <= other.end)
    }

    proof fn rank_laws(a: Extent, b: Extent, c: Extent) {
    }
}

impl Sortable for Extent {
    fn not_after(&self, other: &Extent) -> (r: bool) {
        self.start < other.start || (self.start == other.start && self.end <= other.end)
    }
}

/// The range that is searched: from `lo` up to `hi`.
#[derive(Clone, Copy, Debug, PartialEq, Eq, Structural)]
pub struct Window {
    pub lo: u64,
    pub hi: u64,
}

impl Window {
    pub open spec fn has(self, va: u64) -> bool {
        self.lo <= va < self.hi
    }

    fn covers(self, va: u64) -> (r: bool)
        ensures
            r == self.has(va),
    {
        self.lo <= va && va < self.hi
    }
}

/// The extents of the first `k` functions that state one.
pub open spec fn extents_of(fs: Seq<StatedFunction>, k: int) -> Seq<Extent>
    decreases k,
{
    if k <= 0 {
        Seq::empty()
    } else if fs[k - 1].end.0 > fs[k - 1].start.0 {
        extents_of(fs, k - 1).push(Extent { start: fs[k - 1].start.0, end: fs[k - 1].end.0 })
    } else {
        extents_of(fs, k - 1)
    }
}

/// What a function states as its end.
pub open spec fn stated_end(f: StatedFunction) -> Option<Va> {
    if f.end.0 > f.start.0 {
        Some(f.end)
    } else {
        None
    }
}

/// The starts that the first `k` functions declare, with their ends. An end that
/// was stated is kept.
pub open spec fn declared_in(fs: Seq<StatedFunction>, k: int, w: Window) -> Map<u64, Option<Va>>
    decreases k,
{
    if k <= 0 {
        Map::empty()
    } else {
        let done = declared_in(fs, k - 1, w);
        let f = fs[k - 1];
        if !w.has(f.start.0) || (done.contains_key(f.start.0) && done[f.start.0] is Some) {
            done
        } else {
            done.insert(f.start.0, stated_end(f))
        }
    }
}

/// The address lies inside a declared function and does not start one.
pub open spec fn inside(d: Seq<Extent>, va: u64) -> bool {
    &&& forall|j: int| 0 <= j < d.len() ==> (#[trigger] d[j]).start != va
    &&& exists|j: int| 0 <= j < d.len() && (#[trigger] d[j]).start < va < d[j].end
}

fn collect_extents(fs: &[StatedFunction]) -> (out: Vec<Extent>)
    ensures
        out@ == stable(extents_of(fs@, fs@.len() as int)),
{
    let mut out: Vec<Extent> = Vec::new();
    let mut k: usize = 0;
    while k < fs.len()
        invariant
            k <= fs@.len(),
            out@ == extents_of(fs@, k as int),
        decreases fs@.len() - k,
    {
        let f = fs[k];
        if f.end.0 > f.start.0 {
            out.push(Extent { start: f.start.0, end: f.end.0 });
        }
        k = k + 1;
    }
    sort_stable(out)
}

fn collect_declared(fs: &[StatedFunction], w: Window) -> (found: SortedMap<u64, Option<Va>>)
    ensures
        found.wf(),
        found.map() == declared_in(fs@, fs@.len() as int, w),
{
    let mut found: SortedMap<u64, Option<Va>> = SortedMap::new();
    let mut k: usize = 0;
    while k < fs.len()
        invariant
            k <= fs@.len(),
            found.wf(),
            found.map() == declared_in(fs@, k as int, w),
        decreases fs@.len() - k,
    {
        let f = fs[k];
        let known = match found.get(&f.start.0) {
            Some(e) => e.is_some(),
            None => false,
        };
        if w.covers(f.start.0) && !known {
            let end = if f.end.0 > f.start.0 {
                Some(f.end)
            } else {
                None
            };
            found.insert(f.start.0, end);
        }
        k = k + 1;
    }
    found
}

/// The extents are in order of their starts.
pub open spec fn by_start(d: Seq<Extent>) -> bool {
    forall|i: int, j: int| 0 <= i <= j < d.len() ==> (#[trigger] d[i]).start <= (#[trigger] d[j]).start
}

proof fn lemma_sorted_extents(s: Seq<Extent>)
    ensures
        by_start(stable(s)),
{
    sorting_permutes(s);
    let d = stable(s);
    assert forall|i: int, j: int| 0 <= i <= j < d.len() implies (#[trigger] d[i]).start <= (#[trigger] d[j]).start by {
        if i < j {
            assert(d[i].at_most(d[j]));
        }
    }
}

/// Does the address lie inside a declared function, behind its start?
fn inside_declared(d: &Vec<Extent>, va: u64) -> (r: bool)
    requires
        by_start(d@),
    ensures
        r == inside(d@, va),
{
    let mut held: bool = false;
    let mut k: usize = 0;
    while k < d.len() && d[k].start < va
        invariant
            k <= d@.len(),
            forall|j: int| 0 <= j < k ==> (#[trigger] d@[j]).start < va,
            held == exists|j: int| 0 <= j < k && (#[trigger] d@[j]).start < va < d@[j].end,
        decreases d@.len() - k,
    {
        if va < d[k].end {
            held = true;
            assert(d@[k as int].start < va < d@[k as int].end);
        }
        k = k + 1;
    }
    assert forall|j: int| k <= j < d@.len() implies (#[trigger] d@[j]).start >= va by {
        assert(d@[k as int].start <= d@[j].start);
    }
    if k < d.len() && d[k].start == va {
        return false;
    }
    assert forall|j: int| 0 <= j < d@.len() implies (#[trigger] d@[j]).start != va by {
        if j >= k {
            assert(d@[k as int].start <= d@[j].start);
        }
    }
    held
}

// ---------------------------------------------------------------------------
// Code behind declared functions
// ---------------------------------------------------------------------------

/// How far an address lies before the end.
pub open spec fn left(end: u64, va: u64) -> nat {
    if va < end {
        (end - va) as nat
    } else {
        0
    }
}

/// A zero byte is fill, no code.
pub open spec fn is_zero(bytes: Seq<u8>, w: Window, va: u64) -> bool {
    bytes[va - w.lo] == 0
}

/// The first instruction at or behind an address that is no filler. Something
/// that cannot be decoded ends the search.
pub open spec fn first_code(bytes: Seq<u8>, w: Window, view: CodeView, va: u64) -> Option<u64>
    decreases left(w.hi, va),
{
    if !w.has(va) {
        None
    } else if is_zero(bytes, w, va) {
        first_code(bytes, w, view, (va + 1) as u64)
    } else {
        match view.at(va) {
            None => None,
            Some(x) => if !is_filler_insn(x) {
                Some(va)
            } else if x.len == 0 {
                None
            } else {
                first_code(bytes, w, view, sat_add(va, x.len as u64))
            },
        }
    }
}

/// Some declared function is followed by this one.
pub open spec fn follows(bytes: Seq<u8>, w: Window, view: CodeView, d: Seq<Extent>, va: u64) -> bool {
    exists|i: int| 0 <= i < d.len() && first_code(bytes, w, view, (#[trigger] d[i]).end) == Some(va)
}

/// The window and the bytes in it.
pub open spec fn window_ok(bytes: Seq<u8>, w: Window) -> bool {
    w.lo + bytes.len() == w.hi
}

fn find_code(bytes: &[u8], w: Window, view: &CodeView, from: u64) -> (r: Option<u64>)
    requires
        view.wf(),
        window_ok(bytes@, w),
    ensures
        r == first_code(bytes@, w, *view, from),
{
    let mut va: u64 = from;
    let _n: usize = bytes.len();
    while w.covers(va)
        invariant
            view.wf(),
            window_ok(bytes@, w),
            bytes@.len() <= usize::MAX,
            first_code(bytes@, w, *view, from) == first_code(bytes@, w, *view, va),
        decreases left(w.hi, va),
    {
        if bytes[(va - w.lo) as usize] == 0 {
            va = va + 1;
        } else {
            match view.insn_at(va) {
                None => {
                    return None;
                },
                Some(x) => {
                    if !is_filler(x) {
                        return Some(va);
                    }
                    va = va.saturating_add(x.len as u64);
                },
            }
        }
    }
    None
}

fn after_declared_ends(bytes: &[u8], w: Window, view: &CodeView, d: &Vec<Extent>) -> (out: SortedSet<u64>)
    requires
        view.wf(),
        window_ok(bytes@, w),
    ensures
        out.wf(),
        forall|va: u64| #[trigger] out.set().contains(va) <==> follows(bytes@, w, *view, d@, va),
{
    let mut out: SortedSet<u64> = SortedSet::new();
    let mut i: usize = 0;
    while i < d.len()
        invariant
            view.wf(),
            window_ok(bytes@, w),
            out.wf(),
            i <= d@.len(),
            forall|va: u64| #[trigger]
                out.set().contains(va) <==> exists|j: int|
                    0 <= j < i && first_code(bytes@, w, *view, (#[trigger] d@[j]).end) == Some(va),
        decreases d@.len() - i,
    {
        let ghost before = out.set();
        let got = find_code(bytes, w, view, d[i].end);
        match got {
            Some(va) => {
                out.insert(va);
            },
            None => {},
        }
        proof {
            assert forall|va: u64| #[trigger]
                out.set().contains(va) <==> exists|j: int|
                    0 <= j < i + 1 && first_code(bytes@, w, *view, (#[trigger] d@[j]).end) == Some(va) by {
                assert(before.contains(va) <==> exists|j: int|
                    0 <= j < i && first_code(bytes@, w, *view, (#[trigger] d@[j]).end) == Some(va));
                if got == Some(va) {
                    assert(first_code(bytes@, w, *view, d@[i as int].end) == Some(va));
                }
            }
        }
        i = i + 1;
    }
    out
}

/// The state of a sweep through a gap: where it is, whether a function may begin
/// here, the furthest address that was branched to, and all that were.
pub ghost struct Sweep {
    pub va: u64,
    pub armed: bool,
    pub reach: u64,
    pub targets: Set<u64>,
}

/// Where an instruction branches to further on.
pub open spec fn forward(x: DecodedInsn, va: u64) -> Option<u64> {
    if x.kind == InsnKind::Jump || x.kind == InsnKind::CondJump {
        match x.target {
            Some(t) => if t.0 > va {
                Some(t.0)
            } else {
                None
            },
            None => None,
        }
    } else {
        None
    }
}

/// Whether a function may begin behind an instruction. A return ends one only
/// where filler follows: otherwise it is an early return.
pub open spec fn ends_here(w: Window, view: CodeView, x: DecodedInsn, next: u64) -> bool {
    if x.kind == InsnKind::Ret {
        w.has(next) && match view.at(next) {
            Some(n) => is_filler_insn(n),
            None => false,
        }
    } else {
        x.kind == InsnKind::Jump
    }
}

/// The state behind an instruction.
pub open spec fn swept(w: Window, view: CodeView, x: DecodedInsn, st: Sweep) -> Sweep {
    let next = sat_add(st.va, x.len as u64);
    Sweep {
        va: next,
        armed: ends_here(w, view, x, next),
        reach: match forward(x, st.va) {
            Some(t) => if t > st.reach {
                t
            } else {
                st.reach
            },
            None => st.reach,
        },
        targets: match forward(x, st.va) {
            Some(t) => st.targets.insert(t),
            None => st.targets,
        },
    }
}

/// The starts that a sweep up to `end` finds. A function does not begin where
/// something branches to, nor before the furthest such place.
pub open spec fn sweep_from(bytes: Seq<u8>, w: Window, view: CodeView, end: u64, st: Sweep) -> Set<u64>
    decreases left(end, st.va),
{
    if !w.has(st.va) || st.va >= end {
        Set::empty()
    } else if is_zero(bytes, w, st.va) {
        sweep_from(bytes, w, view, end, Sweep { va: (st.va + 1) as u64, ..st })
    } else {
        match view.at(st.va) {
            None => sweep_from(bytes, w, view, end, Sweep { va: (st.va + 1) as u64, ..st }),
            Some(x) => if x.len == 0 || sat_add(st.va, x.len as u64) <= st.va {
                Set::empty()
            } else if is_filler_insn(x) {
                sweep_from(bytes, w, view, end, Sweep { va: sat_add(st.va, x.len as u64), ..st })
            } else {
                let rest = sweep_from(bytes, w, view, end, swept(w, view, x, st));
                if st.armed && st.va >= st.reach && !st.targets.contains(st.va) {
                    rest.insert(st.va)
                } else {
                    rest
                }
            },
        }
    }
}

/// The starts in the gap behind the extent `i`, as far as it was read.
pub open spec fn gap_starts(bytes: Seq<u8>, w: Window, view: CodeView, d: Seq<Extent>, i: int) -> Set<u64> {
    let lo = if d[i].end > w.lo {
        d[i].end
    } else {
        w.lo
    };
    let hi = if d[i + 1].start < w.hi {
        d[i + 1].start
    } else {
        w.hi
    };
    if hi <= lo {
        Set::empty()
    } else {
        sweep_from(bytes, w, view, hi, Sweep { va: lo, armed: true, reach: lo, targets: Set::empty() })
    }
}

/// Some gap between declared functions holds this start.
pub open spec fn in_gap(bytes: Seq<u8>, w: Window, view: CodeView, d: Seq<Extent>, va: u64) -> bool {
    exists|i: int| 0 <= i && i + 1 < d.len() && (#[trigger] gap_starts(bytes, w, view, d, i)).contains(va)
}

fn sweep_gap(bytes: &[u8], w: Window, view: &CodeView, lo: u64, hi: u64, out: &mut SortedSet<u64>)
    requires
        view.wf(),
        window_ok(bytes@, w),
        w.lo <= lo <= hi <= w.hi,
        old(out).wf(),
    ensures
        final(out).wf(),
        final(out).set() == old(out).set().union(
            sweep_from(
                bytes@,
                w,
                *view,
                hi,
                Sweep { va: lo, armed: true, reach: lo, targets: Set::empty() },
            ),
        ),
{
    let _n: usize = bytes.len();
    let mut va: u64 = lo;
    let mut armed = true;
    let mut reach: u64 = lo;
    let mut targets: SortedSet<u64> = SortedSet::new();
    let ghost all = old(out).set().union(
        sweep_from(bytes@, w, *view, hi, Sweep { va: lo, armed: true, reach: lo, targets: Set::empty() }),
    );
    assert(targets.set() =~= Set::<u64>::empty());
    while va < hi
        invariant
            view.wf(),
            window_ok(bytes@, w),
            bytes@.len() <= usize::MAX,
            w.lo <= va,
            hi <= w.hi,
            out.wf(),
            targets.wf(),
            out.set().union(
                sweep_from(bytes@, w, *view, hi, Sweep { va, armed, reach, targets: targets.set() }),
            ) == all,
        decreases left(hi, va),
    {
        let ghost st = Sweep { va, armed, reach, targets: targets.set() };
        if bytes[(va - w.lo) as usize] == 0 {
            va = va + 1;
        } else {
            match view.insn_at(va) {
                None => {
                    va = va + 1;
                },
                Some(x) => {
                    let next: u64 = va.saturating_add(x.len as u64);
                    if is_filler(x) {
                        va = next;
                    } else {
                        let ghost rest = sweep_from(bytes@, w, *view, hi, swept(w, *view, *x, st));
                        let ghost before = out.set();
                        if armed && va >= reach && !targets.contains(&va) {
                            out.insert(va);
                            assert(out.set().union(rest) =~= before.union(rest.insert(va)));
                        }
                        let jumps = match x.kind {
                            InsnKind::Jump => true,
                            InsnKind::CondJump => true,
                            _ => false,
                        };
                        if jumps {
                            match x.target {
                                Some(t) => {
                                    if t.0 > va {
                                        if t.0 > reach {
                                            reach = t.0;
                                        }
                                        targets.insert(t.0);
                                    }
                                },
                                None => {},
                            }
                        }
                        armed = match x.kind {
                            InsnKind::Ret => {
                                if w.covers(next) {
                                    match view.insn_at(next) {
                                        Some(n) => is_filler(n),
                                        None => false,
                                    }
                                } else {
                                    false
                                }
                            },
                            InsnKind::Jump => true,
                            _ => false,
                        };
                        va = next;
                        assert((Sweep { va, armed, reach, targets: targets.set() }) == swept(w, *view, *x, st));
                    }
                },
            }
        }
    }
    assert(out.set().union(Set::empty()) =~= out.set());
}

fn sweep_declared_gaps(bytes: &[u8], w: Window, view: &CodeView, d: &Vec<Extent>) -> (out: SortedSet<u64>)
    requires
        view.wf(),
        window_ok(bytes@, w),
    ensures
        out.wf(),
        forall|va: u64| #[trigger] out.set().contains(va) <==> in_gap(bytes@, w, *view, d@, va),
{
    let mut out: SortedSet<u64> = SortedSet::new();
    let mut i: usize = 0;
    while i < d.len() && d.len() - i >= 2
        invariant
            view.wf(),
            window_ok(bytes@, w),
            out.wf(),
            i <= d@.len(),
            forall|va: u64| #[trigger]
                out.set().contains(va) <==> exists|j: int|
                    0 <= j < i && j + 1 < d@.len() && (#[trigger] gap_starts(bytes@, w, *view, d@, j)).contains(va),
        decreases d@.len() - i,
    {
        let ghost before = out.set();
        let lo: u64 = if d[i].end > w.lo {
            d[i].end
        } else {
            w.lo
        };
        let hi: u64 = if d[i + 1].start < w.hi {
            d[i + 1].start
        } else {
            w.hi
        };
        if lo < hi {
            sweep_gap(bytes, w, view, lo, hi, &mut out);
        }
        proof {
            assert forall|va: u64| #[trigger]
                out.set().contains(va) <==> exists|j: int|
                    0 <= j < i + 1 && j + 1 < d@.len() && (#[trigger] gap_starts(bytes@, w, *view, d@, j)).contains(
                        va,
                    ) by {
                let here = gap_starts(bytes@, w, *view, d@, i as int);
                assert(out.set().contains(va) <==> before.contains(va) || here.contains(va));
            }
        }
        i = i + 1;
    }
    proof {
        assert forall|va: u64| #[trigger] out.set().contains(va) <==> in_gap(bytes@, w, *view, d@, va) by {
        }
    }
    out
}

/// Some instruction of the sweep calls the address.
pub open spec fn is_called(sweep: Seq<DecodedInsn>, va: u64) -> bool {
    exists|i: int|
        0 <= i < sweep.len() && (#[trigger] sweep[i]).kind == InsnKind::Call && sweep[i].target == Some(Va(va))
}

/// Every address that a direct call names.
pub fn direct_call_targets(sweep: &Vec<DecodedInsn>) -> (out: SortedSet<u64>)
    ensures
        out.wf(),
        forall|va: u64| #[trigger] out.set().contains(va) <==> is_called(sweep@, va),
{
    let mut out: SortedSet<u64> = SortedSet::new();
    let mut i: usize = 0;
    while i < sweep.len()
        invariant
            out.wf(),
            i <= sweep@.len(),
            forall|va: u64| #[trigger]
                out.set().contains(va) <==> exists|j: int|
                    0 <= j < i && (#[trigger] sweep@[j]).kind == InsnKind::Call && sweep@[j].target == Some(Va(va)),
        decreases sweep@.len() - i,
    {
        let ghost before = out.set();
        let x = &sweep[i];
        let calls = match x.kind {
            InsnKind::Call => true,
            _ => false,
        };
        if calls {
            match x.target {
                Some(t) => {
                    out.insert(t.0);
                },
                None => {},
            }
        }
        proof {
            assert forall|va: u64| #[trigger]
                out.set().contains(va) <==> exists|j: int|
                    0 <= j < i + 1 && (#[trigger] sweep@[j]).kind == InsnKind::Call && sweep@[j].target == Some(Va(va)) by {
                assert(before.contains(va) <==> exists|j: int|
                    0 <= j < i && (#[trigger] sweep@[j]).kind == InsnKind::Call && sweep@[j].target == Some(Va(va)));
                if sweep@[i as int].kind == InsnKind::Call && sweep@[i as int].target == Some(Va(va)) {
                    assert(out.set().contains(va));
                }
            }
        }
        i = i + 1;
    }
    out
}

// ---------------------------------------------------------------------------
// Code that begins like a function
// ---------------------------------------------------------------------------

/// How functions begin on a processor: patterns of bytes, those among them that
/// are sure signs, and the alignment of entries.
pub struct EntryPatterns {
    pub prologues: Vec<Vec<u8>>,
    pub markers: Vec<Vec<u8>>,
    pub align: u64,
}

/// The pattern stands at byte `i`.
pub open spec fn stands_at(bytes: Seq<u8>, i: int, p: Seq<u8>) -> bool {
    i + p.len() <= bytes.len() && bytes.subrange(i, i + p.len()) == p
}

/// Some pattern stands at byte `i`.
pub open spec fn any_stands(bytes: Seq<u8>, i: int, pats: Seq<Vec<u8>>) -> bool {
    exists|k: int| 0 <= k < pats.len() && stands_at(bytes, i, (#[trigger] pats[k])@)
}

/// The length of the longest of the first `k` patterns.
pub open spec fn longest(pats: Seq<Vec<u8>>, k: int) -> nat
    decreases k,
{
    if k <= 0 {
        0
    } else if pats[k - 1]@.len() > longest(pats, k - 1) {
        pats[k - 1]@.len()
    } else {
        longest(pats, k - 1)
    }
}

/// How entries are aligned, at least.
pub open spec fn alignment(a: u64) -> u64 {
    if a == 0 {
        1
    } else {
        a
    }
}

/// The entries that a search by patterns finds from byte `i` on. An entry is
/// aligned, and inside a declared function only a sure sign counts. Behind a
/// pattern eight bytes are passed over.
pub open spec fn entries_from(
    bytes: Seq<u8>,
    lo: u64,
    pats: EntryPatterns,
    d: Seq<Extent>,
    i: int,
) -> Set<u64>
    decreases bytes.len() + 1 - i,
{
    if i < 0 || i > bytes.len() || i + longest(pats.prologues@, pats.prologues@.len() as int) > bytes.len() {
        Set::empty()
    } else if any_stands(bytes, i, pats.prologues@) {
        let va = (lo + i) as u64;
        let rest = if i + 8 <= bytes.len() {
            entries_from(bytes, lo, pats, d, i + 8)
        } else {
            Set::empty()
        };
        if va % alignment(pats.align) == 0 && (any_stands(bytes, i, pats.markers@) || !inside(d, va)) {
            rest.insert(va)
        } else {
            rest
        }
    } else {
        entries_from(bytes, lo, pats, d, i + 1)
    }
}

fn is_at(bytes: &[u8], i: usize, p: &Vec<u8>) -> (r: bool)
    requires
        i <= bytes@.len(),
    ensures
        r == stands_at(bytes@, i as int, p@),
{
    if p.len() > bytes.len() - i {
        return false;
    }
    let mut k: usize = 0;
    while k < p.len()
        invariant
            i + p@.len() <= bytes@.len(),
            bytes@.len() <= usize::MAX,
            k <= p@.len(),
            forall|j: int| 0 <= j < k ==> bytes@[i + j] == #[trigger] p@[j],
        decreases p@.len() - k,
    {
        if bytes[i + k] != p[k] {
            assert(bytes@.subrange(i as int, i + p@.len())[k as int] == bytes@[i + k]);
            return false;
        }
        k = k + 1;
    }
    assert(bytes@.subrange(i as int, i + p@.len()) =~= p@);
    true
}

fn any_at(bytes: &[u8], i: usize, pats: &Vec<Vec<u8>>) -> (r: bool)
    requires
        i <= bytes@.len(),
    ensures
        r == any_stands(bytes@, i as int, pats@),
{
    let mut k: usize = 0;
    while k < pats.len()
        invariant
            i <= bytes@.len(),
            k <= pats@.len(),
            forall|j: int| 0 <= j < k ==> !stands_at(bytes@, i as int, (#[trigger] pats@[j])@),
        decreases pats@.len() - k,
    {
        if is_at(bytes, i, &pats[k]) {
            assert(stands_at(bytes@, i as int, pats@[k as int]@));
            return true;
        }
        k = k + 1;
    }
    false
}

fn longest_of(pats: &Vec<Vec<u8>>) -> (n: usize)
    ensures
        n == longest(pats@, pats@.len() as int),
{
    let mut n: usize = 0;
    let mut k: usize = 0;
    while k < pats.len()
        invariant
            k <= pats@.len(),
            n == longest(pats@, k as int),
        decreases pats@.len() - k,
    {
        if pats[k].len() > n {
            n = pats[k].len();
        }
        k = k + 1;
    }
    n
}

/// The functions found, with one more that has no stated end.
pub open spec fn plus(m: Map<u64, Option<Va>>, va: u64) -> Map<u64, Option<Va>> {
    if m.contains_key(va) {
        m
    } else {
        m.insert(va, None)
    }
}

/// The functions found, with those of a set, which have no stated end.
pub open spec fn with_all(m: Map<u64, Option<Va>>, s: Set<u64>) -> Map<u64, Option<Va>> {
    Map::new(
        |k: u64| m.contains_key(k) || s.contains(k),
        |k: u64|
            if m.contains_key(k) {
                m[k]
            } else {
                None
            },
    )
}

fn put(found: &mut SortedMap<u64, Option<Va>>, va: u64)
    requires
        old(found).wf(),
    ensures
        final(found).wf(),
        final(found).map() == plus(old(found).map(), va),
{
    if found.get(&va).is_none() {
        found.insert(va, None);
    }
}

fn scan_entries(bytes: &[u8], lo: u64, pats: &EntryPatterns, d: &Vec<Extent>, found: &mut SortedMap<u64, Option<Va>>)
    requires
        by_start(d@),
        lo + bytes@.len() <= u64::MAX,
        old(found).wf(),
    ensures
        final(found).wf(),
        final(found).map() == with_all(old(found).map(), entries_from(bytes@, lo, *pats, d@, 0)),
{
    let ghost all = with_all(found.map(), entries_from(bytes@, lo, *pats, d@, 0));
    let n: usize = bytes.len();
    let most: usize = longest_of(&pats.prologues);
    let align: u64 = if pats.align == 0 {
        1
    } else {
        pats.align
    };
    let mut i: usize = 0;
    let mut going = true;
    while going && n - i >= most
        invariant
            by_start(d@),
            n == bytes@.len(),
            lo + n <= u64::MAX,
            most == longest(pats.prologues@, pats.prologues@.len() as int),
            align == alignment(pats.align),
            i <= n,
            found.wf(),
            going ==> with_all(found.map(), entries_from(bytes@, lo, *pats, d@, i as int)) == all,
            !going ==> found.map() == all,
        decreases n - i, going as int,
    {
        let ghost before = found.map();
        let ghost here = entries_from(bytes@, lo, *pats, d@, i as int);
        if any_at(bytes, i, &pats.prologues) {
            let va: u64 = lo + i as u64;
            let ghost rest = if i + 8 <= n {
                entries_from(bytes@, lo, *pats, d@, i + 8)
            } else {
                Set::empty()
            };
            if va % align == 0 && (any_at(bytes, i, &pats.markers) || !inside_declared(d, va)) {
                put(found, va);
                assert(with_all(found.map(), rest) =~= with_all(before, rest.insert(va)));
            }
            if n - i >= 8 {
                i = i + 8;
            } else {
                assert(with_all(found.map(), rest) =~= found.map());
                going = false;
            }
        } else if i < n {
            i = i + 1;
        } else {
            assert(entries_from(bytes@, lo, *pats, d@, i + 1) =~= Set::<u64>::empty());
            assert(with_all(found.map(), Set::empty()) =~= found.map());
            going = false;
        }
    }
    assert(with_all(found.map(), Set::empty()) =~= found.map());
}

fn add_all(found: &mut SortedMap<u64, Option<Va>>, s: &SortedSet<u64>, w: Window, d: &Vec<Extent>)
    requires
        by_start(d@),
        s.wf(),
        old(found).wf(),
    ensures
        final(found).wf(),
        forall|k: u64| #[trigger]
            final(found).map().contains_key(k) <==> old(found).map().contains_key(k) || (s.set().contains(k) && w.has(k)
                && !inside(d@, k)),
        forall|k: u64| #[trigger]
            final(found).map().contains_key(k) ==> final(found).map()[k] == if old(found).map().contains_key(k) {
                old(found).map()[k]
            } else {
                None
            },
{
    let ghost first = found.map();
    let mut i: usize = 0;
    while i < s.items.len()
        invariant
            by_start(d@),
            s.wf(),
            found.wf(),
            i <= s.items@.len(),
            forall|k: u64| #[trigger]
                found.map().contains_key(k) <==> first.contains_key(k) || (w.has(k) && !inside(d@, k) && exists|j: int|
                    0 <= j < i && #[trigger] s.items@[j] == k),
            forall|k: u64| #[trigger]
                found.map().contains_key(k) ==> found.map()[k] == if first.contains_key(k) {
                    first[k]
                } else {
                    None
                },
        decreases s.items@.len() - i,
    {
        let va: u64 = s.items[i];
        let ghost before = found.map();
        if w.covers(va) && !inside_declared(d, va) {
            put(found, va);
        }
        proof {
            assert forall|k: u64| #[trigger]
                found.map().contains_key(k) <==> first.contains_key(k) || (w.has(k) && !inside(d@, k) && exists|j: int|
                    0 <= j < i + 1 && #[trigger] s.items@[j] == k) by {
                assert(before.contains_key(k) <==> first.contains_key(k) || (w.has(k) && !inside(d@, k) && exists|
                    j: int,
                |
                    0 <= j < i && #[trigger] s.items@[j] == k));
                if k == va {
                    assert(s.items@[i as int] == k);
                }
            }
        }
        i = i + 1;
    }
    proof {
        assert forall|k: u64| s.set().contains(k) <==> exists|j: int|
            0 <= j < s.items@.len() && #[trigger] s.items@[j] == k by {
            if s.set().contains(k) {
                let j = choose|j: int|
                    0 <= j < s.items@.len() && crate::sorted::SortKey::model(&(#[trigger] s.items@[j])) == k;
                assert(s.items@[j] == k);
            }
            if exists|j: int| 0 <= j < s.items@.len() && #[trigger] s.items@[j] == k {
                let j = choose|j: int| 0 <= j < s.items@.len() && #[trigger] s.items@[j] == k;
                assert(crate::sorted::SortKey::model(&s.items@[j]) == k);
                assert(holds(s.items@, k));
            }
        }
    }
}

// ---------------------------------------------------------------------------
// The pass
// ---------------------------------------------------------------------------

/// What a search finds in a range of code.
#[derive(Clone, Debug, PartialEq, Eq)]
pub struct DiscoverArtifact {
    pub start: Va,
    pub scanned_bytes: usize,
    /// How many functions are returned.
    pub count: usize,
    pub functions: Vec<FunctionCandidate>,
    /// More were found than are returned.
    pub truncated: bool,
}

/// What is known beside the context: what a decoder says, how functions begin,
/// and how names are written where that differs from the symbol.
pub struct DiscoverFacts {
    pub view: CodeView,
    pub patterns: EntryPatterns,
    pub rendered: NameMap<String>,
}

impl DiscoverFacts {
    pub open spec fn wf(&self) -> bool {
        self.view.wf() && self.rendered.wf()
    }
}

/// The functions that the image declares.
pub open spec fn stated(ctx: Ctx) -> Seq<StatedFunction> {
    match ctx.functions {
        Some(f) => f@,
        None => Seq::empty(),
    }
}

/// The extents that the image declares, in order.
pub open spec fn extents(ctx: Ctx) -> Seq<Extent> {
    stable(extents_of(stated(ctx), stated(ctx).len() as int))
}

/// The address is that of a function which code leads to: it follows a declared
/// one, begins in a gap between two, or is called; and it lies in no declared
/// function.
pub open spec fn led_to(bytes: Seq<u8>, w: Window, view: CodeView, d: Seq<Extent>, va: u64) -> bool {
    &&& w.has(va)
    &&& !inside(d, va)
    &&& follows(bytes, w, view, d, va) || in_gap(bytes, w, view, d, va) || is_called(view.sweep@, va)
}

/// Every function in the window, with the end that it states.
pub open spec fn functions_in(ctx: Ctx, f: DiscoverFacts, bytes: Seq<u8>, w: Window) -> Map<u64, Option<Va>> {
    let d = extents(ctx);
    let first = declared_in(stated(ctx), stated(ctx).len() as int, w);
    let scanned = entries_from(bytes, w.lo, f.patterns, d, 0);
    Map::new(
        |k: u64| first.contains_key(k) || led_to(bytes, w, f.view, d, k) || scanned.contains(k),
        |k: u64|
            if first.contains_key(k) {
                first[k]
            } else {
                None
            },
    )
}

/// How a function is called: by the symbol on its entry, or by its address.
pub open spec fn name_of(ctx: Ctx, f: DiscoverFacts, va: Va) -> Seq<char> {
    match entry_symbol(ctx.symbols, va, f.view.at(va.0)) {
        Some(s) => if f.rendered.map().contains_key(s.name@) {
            f.rendered.map()[s.name@]@
        } else {
            s.name@
        },
        None => address_name(va),
    }
}

/// Where a function ends: a stated size counts first.
pub open spec fn end_of(ctx: Ctx, va: Va, stated_end: Option<Va>) -> Option<Va> {
    match ctx.symbols {
        Some(t) => match t.size(va) {
            Some(n) => if va.0 + n <= u64::MAX {
                Some(Va((va.0 + n) as u64))
            } else {
                stated_end
            },
            None => stated_end,
        },
        None => stated_end,
    }
}

pub open spec fn candidate(ctx: Ctx, f: DiscoverFacts, va: u64, stated_end: Option<Va>) -> CandidateNode {
    CandidateNode { name: name_of(ctx, f, Va(va)), va: Va(va), end: end_of(ctx, Va(va), stated_end) }
}

/// The addresses in ascending order.
pub open spec fn listing(keys: Seq<u64>, m: Map<u64, Option<Va>>) -> bool {
    &&& ascending(keys)
    &&& forall|k: u64| #[trigger] m.contains_key(k) <==> holds(keys, k)
}

/// Where the page starts among `n` functions.
pub open spec fn page_start(input: DiscoverInput, n: nat) -> int {
    if input.offset <= n {
        input.offset as int
    } else {
        n as int
    }
}

/// Where it ends.
pub open spec fn page_end(input: DiscoverInput, n: nat) -> int {
    if input.limit == 0 || n - page_start(input, n) <= input.limit {
        n as int
    } else {
        page_start(input, n) + input.limit
    }
}

/// The artifact holds the page of the functions that the input asks for.
pub open spec fn discovered(
    ctx: Ctx,
    f: DiscoverFacts,
    input: DiscoverInput,
    bytes: Seq<u8>,
    a: DiscoverArtifact,
) -> bool {
    let m = functions_in(ctx, f, bytes, Window { lo: input.start.0, hi: (input.start.0 + bytes.len()) as u64 });
    &&& a.start == input.start
    &&& a.scanned_bytes == bytes.len()
    &&& a.count == a.functions@.len()
    &&& exists|keys: Seq<u64>| #[trigger]
        listing(keys, m) && {
            let from = page_start(input, keys.len());
            let to = page_end(input, keys.len());
            &&& candidate_nodes(a.functions@) == Seq::new(
                (to - from) as nat,
                |j: int| candidate(ctx, f, keys[from + j], m[keys[from + j]]),
            )
            &&& a.truncated == (to < keys.len())
        }
}

fn name_at(ctx: &Ctx, f: &DiscoverFacts, va: Va) -> (s: String)
    requires
        f.wf(),
    ensures
        s@ == name_of(*ctx, *f, va),
{
    match symbol_on_entry(ctx.symbols, va, f.view.insn_at(va.0)) {
        Some(sym) => match f.rendered.get(&sym.name) {
            Some(r) => r.clone(),
            None => sym.name.clone(),
        },
        None => name_by_address(va),
    }
}

fn find_end(ctx: &Ctx, va: Va, stated_end: Option<Va>) -> (r: Option<Va>)
    ensures
        r == end_of(*ctx, va, stated_end),
{
    match ctx.symbols {
        Some(t) => match t.symbol_size(va) {
            Some(n) => match va.0.checked_add(n) {
                Some(e) => Some(Va(e)),
                None => stated_end,
            },
            None => stated_end,
        },
        None => stated_end,
    }
}

/// Finds the functions in a range of code.
pub struct DiscoverPass;

impl DiscoverPass {
    pub fn name(&self) -> (r: &'static str)
        ensures
            r@ == "function.discover"@,
    {
        "function.discover"
    }

    fn find_all(&self, ctx: &Ctx, f: &DiscoverFacts, bytes: &[u8], w: Window) -> (found: SortedMap<u64, Option<Va>>)
        requires
            f.wf(),
            window_ok(bytes@, w),
        ensures
            found.wf(),
            found.map() == functions_in(*ctx, *f, bytes@, w),
    {
        let none: Vec<StatedFunction> = Vec::new();
        let fs: &[StatedFunction] = match ctx.functions {
            Some(f) => f,
            None => none.as_slice(),
        };
        assert(fs@ =~= stated(*ctx));
        let d = collect_extents(fs);
        proof {
            lemma_sorted_extents(extents_of(fs@, fs@.len() as int));
        }
        let mut found = collect_declared(fs, w);
        let ghost first = found.map();
        let after = after_declared_ends(bytes, w, &f.view, &d);
        add_all(&mut found, &after, w, &d);
        let ghost m1 = found.map();
        let gaps = sweep_declared_gaps(bytes, w, &f.view, &d);
        add_all(&mut found, &gaps, w, &d);
        let ghost m2 = found.map();
        let called = direct_call_targets(&f.view.sweep);
        add_all(&mut found, &called, w, &d);
        let ghost m3 = found.map();
        scan_entries(bytes, w.lo, &f.patterns, &d, &mut found);
        proof {
            let want = functions_in(*ctx, *f, bytes@, w);
            assert forall|k: u64| #[trigger] want.contains_key(k) <==> found.map().contains_key(k) by {
                assert(m1.contains_key(k) <==> first.contains_key(k) || (after.set().contains(k) && w.has(k) && !inside(
                    d@,
                    k,
                )));
                assert(m2.contains_key(k) <==> m1.contains_key(k) || (gaps.set().contains(k) && w.has(k) && !inside(
                    d@,
                    k,
                )));
                assert(m3.contains_key(k) <==> m2.contains_key(k) || (called.set().contains(k) && w.has(k) && !inside(
                    d@,
                    k,
                )));
            }
            assert forall|k: u64| #[trigger] want.contains_key(k) implies found.map()[k] == want[k] by {
                assert(found.map().contains_key(k));
                if m3.contains_key(k) {
                    if m2.contains_key(k) {
                        if m1.contains_key(k) {
                        }
                    }
                }
            }
            assert(found.map() =~= want);
        }
        found
    }

    /// Finds the functions in a range of code, and returns the page of them that
    /// the input asks for, by address.
    pub fn run(&self, ctx: &Ctx, f: &DiscoverFacts, input: DiscoverInput) -> (r: Result<DiscoverArtifact, CoreError>)
        requires
            ctx.source.wf(),
            f.wf(),
        ensures
            match ctx.source.read_of(input.start.0, input.size as nat) {
                Some(bytes) => r matches Ok(a) && discovered(*ctx, *f, input, bytes, a),
                None => r == Err::<DiscoverArtifact, CoreError>(
                    CoreError::Source(SourceError::Unmapped(input.start)),
                ),
            },
    {
        let bytes = match ctx.source.read(input.start, input.size) {
            Ok(b) => b,
            Err(e) => {
                return Err(CoreError::Source(e));
            },
        };
        proof {
            lemma_read_len(ctx.source, input.start.0, input.size as nat);
        }
        let w = Window { lo: input.start.0, hi: input.start.0 + bytes.len() as u64 };
        let found = self.find_all(ctx, f, bytes.as_slice(), w);
        let n: usize = found.keys.len();
        let from: usize = if input.offset <= n {
            input.offset
        } else {
            n
        };
        let to: usize = if input.limit == 0 || n - from <= input.limit {
            n
        } else {
            from + input.limit
        };
        let ghost keys = found.keys@;
        let ghost m = found.map();
        let mut functions: Vec<FunctionCandidate> = Vec::new();
        let mut i: usize = from;
        while i < to
            invariant
                f.wf(),
                found.wf(),
                keys == found.keys@,
                m == found.map(),
                from <= i <= to <= n,
                n == keys.len(),
                functions@.len() == i - from,
                forall|j: int|
                    0 <= j < i - from ==> candidate_node(#[trigger] functions@[j]) == candidate(
                        *ctx,
                        *f,
                        keys[from + j],
                        m[keys[from + j]],
                    ),
            decreases to - i,
        {
            let va = Va(found.keys[i]);
            let stated_end = found.vals[i];
            proof {
                lemma_map_at(&found, i as int);
            }
            functions.push(
                FunctionCandidate { name: name_at(ctx, f, va), va, end: find_end(ctx, va, stated_end) },
            );
            i = i + 1;
        }
        let a = DiscoverArtifact {
            start: input.start,
            scanned_bytes: bytes.len(),
            count: functions.len(),
            functions,
            truncated: to < n,
        };
        proof {
            assert(listing(keys, m)) by {
                assert forall|k: u64| #[trigger] m.contains_key(k) <==> holds(keys, k) by {
                }
            }
            assert(candidate_nodes(a.functions@) =~= Seq::new(
                (to - from) as nat,
                |j: int| candidate(*ctx, *f, keys[from + j], m[keys[from + j]]),
            ));
        }
        Ok(a)
    }
}

// ---------------------------------------------------------------------------
// Laws
// ---------------------------------------------------------------------------

/// A function that the image declares is found, with the end that it states,
/// whatever its first bytes are.
pub proof fn declared_functions_are_found(ctx: Ctx, f: DiscoverFacts, bytes: Seq<u8>, w: Window, i: int)
    requires
        0 <= i < stated(ctx).len(),
        w.has(stated(ctx)[i].start.0),
    ensures
        functions_in(ctx, f, bytes, w).contains_key(stated(ctx)[i].start.0),
        stated_end(stated(ctx)[i]) is Some ==> functions_in(ctx, f, bytes, w)[stated(ctx)[i].start.0] is Some,
{
    lemma_declared(stated(ctx), i, stated(ctx).len() as int, w);
}

proof fn lemma_declared(fs: Seq<StatedFunction>, i: int, k: int, w: Window)
    requires
        0 <= i < k <= fs.len(),
        w.has(fs[i].start.0),
    ensures
        declared_in(fs, k, w).contains_key(fs[i].start.0),
        stated_end(fs[i]) is Some ==> declared_in(fs, k, w)[fs[i].start.0] is Some,
    decreases k,
{
    if i < k - 1 {
        lemma_declared(fs, i, k - 1, w);
    }
}

proof fn lemma_declared_starts(fs: Seq<StatedFunction>, k: int, w: Window, va: u64)
    requires
        0 <= k <= fs.len(),
        declared_in(fs, k, w).contains_key(va),
    ensures
        w.has(va),
        exists|i: int| 0 <= i < k && (#[trigger] fs[i]).start.0 == va,
    decreases k,
{
    if k > 0 {
        if declared_in(fs, k - 1, w).contains_key(va) {
            lemma_declared_starts(fs, k - 1, w, va);
        } else {
            assert(fs[k - 1].start.0 == va);
        }
    }
}

proof fn lemma_entries_sure(bytes: Seq<u8>, lo: u64, pats: EntryPatterns, d: Seq<Extent>, i: int, va: u64)
    requires
        0 <= i,
        lo + bytes.len() <= u64::MAX,
        entries_from(bytes, lo, pats, d, i).contains(va),
        inside(d, va),
    ensures
        lo <= va <= lo + bytes.len(),
        any_stands(bytes, va - lo, pats.markers@),
    decreases bytes.len() + 1 - i,
{
    if any_stands(bytes, i, pats.prologues@) {
        if i + 8 <= bytes.len() && entries_from(bytes, lo, pats, d, i + 8).contains(va) {
            lemma_entries_sure(bytes, lo, pats, d, i + 8, va);
        } else {
            assert(va == lo + i);
        }
    } else {
        lemma_entries_sure(bytes, lo, pats, d, i + 1, va);
    }
}

/// No second function is found inside a declared one, unless it declares itself
/// or bears a sure sign.
pub proof fn declared_functions_are_not_split(ctx: Ctx, f: DiscoverFacts, bytes: Seq<u8>, w: Window, va: u64)
    requires
        window_ok(bytes, w),
        functions_in(ctx, f, bytes, w).contains_key(va),
        inside(extents(ctx), va),
    ensures
        (exists|i: int| 0 <= i < stated(ctx).len() && (#[trigger] stated(ctx)[i]).start.0 == va) || any_stands(
            bytes,
            va - w.lo,
            f.patterns.markers@,
        ),
{
    let fs = stated(ctx);
    let first = declared_in(fs, fs.len() as int, w);
    if first.contains_key(va) {
        lemma_declared_starts(fs, fs.len() as int, w, va);
    } else {
        lemma_entries_sure(bytes, w.lo, f.patterns, extents(ctx), 0, va);
    }
}

// ---------------------------------------------------------------------------
// What a function is found by
// ---------------------------------------------------------------------------

/// The entry of the exception directory stands behind the headers; the directories of
/// the 32-bit form start sixteen bytes earlier than those of the 64-bit form.
pub proof fn the_exception_table_is_the_fourth_directory(hdr: Seq<u8>, e: int)
    requires
        0x40 <= e,
        hdr.len() >= 0x40,
        le(hdr, 0x3c, 4) == e,
        e + 24 + 112 + 32 <= hdr.len(),
        hdr[e] == 'P' as u8,
        hdr[e + 1] == 'E' as u8,
        hdr[e + 2] == 0,
        hdr[e + 3] == 0,
    ensures
        ({
            let p = if le(hdr, e + 24, 2) == 0x10b {
                e + 24 + 96 + 3 * 8
            } else {
                e + 24 + 112 + 3 * 8
            };
            let rva = le(hdr, p, 4);
            let size = le(hdr, p + 4, 4);
            &&& rva != 0 && size != 0 ==> exception_table(hdr) == Ok::<(u32, u32), Seq<char>>((rva as u32, size as u32))
            &&& rva == 0 || size == 0 ==> exception_table(hdr) is Err
        }),
{
    let p = directory_at(hdr, e);
    lemma_word(hdr, 0x3c);
    lemma_word(hdr, p);
    lemma_word(hdr, p + 4);
    crate::bytes::lemma_le_bound(hdr, e + 24, 2);
    assert(vstd::arithmetic::power::pow(256, 2) == 0x1_0000) by {
        reveal_with_fuel(vstd::arithmetic::power::pow, 4);
    }
}

proof fn lemma_word(b: Seq<u8>, p: int)
    ensures
        le(b, p, 4) <= u32::MAX,
{
    crate::bytes::lemma_le_bound(b, p, 4);
    assert(vstd::arithmetic::power::pow(256, 4) == 0x1_0000_0000) by {
        reveal_with_fuel(vstd::arithmetic::power::pow, 6);
    }
}

/// An entry of the exception table is a function from its beginning to its end, both
/// counted from the module's base, that is called by its address.
pub proof fn exception_entries_are_functions(base: Va, t: Seq<u8>, p: int)
    requires
        0 <= p,
        p + 12 <= t.len(),
        base.0 + 0xffff_ffff <= u64::MAX,
    ensures
        ({
            let begin = le(t, p, 4);
            let end = le(t, p + 4, 4);
            let rest = runtime_from(base, t, p + 12);
            let all = runtime_from(base, t, p);
            &&& begin == 0 && end == 0 ==> all.len() == 0
            &&& end <= begin && !(begin == 0 && end == 0) ==> all == rest
            &&& begin < end ==> all.len() == rest.len() + 1 && all.skip(1) == rest && all[0].va.0 == base.0 + begin && (
            all[0].end matches Some(x) && x.0 == base.0 + end) && all[0].name == "sub_"@ + spell(
                (base.0 + begin) as nat,
                16,
                true,
            )
        }),
{
    lemma_word(t, p);
    lemma_word(t, p + 4);
    let rest = runtime_from(base, t, p + 12);
    let all = runtime_from(base, t, p);
    if le(t, p, 4) < le(t, p + 4, 4) {
        assert(all.skip(1) =~= rest);
    }
}

/// The first code behind an address is the first instruction that is no filler; zero
/// bytes are passed over one by one.
pub proof fn filler_is_passed_over(bytes: Seq<u8>, w: Window, view: CodeView, va: u64)
    requires
        w.has(va),
    ensures
        bytes[va - w.lo] == 0 ==> first_code(bytes, w, view, va) == first_code(bytes, w, view, (va + 1) as u64),
        bytes[va - w.lo] != 0 && view.at(va) is None ==> first_code(bytes, w, view, va) is None,
        bytes[va - w.lo] != 0 ==> (view.at(va) matches Some(x) ==> (x.mnemonic@ != "nop"@ && x.mnemonic@ != "int3"@
            ==> first_code(bytes, w, view, va) == Some(va))),
        bytes[va - w.lo] != 0 ==> (view.at(va) matches Some(x) ==> ((x.mnemonic@ == "nop"@ || x.mnemonic@ == "int3"@)
            && x.len > 0 && va + x.len <= u64::MAX ==> first_code(bytes, w, view, va) == first_code(
            bytes,
            w,
            view,
            (va + x.len) as u64,
        ))),
{
}

/// The end of a function lies behind a return where filler follows, and behind any jump;
/// no other instruction ends one.
pub proof fn functions_end_behind_returns_and_jumps(w: Window, view: CodeView, x: DecodedInsn, next: u64)
    ensures
        x.kind == InsnKind::Jump ==> ends_here(w, view, x, next),
        x.kind == InsnKind::Ret ==> (ends_here(w, view, x, next) <==> w.has(next) && (view.at(next) matches Some(n) && (
        n.mnemonic@ == "nop"@ || n.mnemonic@ == "int3"@))),
        x.kind != InsnKind::Jump && x.kind != InsnKind::Ret ==> !ends_here(w, view, x, next),
{
}

/// A branch further on is a place that belongs to the same function; a branch back, and
/// a call, say nothing.
pub proof fn forward_branches_stay_in_the_function(w: Window, view: CodeView, x: DecodedInsn, st: Sweep, t: Va)
    requires
        x.target == Some(t),
    ensures
        (x.kind == InsnKind::Jump || x.kind == InsnKind::CondJump) && t.0 > st.va ==> swept(w, view, x, st).targets.contains(
            t.0,
        ) && swept(w, view, x, st).reach >= t.0 && swept(w, view, x, st).reach >= st.reach,
        !(x.kind == InsnKind::Jump || x.kind == InsnKind::CondJump) || t.0 <= st.va ==> swept(w, view, x, st).targets
            == st.targets && swept(w, view, x, st).reach == st.reach,
        st.va + x.len <= u64::MAX ==> swept(w, view, x, st).va == st.va + x.len,
{
}

/// A function begins where one may, unless a branch seen so far leads there or further.
pub proof fn functions_begin_where_nothing_branches(bytes: Seq<u8>, w: Window, view: CodeView, end: u64, st: Sweep, x: DecodedInsn)
    requires
        w.has(st.va),
        st.va < end,
        bytes[st.va - w.lo] != 0,
        view.at(st.va) == Some(x),
        x.len > 0,
        st.va + x.len < u64::MAX,
        !is_filler_insn(x),
    ensures
        st.armed && st.va >= st.reach && !st.targets.contains(st.va) ==> sweep_from(bytes, w, view, end, st).contains(st.va),
        sweep_from(bytes, w, view, end, swept(w, view, x, st)).subset_of(sweep_from(bytes, w, view, end, st)),
        !(st.armed && st.va >= st.reach && !st.targets.contains(st.va)) ==> sweep_from(bytes, w, view, end, st)
            == sweep_from(bytes, w, view, end, swept(w, view, x, st)),
{
}

/// The end that was stated first for a start is kept; a function that ends before it
/// starts states none.
pub proof fn stated_ends_are_kept(fs: Seq<StatedFunction>, k: int, w: Window)
    requires
        0 <= k < fs.len(),
        w.has(fs[k].start.0),
    ensures
        ({
            let done = declared_in(fs, k, w);
            let now = declared_in(fs, k + 1, w);
            let s = fs[k].start.0;
            &&& now.contains_key(s)
            &&& done.contains_key(s) && done[s] is Some ==> now[s] == done[s]
            &&& !(done.contains_key(s) && done[s] is Some) && fs[k].end.0 > s ==> now[s] == Some(fs[k].end)
            &&& !(done.contains_key(s) && done[s] is Some) && fs[k].end.0 <= s ==> now[s] is None
        }),
{
}

/// A pattern that stands at an aligned place is an entry, unless it lies inside a
/// declared function and is no sure sign; eight bytes behind it are passed over.
pub proof fn patterns_mark_entries(bytes: Seq<u8>, lo: u64, pats: EntryPatterns, d: Seq<Extent>, i: int)
    requires
        0 <= i,
        i + 8 <= bytes.len(),
        i + longest(pats.prologues@, pats.prologues@.len() as int) <= bytes.len(),
        lo + bytes.len() <= u64::MAX,
        pats.align > 0,
    ensures
        ({
            let va = (lo + i) as u64;
            let all = entries_from(bytes, lo, pats, d, i);
            &&& !any_stands(bytes, i, pats.prologues@) ==> all == entries_from(bytes, lo, pats, d, i + 1)
            &&& any_stands(bytes, i, pats.prologues@) && va % pats.align == 0 && !inside(d, va) ==> all == entries_from(
                bytes,
                lo,
                pats,
                d,
                i + 8,
            ).insert(va)
            &&& any_stands(bytes, i, pats.prologues@) && va % pats.align == 0 && any_stands(bytes, i, pats.markers@)
                ==> all.contains(va)
            &&& any_stands(bytes, i, pats.prologues@) && va % pats.align != 0 ==> all == entries_from(
                bytes,
                lo,
                pats,
                d,
                i + 8,
            )
            &&& any_stands(bytes, i, pats.prologues@) && inside(d, va) && !any_stands(bytes, i, pats.markers@) ==> all
                == entries_from(bytes, lo, pats, d, i + 8)
        }),
{
}

/// A function is called by the symbol on its entry, as that is shown, and by its address
/// in upper-case digits where it has none; a stated size says where it ends.
pub proof fn functions_are_called_by_symbol_or_address(ctx: Ctx, f: DiscoverFacts, va: u64, stated_end: Option<Va>)
    ensures
        ({
            let c = candidate(ctx, f, va, stated_end);
            &&& c.va.0 == va
            &&& entry_symbol(ctx.symbols, Va(va), f.view.at(va)) is None ==> c.name == "sub_"@ + spell(va as nat, 16, true)
            &&& entry_symbol(ctx.symbols, Va(va), f.view.at(va)) matches Some(s) ==> (f.rendered.map().contains_key(s.name@)
                ==> c.name == f.rendered.map()[s.name@]@) && (!f.rendered.map().contains_key(s.name@) ==> c.name == s.name@)
            &&& ctx.symbols is None ==> c.end == stated_end
            &&& ctx.symbols matches Some(t) ==> (t.size(Va(va)) matches Some(n) ==> (va + n <= u64::MAX ==> (c.end matches
                Some(x) && x.0 == va + n))) && (t.size(Va(va)) is None ==> c.end == stated_end)
        }),
{
}

/// A page starts behind the functions that are passed over and holds as many as asked
/// for; no limit means all that are left.
pub proof fn pages_start_at_their_offset(input: DiscoverInput, n: nat)
    ensures
        input.offset <= n ==> page_start(input, n) == input.offset,
        input.offset > n ==> page_start(input, n) == n,
        input.limit == 0 ==> page_end(input, n) == n,
        input.limit > 0 && input.offset + input.limit <= n ==> page_end(input, n) == input.offset + input.limit,
        input.offset + input.limit > n ==> page_end(input, n) == n,
{
}

/// The functions in a window are those that the image declares, those that code leads to
/// and those that patterns show; a declared one keeps its end, and the others state none.
pub proof fn functions_are_declared_led_to_or_scanned(ctx: Ctx, f: DiscoverFacts, bytes: Seq<u8>, w: Window, va: u64)
    ensures
        ({
            let first = declared_in(stated(ctx), stated(ctx).len() as int, w);
            let all = functions_in(ctx, f, bytes, w);
            &&& first.contains_key(va) ==> all.contains_key(va) && all[va] == first[va]
            &&& led_to(bytes, w, f.view, extents(ctx), va) ==> all.contains_key(va)
            &&& entries_from(bytes, w.lo, f.patterns, extents(ctx), 0).contains(va) ==> all.contains_key(va)
            &&& all.contains_key(va) && !first.contains_key(va) ==> all[va] is None
            &&& all.contains_key(va) && !first.contains_key(va) && !led_to(bytes, w, f.view, extents(ctx), va)
                ==> entries_from(bytes, w.lo, f.patterns, extents(ctx), 0).contains(va)
        }),
{
}

/// What is called in the window is a function, unless it lies inside a declared one.
pub proof fn called_addresses_are_led_to(bytes: Seq<u8>, w: Window, view: CodeView, d: Seq<Extent>, i: int, va: u64)
    requires
        0 <= i < view.sweep@.len(),
        view.sweep@[i].kind == InsnKind::Call,
        view.sweep@[i].target == Some(Va(va)),
    ensures
        w.lo <= va < w.hi && !inside(d, va) ==> led_to(bytes, w, view, d, va),
        inside(d, va) ==> !led_to(bytes, w, view, d, va),
        !(w.lo <= va < w.hi) ==> !led_to(bytes, w, view, d, va),
{
    assert(is_called(view.sweep@, va));
}

/// An address is inside a declared function where it lies behind the start and before the
/// end of one and starts none.
pub proof fn addresses_between_start_and_end_are_inside(d: Seq<Extent>, i: int, va: u64)
    requires
        0 <= i < d.len(),
    ensures
        d[i].start == va ==> !inside(d, va),
        d[i].start < va < d[i].end && (forall|j: int| 0 <= j < d.len() ==> (#[trigger] d[j]).start != va) ==> inside(d, va),
        (forall|j: int| 0 <= j < d.len() ==> !((#[trigger] d[j]).start < va < d[j].end)) ==> !inside(d, va),
{
}

/// What follows a declared function, behind fill and padding, is a function.
pub proof fn code_behind_a_function_is_led_to(bytes: Seq<u8>, w: Window, view: CodeView, d: Seq<Extent>, i: int, va: u64)
    requires
        0 <= i < d.len(),
        first_code(bytes, w, view, d[i].end) == Some(va),
        w.lo <= va < w.hi,
        !inside(d, va),
    ensures
        led_to(bytes, w, view, d, va),
{
    assert(follows(bytes, w, view, d, va));
}

/// The exception table is read from where the header says, and as far as it says.
pub proof fn exception_tables_are_read_where_stated(src: Snapshot, base: Va, hdr: Seq<u8>, rva: u32, size: u32, t: Seq<u8>)
    requires
        src.read_of(base.0, 0x400) == Some(hdr),
        exception_table(hdr) == Ok::<(u32, u32), Seq<char>>((rva, size)),
        base.0 + rva <= u64::MAX,
        size <= 12000,
        MAX_EXCEPTION_TABLE >= 12000,
        src.read_of((base.0 + rva) as u64, size as nat) == Some(t),
    ensures
        pdata_functions(src, base) == Ok::<Seq<CandidateNode>, CoreFault>(runtime_from(base, t, 0)),
{
}

} // verus!
