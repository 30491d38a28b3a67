//! Exception edges: the control flow that an unwinder takes, which no
//! instruction of the function encodes.
//!
//! A landing pad is entered by the personality routine and never by a branch.
//! The tables that say so are read here: DWARF call-frame information with its
//! language-specific data, and the unwind information of PE images. Only
//! *where* control can go is recovered, not what is caught. Whatever cannot be
//! parsed gives no region, never a guessed one.

use std::collections::{BTreeSet, HashMap};
use vstd::arithmetic::power::pow;
use vstd::prelude::*;

use crate::bytes::{le, le16, le32, le64, zero_from};
use crate::order::{
    in_order, lemma_stable_map, sort_stable, sorting_permutes, stable, Ranked, Sortable,
};
use crate::source::{lemma_read_len, sat_add, Snapshot};
use crate::va::{wrap_add, Va};

verus! {

broadcast use {
    vstd::laws_cmp::group_laws_cmp,
    vstd::set::group_set_axioms,
    vstd::std_specs::btree::group_btree_axioms,
    vstd::std_specs::hash::group_hash_axioms,
};

/// A protected range and the landing pad that it unwinds to.
#[derive(Clone, Copy, Debug, PartialEq, Eq, Structural)]
pub struct EhRegion {
    pub try_start: Va,
    /// Exclusive end of the protected range.
    pub try_end: Va,
    pub landing_pad: Va,
}

/// The exception information of one function.
#[derive(Clone, Debug, PartialEq, Eq)]
pub struct EhFunction {
    pub start: Va,
    /// Exclusive end.
    pub end: Va,
    pub regions: Vec<EhRegion>,
}

/// The exception information of one function, by its contents.
pub ghost struct EhNode {
    pub start: Va,
    pub end: Va,
    pub regions: Seq<EhRegion>,
}

pub open spec fn eh_node(f: EhFunction) -> EhNode {
    EhNode { start: f.start, end: f.end, regions: f.regions@ }
}

pub open spec fn eh_nodes(s: Seq<EhFunction>) -> Seq<EhNode> {
    s.map_values(|f: EhFunction| eh_node(f))
}

/// The encoding of a pointer that is absent.
pub const DW_EH_PE_OMIT: u8 = 0xff;

/// The largest table that is read in one go.
pub const MAX_EH_FRAME: u64 = 0x400_0000;

/// How many records are walked at most.
pub const MAX_RECORDS: usize = 2_000_000;

/// How many call sites of one function are walked at most.
pub const MAX_CALLSITES: usize = 100_000;

/// How many bytes of language-specific data are read for one function.
pub const LSDA_WINDOW: usize = 0x1_0000;

// ---------------------------------------------------------------------------
// The cursor
// ---------------------------------------------------------------------------

/// A little-endian cursor over bytes. Every read past the end gives `None`.
pub struct Cur<'a> {
    pub b: &'a [u8],
    pub p: usize,
}

/// The value that was read and the position after it.
pub type ReadOf<T> = Option<(T, int)>;

/// The byte at `p`.
pub open spec fn byte_at(b: Seq<u8>, p: int) -> Option<(u8, int)> {
    if 0 <= p < b.len() {
        Some((b[p], p + 1))
    } else {
        None
    }
}

/// The number of `n` bytes at `p`.
pub open spec fn fixed_at(b: Seq<u8>, p: int, n: nat) -> Option<(u64, int)> {
    if 0 <= p && p + n <= b.len() {
        Some((le(b, p, n) as u64, p + n))
    } else {
        None
    }
}

/// How many bytes the variable-length number at `p` has, from its `k`-th on:
/// up to the first without the continuation bit, and no more than eleven.
pub open spec fn leb_len(b: Seq<u8>, p: int, k: nat) -> Option<nat>
    decreases 11 - k,
{
    if k >= 11 || p < 0 || p + k >= b.len() {
        None
    } else if b[p + k] < 0x80 {
        Some(k + 1)
    } else {
        leb_len(b, p, k + 1)
    }
}

/// The number that the low seven bits of `n` bytes at `p` spell.
pub open spec fn leb_sum(b: Seq<u8>, p: int, n: nat) -> nat
    decreases n,
{
    if n == 0 {
        0
    } else {
        leb_sum(b, p, (n - 1) as nat) + (b[p + n - 1] % 128) as nat * pow(128, (n - 1) as nat) as nat
    }
}

/// Two to the power 64.
pub open spec fn two64() -> int {
    0x1_0000_0000_0000_0000
}

/// The unsigned variable-length number at `p`, cut to 64 bits.
pub open spec fn uleb_at(b: Seq<u8>, p: int) -> Option<(u64, int)> {
    match leb_len(b, p, 0) {
        Some(n) => Some(((leb_sum(b, p, n) % two64() as nat) as u64, p + n)),
        None => None,
    }
}

/// The signed variable-length number at `p`, as the 64 bits that hold it. The
/// sign is the second bit of the last byte, for numbers of up to nine bytes.
pub open spec fn sleb_at(b: Seq<u8>, p: int) -> Option<(u64, int)> {
    match leb_len(b, p, 0) {
        Some(n) => if n <= 9 && b[p + n - 1] % 128 >= 64 {
            Some(((leb_sum(b, p, n) + two64() - pow(128, n)) as u64, p + n))
        } else {
            Some(((leb_sum(b, p, n) % two64() as nat) as u64, p + n))
        },
        None => None,
    }
}

/// A number of `bits` bits widened to 64 with its sign.
pub open spec fn widen(v: u64, half: u64) -> u64 {
    if v >= half {
        (v + two64() - 2 * half) as u64
    } else {
        v
    }
}

/// The value of a pointer in the format of `enc`, before its base is applied.
pub open spec fn format_at(b: Seq<u8>, p: int, enc: u8) -> Option<(u64, int)> {
    match enc % 16 {
        0x00 => fixed_at(b, p, 8),
        0x01 => uleb_at(b, p),
        0x02 => fixed_at(b, p, 2),
        0x03 => fixed_at(b, p, 4),
        0x04 => fixed_at(b, p, 8),
        0x09 => sleb_at(b, p),
        0x0a => match fixed_at(b, p, 2) {
            Some((v, q)) => Some((widen(v, 0x8000), q)),
            None => None,
        },
        0x0b => match fixed_at(b, p, 4) {
            Some((v, q)) => Some((widen(v, 0x8000_0000), q)),
            None => None,
        },
        0x0c => fixed_at(b, p, 8),
        _ => None,
    }
}

/// A DWARF-encoded pointer read at `p`. `here` is the address of the field, to
/// which a relative pointer is relative. An absolute and a relative pointer are
/// modelled; any other application, and a pointer to the address in place of the
/// address, is refused. The position is where the read stops, even where the
/// pointer is refused.
pub open spec fn encoded_at(b: Seq<u8>, p: int, enc: u8, here: u64) -> (Option<u64>, int) {
    if enc == DW_EH_PE_OMIT {
        (None, p)
    } else {
        match format_at(b, p, enc) {
            Some((raw, q)) => if enc / 16 == 0 {
                (Some(raw), q)
            } else if enc / 16 == 1 {
                (Some(wrap_add(here, raw)), q)
            } else {
                (None, q)
            },
            None => (None, stop_at(b, p, enc)),
        }
    }
}

/// Where a failed read leaves the cursor: a variable-length number consumes the
/// bytes that it could read.
pub open spec fn stop_at(b: Seq<u8>, p: int, enc: u8) -> int {
    if enc % 16 == 0x01 || enc % 16 == 0x09 {
        leb_stop(b, p, 0)
    } else {
        p
    }
}

/// Where an endless or truncated variable-length number is given up.
pub open spec fn leb_stop(b: Seq<u8>, p: int, k: nat) -> int
    decreases 11 - k,
{
    if k >= 11 || p < 0 || p + k >= b.len() {
        p + k
    } else {
        leb_stop(b, p, k + 1)
    }
}

proof fn lemma_pow128(k: nat)
    requires
        k <= 11,
    ensures
        pow(128, k) >= 1,
        pow(128, k) <= 0x2000_0000_0000_0000_0000,
        k <= 9 ==> pow(128, k) <= 0x8000_0000_0000_0000,
        k > 0 ==> pow(128, k) == 128 * pow(128, (k - 1) as nat),
{
    reveal(pow);
    reveal_with_fuel(pow, 12);
}

proof fn lemma_leb_sum_bound(b: Seq<u8>, p: int, n: nat)
    ensures
        leb_sum(b, p, n) < pow(128, n),
    decreases n,
{
    reveal(pow);
    if n > 0 {
        lemma_leb_sum_bound(b, p, (n - 1) as nat);
        let q = pow(128, (n - 1) as nat);
        let d = (b[p + n - 1] % 128) as int;
        assert(d * q <= 127 * q) by (nonlinear_arith)
            requires
                0 <= d <= 127,
                q >= 0,
        ;
        vstd::arithmetic::power::lemma_pow_positive(128, (n - 1) as nat);
        assert((b[p + n - 1] % 128) as nat * q as nat == d * q);
    }
}

/// The shortest encoding of a number: seven bits to a byte, the lowest first, each
/// byte but the last with the continuation bit.
pub open spec fn uleb_bytes(v: nat) -> Seq<u8>
    decreases v,
{
    if v < 128 {
        seq![v as u8]
    } else {
        seq![(v % 128 + 128) as u8] + uleb_bytes(v / 128)
    }
}

/// Reading gives back the number whose shortest encoding stands there, and goes on
/// behind it.
pub proof fn uleb_reads_back(b: Seq<u8>, p: int, v: u64)
    requires
        0 <= p,
        p + uleb_bytes(v as nat).len() <= b.len(),
        b.subrange(p, p + uleb_bytes(v as nat).len()) == uleb_bytes(v as nat),
    ensures
        uleb_at(b, p) == Some((v, p + uleb_bytes(v as nat).len())),
{
    assert(pow(128, 10) == 0x40_0000_0000_0000_0000) by {
        reveal(pow);
        reveal_with_fuel(pow, 12);
    }
    lemma_uleb_shape(v as nat, 10);
    let e = uleb_bytes(v as nat);
    assert forall|i: int| 0 <= i < e.len() implies b[p + i] == #[trigger] e[i] by {
        assert(b.subrange(p, p + e.len())[i] == e[i]);
    }
    lemma_uleb_len(b, p, e, 0);
    lemma_uleb_sum(b, p, v as nat);
    vstd::arithmetic::div_mod::lemma_small_mod(v as nat, two64() as nat);
}

proof fn lemma_uleb_shape(v: nat, k: nat)
    requires
        1 <= k <= 10,
        v < pow(128, k),
    ensures
        1 <= uleb_bytes(v).len() <= k,
        uleb_bytes(v).last() < 0x80,
        forall|i: int| 0 <= i < uleb_bytes(v).len() - 1 ==> #[trigger] uleb_bytes(v)[i] >= 0x80,
    decreases v,
{
    lemma_pow128(k);
    if v >= 128 {
        if k == 1 {
            lemma_pow128(0);
            reveal(pow);
            assert(pow(128, 0) == 1);
        } else {
            lemma_uleb_shape(v / 128, (k - 1) as nat);
            let rest = uleb_bytes(v / 128);
            let e = uleb_bytes(v);
            assert(e.last() == rest.last());
            assert forall|i: int| 0 <= i < e.len() - 1 implies #[trigger] e[i] >= 0x80 by {
                if i > 0 {
                    assert(e[i] == rest[i - 1]);
                }
            }
        }
    }
}

proof fn lemma_uleb_len(b: Seq<u8>, p: int, e: Seq<u8>, k: nat)
    requires
        0 <= p,
        k < e.len() <= 10,
        p + e.len() <= b.len(),
        forall|i: int| 0 <= i < e.len() ==> b[p + i] == #[trigger] e[i],
        e.last() < 0x80,
        forall|i: int| 0 <= i < e.len() - 1 ==> #[trigger] e[i] >= 0x80,
    ensures
        leb_len(b, p, k) == Some(e.len()),
    decreases e.len() - k,
{
    assert(b[p + k] == e[k as int]);
    if k + 1 < e.len() {
        lemma_uleb_len(b, p, e, k + 1);
    }
}

/// The first byte counts once, and the rest as the number that it spells itself.
proof fn lemma_leb_first(b: Seq<u8>, p: int, n: nat)
    requires
        n > 0,
    ensures
        leb_sum(b, p, n) == (b[p] % 128) as nat + 128 * leb_sum(b, p + 1, (n - 1) as nat),
    decreases n,
{
    reveal(pow);
    let d = (b[p + n - 1] % 128) as int;
    if n > 1 {
        lemma_leb_first(b, p, (n - 1) as nat);
        let q = pow(128, (n - 2) as nat);
        vstd::arithmetic::power::lemma_pow_positive(128, (n - 2) as nat);
        assert(pow(128, (n - 1) as nat) == 128 * q);
        assert(d * (128 * q) == 128 * (d * q)) by (nonlinear_arith);
        assert(d * (128 * q) >= 0) by (nonlinear_arith)
            requires
                d >= 0,
                q >= 0,
        ;
        assert(leb_sum(b, p + 1, (n - 1) as nat) == leb_sum(b, p + 1, (n - 2) as nat) + d * q);
        assert(leb_sum(b, p, n) == leb_sum(b, p, (n - 1) as nat) + d * (128 * q));
    } else {
        assert(pow(128, 0) == 1);
        assert(d * 1 == d);
        assert(leb_sum(b, p, 0) == 0);
        assert(leb_sum(b, p + 1, 0) == 0);
    }
}

proof fn lemma_uleb_sum(b: Seq<u8>, p: int, v: nat)
    requires
        forall|i: int| 0 <= i < uleb_bytes(v).len() ==> b[p + i] == #[trigger] uleb_bytes(v)[i],
    ensures
        leb_sum(b, p, uleb_bytes(v).len()) == v,
    decreases v,
{
    let e = uleb_bytes(v);
    assert(b[p + 0] == e[0]);
    lemma_leb_first(b, p, e.len());
    if v >= 128 {
        let rest = uleb_bytes(v / 128);
        assert forall|i: int| 0 <= i < rest.len() implies b[p + 1 + i] == #[trigger] rest[i] by {
            assert(e[i + 1] == rest[i]);
            assert(b[p + (i + 1)] == e[i + 1]);
        }
        lemma_uleb_sum(b, p + 1, v / 128);
    } else {
        assert(leb_sum(b, p + 1, 0) == 0);
    }
}

impl<'a> Cur<'a> {
    pub fn new(b: &'a [u8]) -> (r: Cur<'a>)
        ensures
            r.b@ == b@,
            r.p == 0,
    {
        Cur { b, p: 0 }
    }

    pub fn u8(&mut self) -> (r: Option<u8>)
        ensures
            final(self).b == old(self).b,
            match (r, byte_at(old(self).b@, old(self).p as int)) {
                (Some(v), Some((w, q))) => v == w && final(self).p == q,
                (None, None) => final(self).p == old(self).p,
                _ => false,
            },
    {
        if self.p >= self.b.len() {
            return None;
        }
        let v: u8 = self.b[self.p];
        self.p = self.p + 1;
        Some(v)
    }

    /// Are there `n` more bytes?
    fn has_more(&self, n: usize) -> (r: bool)
        ensures
            r == (self.p + n <= self.b@.len()),
            r ==> self.p + n <= usize::MAX,
    {
        n <= self.b.len() && self.p <= self.b.len() - n
    }

    /// The next `n` bytes.
    pub fn take(&mut self, n: usize) -> (r: Option<&'a [u8]>)
        ensures
            final(self).b == old(self).b,
            match r {
                Some(s) => old(self).p + n <= old(self).b@.len() && s@ == old(self).b@.subrange(
                    old(self).p as int,
                    old(self).p + n,
                ) && final(self).p == old(self).p + n,
                None => old(self).p + n > old(self).b@.len() && final(self).p == old(self).p,
            },
    {
        if !self.has_more(n) {
            return None;
        }
        let s = vstd::slice::slice_subrange(self.b, self.p, self.p + n);
        self.p = self.p + n;
        Some(s)
    }

    pub fn u16(&mut self) -> (r: Option<u64>)
        ensures
            final(self).b == old(self).b,
            match (r, fixed_at(old(self).b@, old(self).p as int, 2)) {
                (Some(v), Some((w, q))) => v == w && final(self).p == q,
                (None, None) => final(self).p == old(self).p,
                _ => false,
            },
    {
        if !self.has_more(2) {
            return None;
        }
        let v: u64 = le16(self.b, self.p) as u64;
        self.p = self.p + 2;
        Some(v)
    }

    pub fn u32(&mut self) -> (r: Option<u64>)
        ensures
            final(self).b == old(self).b,
            match (r, fixed_at(old(self).b@, old(self).p as int, 4)) {
                (Some(v), Some((w, q))) => v == w && final(self).p == q && v <= u32::MAX,
                (None, None) => final(self).p == old(self).p,
                _ => false,
            },
    {
        if !self.has_more(4) {
            return None;
        }
        let v: u64 = le32(self.b, self.p) as u64;
        self.p = self.p + 4;
        Some(v)
    }

    pub fn u64v(&mut self) -> (r: Option<u64>)
        ensures
            final(self).b == old(self).b,
            match (r, fixed_at(old(self).b@, old(self).p as int, 8)) {
                (Some(v), Some((w, q))) => v == w && final(self).p == q,
                (None, None) => final(self).p == old(self).p,
                _ => false,
            },
    {
        if !self.has_more(8) {
            return None;
        }
        let v: u64 = le64(self.b, self.p);
        self.p = self.p + 8;
        Some(v)
    }

    /// Reads a variable-length number: its low bits, its length and its last
    /// byte.
    fn leb(&mut self) -> (r: Option<(u128, usize, u8)>)
        ensures
            final(self).b == old(self).b,
            match (r, leb_len(old(self).b@, old(self).p as int, 0)) {
                (Some((v, k, last)), Some(n)) => k == n && 1 <= n <= 11 && v == leb_sum(
                    old(self).b@,
                    old(self).p as int,
                    n,
                ) && last == old(self).b@[old(self).p + n - 1] && final(self).p == old(self).p + n,
                (None, None) => final(self).p == leb_stop(old(self).b@, old(self).p as int, 0),
                _ => false,
            },
    {
        let ghost p0 = self.p as int;
        let ghost b0 = self.b@;
        let mut out: u128 = 0;
        let mut mult: u128 = 1;
        let mut k: usize = 0;
        proof {
            reveal(pow);
        }
        while k < 11
            invariant
                k <= 11,
                self.b == old(self).b,
                b0 == self.b@,
                p0 == old(self).p,
                self.p == p0 + k,
                out == leb_sum(b0, p0, k as nat),
                mult == pow(128, k as nat),
                leb_len(b0, p0, 0) == leb_len(b0, p0, k as nat),
                leb_stop(b0, p0, 0) == leb_stop(b0, p0, k as nat),
            decreases 11 - k,
        {
            let byte: u8 = match self.u8() {
                Some(v) => v,
                None => {
                    return None;
                },
            };
            proof {
                lemma_pow128(k as nat);
                lemma_pow128((k + 1) as nat);
                lemma_leb_sum_bound(b0, p0, k as nat);
                lemma_leb_sum_bound(b0, p0, (k + 1) as nat);
                let d = (byte % 128) as int;
                assert(d * mult <= 127 * mult) by (nonlinear_arith)
                    requires
                        0 <= d <= 127,
                        mult >= 0,
                ;
            }
            out = out + (byte % 128) as u128 * mult;
            mult = mult * 128;
            k = k + 1;
            if byte < 0x80 {
                return Some((out, k, byte));
            }
        }
        None
    }

    pub fn uleb(&mut self) -> (r: Option<u64>)
        ensures
            final(self).b == old(self).b,
            match (r, uleb_at(old(self).b@, old(self).p as int)) {
                (Some(v), Some((w, q))) => v == w && final(self).p == q,
                (None, None) => final(self).p == leb_stop(old(self).b@, old(self).p as int, 0),
                _ => false,
            },
    {
        match self.leb() {
            Some((v, _, _)) => Some((v % 0x1_0000_0000_0000_0000) as u64),
            None => None,
        }
    }

    /// The signed number, as the 64 bits that hold it.
    pub fn sleb(&mut self) -> (r: Option<u64>)
        ensures
            final(self).b == old(self).b,
            match (r, sleb_at(old(self).b@, old(self).p as int)) {
                (Some(v), Some((w, q))) => v == w && final(self).p == q,
                (None, None) => final(self).p == leb_stop(old(self).b@, old(self).p as int, 0),
                _ => false,
            },
    {
        match self.leb() {
            Some((v, n, last)) => {
                proof {
                    lemma_leb_sum_bound(old(self).b@, old(self).p as int, n as nat);
                    lemma_pow128(n as nat);
                }
                if n <= 9 && last % 128 >= 64 {
                    let top: u128 = pow128(n);
                    Some((v + 0x1_0000_0000_0000_0000 - top) as u64)
                } else {
                    Some((v % 0x1_0000_0000_0000_0000) as u64)
                }
            },
            None => None,
        }
    }

    /// Reads a DWARF-encoded pointer. `here` is the address of the field. An
    /// application that is not modelled gives nothing, rather than a plausible
    /// wrong address.
    pub fn encoded(&mut self, enc: u8, here: u64) -> (r: Option<u64>)
        ensures
            final(self).b == old(self).b,
            r == encoded_at(old(self).b@, old(self).p as int, enc, here).0,
            final(self).p == encoded_at(old(self).b@, old(self).p as int, enc, here).1,
    {
        if enc == DW_EH_PE_OMIT {
            return None;
        }
        let read: Option<u64> = match enc % 16 {
            0x00 => self.u64v(),
            0x01 => self.uleb(),
            0x02 => self.u16(),
            0x03 => self.u32(),
            0x04 => self.u64v(),
            0x09 => self.sleb(),
            0x0a => match self.u16() {
                Some(v) => {
                    proof {
                        crate::bytes::lemma_le_bound(old(self).b@, old(self).p as int, 2);
                        reveal_with_fuel(pow, 3);
                    }
                    Some(
                        if v >= 0x8000 {
                            v + 0xffff_ffff_ffff_0000
                        } else {
                            v
                        },
                    )
                },
                None => None,
            },
            0x0b => match self.u32() {
                Some(v) => Some(
                    if v >= 0x8000_0000 {
                        v + 0xffff_ffff_0000_0000
                    } else {
                        v
                    },
                ),
                None => None,
            },
            0x0c => self.u64v(),
            _ => None,
        };
        match read {
            Some(raw) => if enc / 16 == 0 {
                Some(raw)
            } else if enc / 16 == 1 {
                Some(here.wrapping_add(raw))
            } else {
                None
            },
            None => None,
        }
    }
}

/// 128 to the power `n`.
fn pow128(n: usize) -> (r: u128)
    requires
        n <= 9,
    ensures
        r == pow(128, n as nat),
{
    proof {
        reveal(pow);
    }
    let mut r: u128 = 1;
    let mut k: usize = 0;
    while k < n
        invariant
            k <= n <= 9,
            r == pow(128, k as nat),
        decreases n - k,
    {
        proof {
            lemma_pow128(k as nat);
            lemma_pow128((k + 1) as nat);
        }
        r = r * 128;
        k = k + 1;
    }
    r
}

// ---------------------------------------------------------------------------
// Call-frame information
// ---------------------------------------------------------------------------

/// What a common record tells the records that refer to it: how their pointers
/// are encoded.
#[derive(Clone, Copy, Debug, PartialEq, Eq, Structural)]
pub struct Cie {
    pub fde_enc: u8,
    pub lsda_enc: u8,
    pub has_z: bool,
}

/// Reads the augmentation data that the letters from the `k`-th on announce.
pub open spec fn aug_from(b: Seq<u8>, aug: Seq<u8>, k: int, p: int, fde: u8, lsda: u8) -> Option<(u8, u8)>
    decreases aug.len() - k,
{
    if k >= aug.len() {
        Some((fde, lsda))
    } else if aug[k] == 0x52 {
        match byte_at(b, p) {
            Some((v, q)) => aug_from(b, aug, k + 1, q, v, lsda),
            None => None,
        }
    } else if aug[k] == 0x4c {
        match byte_at(b, p) {
            Some((v, q)) => aug_from(b, aug, k + 1, q, fde, v),
            None => None,
        }
    } else if aug[k] == 0x50 {
        match byte_at(b, p) {
            Some((enc, q)) => match encoded_at(b, q, enc % 128, 0) {
                (Some(_), r) => aug_from(b, aug, k + 1, r, fde, lsda),
                (None, _) => None,
            },
            None => None,
        }
    } else {
        aug_from(b, aug, k + 1, p, fde, lsda)
    }
}

/// The rest of a common record, from its alignment factors on.
pub open spec fn cie_tail(b: Seq<u8>, version: u8, aug: Seq<u8>, p: int) -> Option<Cie> {
    match uleb_at(b, p) {
        None => None,
        Some((_, p1)) => match sleb_at(b, p1) {
            None => None,
            Some((_, p2)) => {
                let reg = if version == 1 {
                    match byte_at(b, p2) {
                        Some((_, q)) => Some(q),
                        None => None,
                    }
                } else {
                    match uleb_at(b, p2) {
                        Some((_, q)) => Some(q),
                        None => None,
                    }
                };
                match reg {
                    None => None,
                    Some(p3) => if aug.len() > 0 && aug[0] == 0x7a {
                        match uleb_at(b, p3) {
                            None => None,
                            Some((n, p4)) => match aug_from(b, aug, 1, p4, 0, DW_EH_PE_OMIT) {
                                None => None,
                                Some((fde, lsda)) => if p4 + n <= b.len() {
                                    Some(Cie { fde_enc: fde, lsda_enc: lsda, has_z: true })
                                } else {
                                    None
                                },
                            },
                        }
                    } else {
                        Some(Cie { fde_enc: 0, lsda_enc: DW_EH_PE_OMIT, has_z: false })
                    },
                }
            },
        },
    }
}

/// The common record that `b` holds: a zero number, a version, the augmentation
/// letters, the alignment factors and the augmentation data.
pub open spec fn cie_of(b: Seq<u8>) -> Option<Cie> {
    if b.len() < 5 || le(b, 0, 4) != 0 || !(b[4] == 1 || b[4] == 3 || b[4] == 4) {
        None
    } else {
        match zero_from(b, 5) {
            None => None,
            Some(z) => {
                let p = if b[4] == 4 {
                    z + 3
                } else {
                    z + 1
                };
                if p > b.len() {
                    None
                } else {
                    cie_tail(b, b[4], b.subrange(5, z), p)
                }
            },
        }
    }
}

fn read_aug(c: &mut Cur, aug: &[u8]) -> (r: Option<(u8, u8)>)
    ensures
        r == aug_from(old(c).b@, aug@, 1, old(c).p as int, 0, DW_EH_PE_OMIT),
        final(c).b == old(c).b,
{
    let mut fde: u8 = 0;
    let mut lsda: u8 = DW_EH_PE_OMIT;
    let mut k: usize = 1;
    while k < aug.len()
        invariant
            1 <= k,
            c.b == old(c).b,
            aug_from(old(c).b@, aug@, 1, old(c).p as int, 0, DW_EH_PE_OMIT) == aug_from(
                c.b@,
                aug@,
                k as int,
                c.p as int,
                fde,
                lsda,
            ),
        decreases aug@.len() - k,
    {
        let ch: u8 = aug[k];
        if ch == 0x52 {
            match c.u8() {
                Some(v) => {
                    fde = v;
                },
                None => {
                    return None;
                },
            }
        } else if ch == 0x4c {
            match c.u8() {
                Some(v) => {
                    lsda = v;
                },
                None => {
                    return None;
                },
            }
        } else if ch == 0x50 {
            match c.u8() {
                Some(enc) => {
                    // The pointer itself does not matter, nor whether it is one to
                    // the address, but it has to be consumed for the fields after
                    // it to be read right.
                    if c.encoded(enc % 128, 0).is_none() {
                        return None;
                    }
                },
                None => {
                    return None;
                },
            }
        }
        k = k + 1;
    }
    Some((fde, lsda))
}

/// Parses a common record. Only what its referrers need is kept.
pub fn parse_cie(content: &[u8]) -> (r: Option<Cie>)
    ensures
        r == cie_of(content@),
{
    if content.len() < 5 || le32(content, 0) != 0 {
        return None;
    }
    let version: u8 = content[4];
    if version != 1 && version != 3 && version != 4 {
        return None;
    }
    let mut z: usize = 5;
    while z < content.len() && content[z] != 0
        invariant
            5 <= z <= content@.len(),
            zero_from(content@, 5) == zero_from(content@, z as int),
        decreases content@.len() - z,
    {
        z = z + 1;
    }
    if z >= content.len() {
        return None;
    }
    let aug = vstd::slice::slice_subrange(content, 5, z);
    let skip: usize = if version == 4 {
        3
    } else {
        1
    };
    if content.len() - z < skip {
        return None;
    }
    let mut c = Cur { b: content, p: z + skip };
    if c.uleb().is_none() {
        return None;
    }
    if c.sleb().is_none() {
        return None;
    }
    if version == 1 {
        if c.u8().is_none() {
            return None;
        }
    } else {
        if c.uleb().is_none() {
            return None;
        }
    }
    if aug.len() > 0 && aug[0] == 0x7a {
        let n: u64 = match c.uleb() {
            Some(n) => n,
            None => {
                return None;
            },
        };
        let at: usize = c.p;
        let found = read_aug(&mut c, aug);
        match found {
            Some((fde_enc, lsda_enc)) => {
                if at > content.len() || n > (content.len() - at) as u64 {
                    return None;
                }
                Some(Cie { fde_enc, lsda_enc, has_z: true })
            },
            None => None,
        }
    } else {
        Some(Cie { fde_enc: 0, lsda_enc: DW_EH_PE_OMIT, has_z: false })
    }
}

// ---------------------------------------------------------------------------
// Language-specific data
// ---------------------------------------------------------------------------

/// The regions that the call sites from `p` up to `end` describe, with at most
/// `left` more of them. An entry without a landing pad is no edge.
pub open spec fn sites_from(
    b: Seq<u8>,
    addr: u64,
    func: u64,
    lp_start: u64,
    enc: u8,
    end: int,
    p: int,
    left: nat,
) -> Seq<EhRegion>
    decreases left,
{
    if p >= end || left == 0 {
        Seq::empty()
    } else {
        match encoded_at(b, p, enc, (addr + p) as u64) {
            (None, _) => Seq::empty(),
            (Some(start), p1) => match encoded_at(b, p1, enc, (addr + p1) as u64) {
                (None, _) => Seq::empty(),
                (Some(range), p2) => match encoded_at(b, p2, enc, (addr + p2) as u64) {
                    (None, _) => Seq::empty(),
                    (Some(pad), p3) => match uleb_at(b, p3) {
                        None => Seq::empty(),
                        Some((_, p4)) => {
                            let rest = sites_from(b, addr, func, lp_start, enc, end, p4, (left - 1) as nat);
                            if pad == 0 {
                                rest
                            } else if func + start + range > u64::MAX || lp_start + pad > u64::MAX {
                                Seq::empty()
                            } else {
                                seq![
                                    EhRegion {
                                        try_start: Va((func + start) as u64),
                                        try_end: Va((func + start + range) as u64),
                                        landing_pad: Va((lp_start + pad) as u64),
                                    },
                                ] + rest
                            }
                        },
                    },
                },
            },
        }
    }
}

/// The regions that the call-site table at `p` describes.
pub open spec fn table_at(b: Seq<u8>, addr: u64, func: u64, lp_start: u64, p: int) -> Seq<EhRegion> {
    match byte_at(b, p) {
        None => Seq::empty(),
        Some((ttype, p1)) => {
            let after_types = if ttype == DW_EH_PE_OMIT {
                Some(p1)
            } else {
                match uleb_at(b, p1) {
                    Some((_, q)) => Some(q),
                    None => None,
                }
            };
            match after_types {
                None => Seq::empty(),
                Some(p2) => match byte_at(b, p2) {
                    None => Seq::empty(),
                    Some((enc, p3)) => match uleb_at(b, p3) {
                        None => Seq::empty(),
                        Some((n, p4)) => if p4 + n > b.len() {
                            Seq::empty()
                        } else {
                            sites_from(b, addr, func, lp_start, enc, p4 + n, p4, MAX_CALLSITES as nat)
                        },
                    },
                },
            }
        },
    }
}

/// The regions that the language-specific data `b` at `addr` describes for the
/// function at `func`.
pub open spec fn lsda_of(b: Seq<u8>, addr: u64, func: u64) -> Seq<EhRegion> {
    match byte_at(b, 0) {
        None => Seq::empty(),
        Some((lp_enc, p)) => if lp_enc == DW_EH_PE_OMIT {
            table_at(b, addr, func, func, p)
        } else {
            match encoded_at(b, p, lp_enc, (addr + p) as u64) {
                (None, _) => Seq::empty(),
                (Some(lp_start), q) => table_at(b, addr, func, lp_start, q),
            }
        },
    }
}

/// What memory says at `addr` about the function at `func`.
pub open spec fn lsda_at(src: Snapshot, addr: u64, func: u64) -> Seq<EhRegion> {
    match src.read_of(addr, LSDA_WINDOW as nat) {
        Some(b) => lsda_of(b, addr, func),
        None => Seq::empty(),
    }
}

/// Reading moves forward and stays inside the bytes.
pub open spec fn inside(b: Seq<u8>, p: int) -> bool {
    0 <= p <= b.len()
}

proof fn lemma_leb_inside(b: Seq<u8>, p: int, k: nat)
    requires
        0 <= p,
        p + k <= b.len(),
        k <= 11,
    ensures
        leb_len(b, p, k) matches Some(n) ==> p + n <= b.len() && n > k,
        p + k <= leb_stop(b, p, k) <= b.len(),
    decreases 11 - k,
{
    if k < 11 && p + k < b.len() {
        lemma_leb_inside(b, p, k + 1);
    }
}

proof fn lemma_encoded_inside(b: Seq<u8>, p: int, enc: u8, here: u64)
    requires
        inside(b, p),
    ensures
        p <= encoded_at(b, p, enc, here).1 <= b.len(),
{
    lemma_leb_inside(b, p, 0);
}

proof fn lemma_uleb_inside(b: Seq<u8>, p: int)
    requires
        inside(b, p),
    ensures
        uleb_at(b, p) matches Some((_, q)) ==> p < q <= b.len(),
{
    lemma_leb_inside(b, p, 0);
}

fn parse_sites(
    b: &[u8],
    addr: u64,
    func: u64,
    lp_start: u64,
    enc: u8,
    end: usize,
    at: usize,
) -> (out: Vec<EhRegion>)
    requires
        at <= end <= b@.len(),
        addr + b@.len() <= u64::MAX,
    ensures
        out@ == sites_from(b@, addr, func, lp_start, enc, end as int, at as int, MAX_CALLSITES as nat),
{
    let mut out: Vec<EhRegion> = Vec::new();
    let ghost all = sites_from(b@, addr, func, lp_start, enc, end as int, at as int, MAX_CALLSITES as nat);
    let mut c = Cur { b, p: at };
    let mut left: usize = MAX_CALLSITES;
    proof {
        assert(out@ + all =~= all);
        assert(Seq::<EhRegion>::empty() + Seq::<EhRegion>::empty() =~= Seq::<EhRegion>::empty());
    }
    while c.p < end && left > 0
        invariant
            c.b@ == b@,
            c.p <= b@.len(),
            end <= b@.len(),
            addr + b@.len() <= u64::MAX,
            all == sites_from(b@, addr, func, lp_start, enc, end as int, at as int, MAX_CALLSITES as nat),
            out@ + sites_from(b@, addr, func, lp_start, enc, end as int, c.p as int, left as nat) == all,
        decreases left,
    {
        let ghost rest = sites_from(b@, addr, func, lp_start, enc, end as int, c.p as int, left as nat);
        proof {
            lemma_encoded_inside(b@, c.p as int, enc, (addr + c.p) as u64);
            assert(out@ + Seq::<EhRegion>::empty() =~= out@);
        }
        let start: u64 = match c.encoded(enc, addr + c.p as u64) {
            Some(v) => v,
            None => {
                return out;
            },
        };
        proof {
            lemma_encoded_inside(b@, c.p as int, enc, (addr + c.p) as u64);
        }
        let range: u64 = match c.encoded(enc, addr + c.p as u64) {
            Some(v) => v,
            None => {
                return out;
            },
        };
        proof {
            lemma_encoded_inside(b@, c.p as int, enc, (addr + c.p) as u64);
        }
        let pad: u64 = match c.encoded(enc, addr + c.p as u64) {
            Some(v) => v,
            None => {
                return out;
            },
        };
        proof {
            lemma_uleb_inside(b@, c.p as int);
        }
        if c.uleb().is_none() {
            return out;
        }
        left = left - 1;
        if pad != 0 {
            let try_start: u64 = match func.checked_add(start) {
                Some(v) => v,
                None => {
                    return out;
                },
            };
            let try_end: u64 = match try_start.checked_add(range) {
                Some(v) => v,
                None => {
                    return out;
                },
            };
            let landing_pad: u64 = match lp_start.checked_add(pad) {
                Some(v) => v,
                None => {
                    return out;
                },
            };
            let ghost out0 = out@;
            let region = EhRegion {
                try_start: Va(try_start),
                try_end: Va(try_end),
                landing_pad: Va(landing_pad),
            };
            out.push(region);
            proof {
                let tail = sites_from(b@, addr, func, lp_start, enc, end as int, c.p as int, left as nat);
                assert(rest == seq![region] + tail);
                assert(out@ + tail =~= out0 + rest);
            }
        }
    }
    assert(out@ + Seq::<EhRegion>::empty() =~= out@);
    out
}

fn parse_lsda(src: &Snapshot, addr: u64, func: u64) -> (out: Vec<EhRegion>)
    requires
        src.wf(),
    ensures
        out@ == lsda_at(*src, addr, func),
{
    let buf = match src.read(Va(addr), LSDA_WINDOW) {
        Ok(b) => b,
        Err(_) => {
            return Vec::new();
        },
    };
    proof {
        lemma_read_len(src, addr, LSDA_WINDOW as nat);
    }
    let b = buf.as_slice();
    let mut c = Cur::new(b);
    let lp_enc: u8 = match c.u8() {
        Some(v) => v,
        None => {
            return Vec::new();
        },
    };
    let lp_start: u64 = if lp_enc == DW_EH_PE_OMIT {
        func
    } else {
        proof {
            lemma_encoded_inside(b@, c.p as int, lp_enc, (addr + c.p) as u64);
        }
        match c.encoded(lp_enc, addr + c.p as u64) {
            Some(v) => v,
            None => {
                return Vec::new();
            },
        }
    };
    let ttype: u8 = match c.u8() {
        Some(v) => v,
        None => {
            return Vec::new();
        },
    };
    proof {
        lemma_uleb_inside(b@, c.p as int);
    }
    if ttype != DW_EH_PE_OMIT && c.uleb().is_none() {
        return Vec::new();
    }
    let enc: u8 = match c.u8() {
        Some(v) => v,
        None => {
            return Vec::new();
        },
    };
    proof {
        lemma_uleb_inside(b@, c.p as int);
    }
    let n: u64 = match c.uleb() {
        Some(v) => v,
        None => {
            return Vec::new();
        },
    };
    if n > (b.len() - c.p) as u64 {
        return Vec::new();
    }
    parse_sites(b, addr, func, lp_start, enc, c.p + n as usize, c.p)
}

// ---------------------------------------------------------------------------
// The frame section
// ---------------------------------------------------------------------------

/// Where the frame record says that its language-specific data lies.
pub open spec fn lsda_field(content: Seq<u8>, p: int, at: int, cie: Cie) -> Option<u64> {
    if !cie.has_z {
        None
    } else {
        match uleb_at(content, p) {
            Some((_, q)) => if cie.lsda_enc == DW_EH_PE_OMIT {
                None
            } else {
                encoded_at(content, q, cie.lsda_enc, (at + q) as u64).0
            },
            None => None,
        }
    }
}

/// The function that a frame record at address `at` describes. The length is
/// read in the format of the encoding and is relative to nothing.
pub open spec fn fde_of(src: Snapshot, content: Seq<u8>, at: int, cie: Cie) -> Option<EhNode> {
    match encoded_at(content, 4, cie.fde_enc, (at + 4) as u64) {
        (None, _) => None,
        (Some(begin), p1) => match encoded_at(content, p1, cie.fde_enc % 16, 0) {
            (None, _) => None,
            (Some(range), p2) => Some(
                EhNode {
                    start: Va(begin),
                    end: Va(sat_add(begin, range)),
                    regions: match lsda_field(content, p2, at, cie) {
                        Some(l) => lsda_at(src, l, begin),
                        None => Seq::empty(),
                    },
                },
            ),
        },
    }
}

/// The functions that the records of the section `sec` at `base` describe, from
/// offset `off` on, with the common records `cies` seen before. A zero length
/// ends the section; so do a 64-bit length and a record that does not fit.
pub open spec fn records_from(
    src: Snapshot,
    sec: Seq<u8>,
    base: int,
    off: int,
    cies: Map<u64, Cie>,
    left: nat,
) -> Seq<EhNode>
    decreases left,
{
    if left == 0 || off + 4 > sec.len() {
        Seq::empty()
    } else {
        let n = le(sec, off, 4);
        let start = off + 4;
        let end = start + n;
        if n == 0 || n == 0xffff_ffff || end > sec.len() {
            Seq::empty()
        } else if n < 4 {
            records_from(src, sec, base, end, cies, (left - 1) as nat)
        } else {
            let content = sec.subrange(start, end);
            let id = le(content, 0, 4);
            if id == 0 {
                let seen = match cie_of(content) {
                    Some(c) => cies.insert(off as u64, c),
                    None => cies,
                };
                records_from(src, sec, base, end, seen, (left - 1) as nat)
            } else {
                let rest = records_from(src, sec, base, end, cies, (left - 1) as nat);
                if start - id >= 0 && cies.contains_key((start - id) as u64) {
                    match fde_of(src, content, base + start, cies[(start - id) as u64]) {
                        Some(f) => seq![f] + rest,
                        None => rest,
                    }
                } else {
                    rest
                }
            }
        }
    }
}

/// Orders functions by their start.
impl Ranked for EhNode {
    open spec fn at_most(self, other: EhNode) -> bool {
        self.start.0 <= other.start.0
    }

    proof fn rank_laws(a: EhNode, b: EhNode, c: EhNode) {
    }
}

impl Ranked for EhFunction {
    open spec fn at_most(self, other: EhFunction) -> bool {
        self.start.0 <= other.start.0
    }

    proof fn rank_laws(a: EhFunction, b: EhFunction, c: EhFunction) {
    }
}

impl Sortable for EhFunction {
    fn not_after(&self, other: &EhFunction) -> (r: bool) {
        self.start.0 <= other.start.0
    }
}

/// How much of a table is read.
pub open spec fn window(size: u64) -> nat {
    if size <= MAX_EH_FRAME {
        size as nat
    } else {
        MAX_EH_FRAME as nat
    }
}

/// The functions that the frame section describes, by address.
pub open spec fn eh_frame_of(src: Snapshot, base: u64, size: u64) -> Seq<EhNode> {
    match src.read_of(base, window(size)) {
        Some(sec) => stable(records_from(src, sec, base as int, 0, Map::empty(), MAX_RECORDS as nat)),
        None => Seq::empty(),
    }
}

fn parse_fde(src: &Snapshot, content: &[u8], at: u64, cie: Cie) -> (r: Option<EhFunction>)
    requires
        src.wf(),
        4 <= content@.len(),
        at + content@.len() <= u64::MAX,
    ensures
        match (r, fde_of(*src, content@, at as int, cie)) {
            (Some(f), Some(n)) => eh_node(f) == n,
            (None, None) => true,
            _ => false,
        },
{
    let mut c = Cur { b: content, p: 4 };
    proof {
        lemma_encoded_inside(content@, 4, cie.fde_enc, (at + 4) as u64);
        let e = cie.fde_enc;
        assert(e & 0x0f == e % 16) by (bit_vector);
    }
    let begin: u64 = match c.encoded(cie.fde_enc, at + 4) {
        Some(v) => v,
        None => {
            return None;
        },
    };
    proof {
        lemma_encoded_inside(content@, c.p as int, cie.fde_enc % 16, 0);
    }
    let range: u64 = match c.encoded(cie.fde_enc & 0x0f, 0) {
        Some(v) => v,
        None => {
            return None;
        },
    };
    let ghost p2 = c.p as int;
    let mut lsda: Option<u64> = None;
    if cie.has_z {
        proof {
            lemma_uleb_inside(content@, c.p as int);
        }
        if c.uleb().is_some() && cie.lsda_enc != DW_EH_PE_OMIT {
            lsda = c.encoded(cie.lsda_enc, at + c.p as u64);
        }
    }
    assert(lsda == lsda_field(content@, p2, at as int, cie));
    let regions = match lsda {
        Some(l) => parse_lsda(src, l, begin),
        None => Vec::new(),
    };
    Some(EhFunction { start: Va(begin), end: Va(begin.saturating_add(range)), regions })
}

proof fn lemma_nodes_push(s: Seq<EhFunction>, f: EhFunction)
    ensures
        eh_nodes(s.push(f)) == eh_nodes(s).push(eh_node(f)),
{
    assert(eh_nodes(s.push(f)) =~= eh_nodes(s).push(eh_node(f)));
}

#[verifier::rlimit(60)]
fn walk_records(src: &Snapshot, sec: &[u8], base: u64) -> (out: Vec<EhFunction>)
    requires
        src.wf(),
        base + sec@.len() <= u64::MAX,
    ensures
        eh_nodes(out@) == records_from(*src, sec@, base as int, 0, Map::empty(), MAX_RECORDS as nat),
{
    let mut out: Vec<EhFunction> = Vec::new();
    let mut cies: HashMap<u64, Cie> = HashMap::new();
    let mut off: usize = 0;
    let mut left: usize = MAX_RECORDS;
    let ghost all = records_from(*src, sec@, base as int, 0, Map::empty(), MAX_RECORDS as nat);
    proof {
        assert(cies@ =~= Map::<u64, Cie>::empty());
        assert(eh_nodes(out@) + all =~= all);
    }
    let total: usize = sec.len();
    let mut going = true;
    while going && left > 0 && total - off >= 4
        invariant
            src.wf(),
            base + sec@.len() <= u64::MAX,
            off <= sec@.len(),
            total == sec@.len(),
            all == records_from(*src, sec@, base as int, 0, Map::empty(), MAX_RECORDS as nat),
            going ==> eh_nodes(out@) + records_from(*src, sec@, base as int, off as int, cies@, left as nat) == all,
            !going ==> eh_nodes(out@) == all,
        decreases left, going as int,
    {
        let ghost rest = records_from(*src, sec@, base as int, off as int, cies@, left as nat);
        let ghost nodes0 = eh_nodes(out@);
        let ghost left0 = left as nat;
        let n: u32 = le32(sec, off);
        let start: usize = off + 4;
        assert(nodes0 + Seq::<EhNode>::empty() =~= nodes0);
        if n == 0 || n == 0xffff_ffff || n as u64 > (total - start) as u64 {
            assert(rest =~= Seq::<EhNode>::empty());
            going = false;
        } else {
            let end: usize = start + n as usize;
            if n >= 4 {
                let content = vstd::slice::slice_subrange(sec, start, end);
                let id: u32 = le32(content, 0);
                if id == 0 {
                    match parse_cie(content) {
                        Some(cie) => {
                            cies.insert(off as u64, cie);
                        },
                        None => {},
                    }
                } else if id as u64 <= start as u64 {
                    let found = match cies.get(&(start as u64 - id as u64)) {
                        Some(c) => Some(*c),
                        None => None,
                    };
                    match found {
                        Some(cie) => {
                            let f = parse_fde(src, content, base + start as u64, cie);
                            match f {
                                Some(f) => {
                                    proof {
                                        lemma_nodes_push(out@, f);
                                        let tail = records_from(
                                            *src,
                                            sec@,
                                            base as int,
                                            end as int,
                                            cies@,
                                            (left0 - 1) as nat,
                                        );
                                        assert(nodes0.push(eh_node(f)) + tail =~= nodes0 + (seq![eh_node(f)] + tail));
                                    }
                                    out.push(f);
                                },
                                None => {},
                            }
                        },
                        None => {},
                    }
                }
            }
            off = end;
            left = left - 1;
        }
    }
    proof {
        if going {
            assert(eh_nodes(out@) + Seq::<EhNode>::empty() =~= eh_nodes(out@));
        }
    }
    out
}

/// Walks the frame section, given by its start and size, and returns every
/// function that it describes, by address. A function without language-specific
/// data is returned too, for its extent is stated there.
pub fn scan_eh_frame(src: &Snapshot, eh_frame: (Va, u64)) -> (out: Vec<EhFunction>)
    requires
        src.wf(),
    ensures
        eh_nodes(out@) == eh_frame_of(*src, eh_frame.0.0, eh_frame.1),
{
    let base: u64 = eh_frame.0.get();
    let size: usize = if eh_frame.1 <= MAX_EH_FRAME {
        eh_frame.1 as usize
    } else {
        MAX_EH_FRAME as usize
    };
    let sec = match src.read(Va(base), size) {
        Ok(s) => s,
        Err(_) => {
            let none: Vec<EhFunction> = Vec::new();
            assert(eh_nodes(none@) =~= Seq::<EhNode>::empty());
            return none;
        },
    };
    proof {
        lemma_read_len(src, base, size as nat);
    }
    let found = walk_records(src, sec.as_slice(), base);
    proof {
        lemma_stable_map(found@, |f: EhFunction| eh_node(f));
    }
    sort_stable(found)
}

// ---------------------------------------------------------------------------
// Unwind information of PE images
// ---------------------------------------------------------------------------

/// How many scopes a handler's table may have.
pub const MAX_SCOPES: u64 = 512;

/// How many try blocks a function may have.
pub const MAX_TRY_BLOCKS: u64 = 4096;

/// How many handlers a try block may have.
pub const MAX_CATCHES: u64 = 1024;

/// How many entries the map from addresses to states may have.
pub const MAX_IP_STATES: u64 = 200_000;

/// The 32-bit number at offset `p`.
pub open spec fn word(b: Seq<u8>, p: int) -> u64 {
    le(b, p, 4) as u64
}

fn word_at(b: &[u8], p: usize) -> (r: u64)
    requires
        p + 4 <= b@.len(),
    ensures
        r == word(b@, p as int),
        r <= u32::MAX,
{
    le32(b, p) as u64
}

/// A 32-bit number read with its sign.
pub open spec fn signed(v: u64) -> i32 {
    if v < 0x8000_0000 {
        v as i32
    } else {
        (v - 0x1_0000_0000) as i32
    }
}

pub fn to_signed(v: u64) -> (r: i32)
    requires
        v <= u32::MAX,
    ensures
        r == signed(v),
{
    if v < 0x8000_0000 {
        v as i32
    } else {
        (v as i64 - 0x1_0000_0000) as i32
    }
}

/// An address at which a function is in some state, up to the next such one.
#[derive(Clone, Copy, Debug, PartialEq, Eq, Structural)]
pub struct IpState {
    pub ip: u64,
    pub state: i32,
}

impl Ranked for IpState {
    open spec fn at_most(self, other: IpState) -> bool {
        self.ip <= other.ip
    }

    proof fn rank_laws(a: IpState, b: IpState, c: IpState) {
    }
}

impl Sortable for IpState {
    fn not_after(&self, other: &IpState) -> (r: bool) {
        self.ip <= other.ip
    }
}

/// A run of addresses.
#[derive(Clone, Copy, Debug, PartialEq, Eq, Structural)]
pub struct Run {
    pub start: u64,
    /// Exclusive end.
    pub end: u64,
}

/// Entry `k` covers some addresses, and its state is one of `low..=high`.
pub open spec fn counts(states: Seq<IpState>, low: i32, high: i32, k: int) -> bool {
    &&& 0 <= k < states.len() - 1
    &&& low <= states[k].state <= high
    &&& states[k].ip < states[k + 1].ip
}

/// The runs that the first `k` entries give. An entry covers the addresses up
/// to the next one, and is merged into a run that ends where it starts.
pub open spec fn runs_of(states: Seq<IpState>, low: i32, high: i32, k: int) -> Seq<Run>
    decreases k,
{
    if k <= 0 {
        Seq::empty()
    } else {
        let done = runs_of(states, low, high, k - 1);
        if !counts(states, low, high, k - 1) {
            done
        } else if done.len() > 0 && done.last().end == states[k - 1].ip {
            done.drop_last().push(Run { start: done.last().start, end: states[k].ip })
        } else {
            done.push(Run { start: states[k - 1].ip, end: states[k].ip })
        }
    }
}

/// The address lies in one of the runs.
pub open spec fn in_runs(runs: Seq<Run>, a: u64) -> bool {
    exists|i: int| 0 <= i < runs.len() && (#[trigger] runs[i]).start <= a < runs[i].end
}

/// The address is covered by one of the first `k` entries whose state counts.
pub open spec fn in_states(states: Seq<IpState>, low: i32, high: i32, k: int, a: u64) -> bool {
    exists|i: int| 0 <= i < k && #[trigger] counts(states, low, high, i) && states[i].ip <= a < states[i + 1].ip
}

/// The runs hold exactly the addresses that entries with a state of
/// `low..=high` cover, and none of them is empty.
pub proof fn runs_cover_their_states(states: Seq<IpState>, low: i32, high: i32, k: int)
    requires
        0 <= k < states.len() || k == 0,
    ensures
        forall|a: u64| #[trigger] in_runs(runs_of(states, low, high, k), a) <==> in_states(states, low, high, k, a),
        forall|i: int|
            0 <= i < runs_of(states, low, high, k).len() ==> (#[trigger] runs_of(states, low, high, k)[i]).start
                < runs_of(states, low, high, k)[i].end,
    decreases k,
{
    if k > 0 {
        runs_cover_their_states(states, low, high, k - 1);
        let done = runs_of(states, low, high, k - 1);
        let now = runs_of(states, low, high, k);
        let s = states[k - 1].ip;
        let e = states[k].ip;
        assert forall|a: u64| #[trigger] in_runs(now, a) <==> in_states(states, low, high, k, a) by {
            assert(in_runs(done, a) <==> in_states(states, low, high, k - 1, a));
            if in_states(states, low, high, k, a) && !in_states(states, low, high, k - 1, a) {
                let i = choose|i: int|
                    0 <= i < k && #[trigger] counts(states, low, high, i) && states[i].ip <= a < states[i + 1].ip;
                assert(i == k - 1);
                assert(now[now.len() - 1].start <= a < now[now.len() - 1].end);
            }
            if in_runs(done, a) {
                let i = choose|i: int| 0 <= i < done.len() && (#[trigger] done[i]).start <= a < done[i].end;
                assert(now[i].start <= a < now[i].end);
            }
            if in_runs(now, a) {
                let i = choose|i: int| 0 <= i < now.len() && (#[trigger] now[i]).start <= a < now[i].end;
                if i < done.len() && done[i].start <= a < done[i].end {
                    assert(in_runs(done, a));
                } else {
                    assert(counts(states, low, high, k - 1));
                    assert(s <= a < e);
                }
            }
            if in_states(states, low, high, k - 1, a) {
                let i = choose|i: int|
                    0 <= i < k - 1 && #[trigger] counts(states, low, high, i) && states[i].ip <= a < states[i + 1].ip;
                assert(counts(states, low, high, i));
            }
        }
    }
}

/// The runs of addresses whose entry has a state of `low..=high`. The last
/// entry is dropped, for nothing says where it ends.
pub fn state_runs(states: &Vec<IpState>, low: i32, high: i32) -> (runs: Vec<Run>)
    ensures
        runs@ == runs_of(states@, low, high, states@.len() - 1),
{
    let mut runs: Vec<Run> = Vec::new();
    let mut k: usize = 0;
    while k < states.len() && k < states.len() - 1
        invariant
            k <= states@.len(),
            k > 0 ==> k < states@.len(),
            runs@ == runs_of(states@, low, high, k as int),
        decreases states@.len() - k,
    {
        let here = states[k];
        let next = states[k + 1];
        if low <= here.state && here.state <= high && here.ip < next.ip {
            let n: usize = runs.len();
            if n > 0 && runs[n - 1].end == here.ip {
                let start: u64 = runs[n - 1].start;
                runs.pop();
                runs.push(Run { start, end: next.ip });
            } else {
                runs.push(Run { start: here.ip, end: next.ip });
            }
        }
        k = k + 1;
    }
    runs
}

/// What the scope `i` of a table says, where it is valid: its range, and the
/// pad if it has one. The pad is the body of an `__except`, or else the routine
/// of a `__finally`.
pub open spec fn scope_ok(src: Snapshot, image: u64, body: Seq<u8>, i: int) -> bool {
    let b = word(body, 16 * i);
    let e = word(body, 16 * i + 4);
    let handler = word(body, 16 * i + 8);
    let jump = word(body, 16 * i + 12);
    &&& b < e
    &&& src.is_code_at(sat_add(image, b))
    &&& src.is_code_at(below(sat_add(image, e)))
    &&& handler > 1 ==> src.is_code_at(sat_add(image, handler))
    &&& jump != 0 ==> src.is_code_at(sat_add(image, jump))
}

/// The address before `a`.
pub open spec fn below(a: u64) -> u64 {
    if a == 0 {
        0
    } else {
        (a - 1) as u64
    }
}

/// The regions of the first `n` scopes.
pub open spec fn scopes_of(image: u64, body: Seq<u8>, n: int) -> Seq<EhRegion>
    decreases n,
{
    if n <= 0 {
        Seq::empty()
    } else {
        let done = scopes_of(image, body, n - 1);
        let handler = word(body, 16 * (n - 1) + 8);
        let jump = word(body, 16 * (n - 1) + 12);
        if jump == 0 && handler <= 1 {
            done
        } else {
            done.push(
                EhRegion {
                    try_start: Va(sat_add(image, word(body, 16 * (n - 1)))),
                    try_end: Va(sat_add(image, word(body, 16 * (n - 1) + 4))),
                    landing_pad: Va(
                        sat_add(
                            image,
                            if jump != 0 {
                                jump
                            } else {
                                handler
                            },
                        ),
                    ),
                },
            )
        }
    }
}

/// The bytes at offset `rva` of the image, where `n` of them are mapped.
pub open spec fn whole(src: Snapshot, image: u64, rva: u64, n: nat) -> Option<Seq<u8>> {
    match src.read_of(sat_add(image, rva), n) {
        Some(b) => if b.len() == n {
            Some(b)
        } else {
            None
        },
        None => None,
    }
}

/// One region for each run and pad.
pub open spec fn pairs_of(image: u64, runs: Seq<Run>, pads: Seq<u64>) -> Seq<EhRegion>
    decreases runs.len(),
{
    if runs.len() == 0 {
        Seq::empty()
    } else {
        pairs_of(image, runs.drop_last(), pads) + Seq::new(
            pads.len(),
            |j: int| region_of(image, runs.last(), pads[j]),
        )
    }
}

pub open spec fn region_of(image: u64, run: Run, pad: u64) -> EhRegion {
    EhRegion {
        try_start: Va(sat_add(image, run.start)),
        try_end: Va(sat_add(image, run.end)),
        landing_pad: Va(sat_add(image, pad)),
    }
}

/// The entry points of the `n` handlers in `hs`, where all are code.
pub open spec fn pads_of(src: Snapshot, image: u64, hs: Seq<u8>, n: nat) -> Option<Seq<u64>> {
    if forall|i: int|
        0 <= i < n ==> #[trigger] word(hs, 20 * i + 12) != 0 && src.is_code_at(sat_add(image, word(hs, 20 * i + 12))) {
        Some(Seq::new(n, |i: int| word(hs, 20 * i + 12)))
    } else {
        None
    }
}

/// The regions of the try block `i`, where it is valid.
pub open spec fn block_of(
    src: Snapshot,
    image: u64,
    states: Seq<IpState>,
    blocks: Seq<u8>,
    i: int,
) -> Option<Seq<EhRegion>> {
    let low = signed(word(blocks, 20 * i));
    let high = signed(word(blocks, 20 * i + 4));
    let n = word(blocks, 20 * i + 12);
    if low > high || n == 0 || n > MAX_CATCHES {
        None
    } else {
        match whole(src, image, word(blocks, 20 * i + 16), 20 * n as nat) {
            None => None,
            Some(hs) => match pads_of(src, image, hs, n as nat) {
                None => None,
                Some(pads) => Some(pairs_of(image, runs_of(states, low, high, states.len() - 1), pads)),
            },
        }
    }
}

/// The regions of the first `n` try blocks, where all are valid.
pub open spec fn blocks_of(
    src: Snapshot,
    image: u64,
    states: Seq<IpState>,
    blocks: Seq<u8>,
    n: int,
) -> Option<Seq<EhRegion>>
    decreases n,
{
    if n <= 0 {
        Some(Seq::empty())
    } else {
        match (blocks_of(src, image, states, blocks, n - 1), block_of(src, image, states, blocks, n - 1)) {
            (Some(done), Some(next)) => Some(done + next),
            _ => None,
        }
    }
}

pub open spec fn state_at(ips: Seq<u8>, i: int) -> IpState {
    IpState { ip: word(ips, 8 * i), state: signed(word(ips, 8 * i + 4)) }
}

/// The map from addresses to states, where all its addresses are code.
pub open spec fn states_of(src: Snapshot, image: u64, ips: Seq<u8>, n: nat) -> Option<Seq<IpState>> {
    if forall|i: int| 0 <= i < n ==> src.is_code_at(sat_add(image, (#[trigger] state_at(ips, i)).ip)) {
        Some(stable(Seq::new(n, |i: int| state_at(ips, i))))
    } else {
        None
    }
}

/// The regions that the C++ frame description at `info` gives. A table that is
/// not valid in every part gives none.
pub open spec fn cxx_of(src: Snapshot, image: u64, info: u64) -> Seq<EhRegion> {
    match whole(src, image, info, 28) {
        None => Seq::empty(),
        Some(head) => {
            let n_try = word(head, 12);
            let n_ip = word(head, 20);
            if n_try == 0 || n_try > MAX_TRY_BLOCKS || n_ip == 0 || n_ip > MAX_IP_STATES {
                Seq::empty()
            } else {
                match (
                    whole(src, image, word(head, 24), 8 * n_ip as nat),
                    whole(src, image, word(head, 16), 20 * n_try as nat),
                ) {
                    (Some(ips), Some(blocks)) => match states_of(src, image, ips, n_ip as nat) {
                        None => Seq::empty(),
                        Some(states) => match blocks_of(src, image, states, blocks, n_try as int) {
                            Some(r) => r,
                            None => Seq::empty(),
                        },
                    },
                    _ => Seq::empty(),
                }
            }
        },
    }
}

/// The dword at `first` is one of the magic numbers of a C++ frame description.
pub open spec fn is_cxx(src: Snapshot, image: u64, first: u64) -> bool {
    match whole(src, image, first, 4) {
        Some(b) => 0x1993_0520 <= word(b, 0) <= 0x1993_0522,
        None => false,
    }
}

/// The regions that the unwind information at `unwind` gives. Handler data is
/// either what a C++ frame description says at the place that it names, or a
/// scope table, which counts only where every scope is valid.
pub open spec fn pe_regions_of(src: Snapshot, image: u64, unwind: u64) -> Seq<EhRegion> {
    match whole(src, image, unwind, 4) {
        None => Seq::empty(),
        Some(head) => {
            let version = head[0] % 8;
            let flags = head[0] / 8;
            // Not chained, and with an exception or a termination handler.
            if !(version == 1 || version == 2) || (flags / 4) % 2 != 0 || flags % 4 == 0 {
                Seq::empty()
            } else {
                // The codes have two bytes each and come in pairs.
                let codes = 2 * (head[2] + head[2] % 2);
                let data = sat_add(sat_add(unwind, 4), codes as u64);
                match whole(src, image, data, 8) {
                    None => Seq::empty(),
                    Some(d) => {
                        let first = word(d, 4);
                        if is_cxx(src, image, first) {
                            cxx_of(src, image, first)
                        } else if first == 0 || first > MAX_SCOPES {
                            Seq::empty()
                        } else {
                            match whole(src, image, sat_add(data, 8), 16 * first as nat) {
                                None => Seq::empty(),
                                Some(body) => if forall|i: int|
                                    0 <= i < first ==> #[trigger] scope_ok(src, image, body, i) {
                                    scopes_of(image, body, first as int)
                                } else {
                                    Seq::empty()
                                },
                            }
                        }
                    },
                }
            }
        },
    }
}

fn read_whole(src: &Snapshot, image: u64, rva: u64, n: usize) -> (r: Option<Vec<u8>>)
    ensures
        match (r, whole(*src, image, rva, n as nat)) {
            (Some(v), Some(b)) => v@ == b && b.len() == n,
            (None, None) => true,
            _ => false,
        },
{
    match src.read(Va(image.saturating_add(rva)), n) {
        Ok(b) => {
            if b.len() == n {
                Some(b)
            } else {
                None
            }
        },
        Err(_) => None,
    }
}

fn read_pads(src: &Snapshot, image: u64, hs: &[u8], n: usize) -> (r: Option<Vec<u64>>)
    requires
        hs@.len() == 20 * n,
        n <= MAX_CATCHES,
    ensures
        match (r, pads_of(*src, image, hs@, n as nat)) {
            (Some(v), Some(b)) => v@ == b,
            (None, None) => true,
            _ => false,
        },
{
    let mut pads: Vec<u64> = Vec::new();
    let mut i: usize = 0;
    while i < n
        invariant
            i <= n,
            n <= MAX_CATCHES,
            hs@.len() == 20 * n,
            pads@.len() == i,
            forall|j: int| 0 <= j < i ==> #[trigger] pads@[j] == word(hs@, 20 * j + 12),
            forall|j: int|
                0 <= j < i ==> #[trigger] word(hs@, 20 * j + 12) != 0 && src.is_code_at(
                    sat_add(image, word(hs@, 20 * j + 12)),
                ),
        decreases n - i,
    {
        let a: u64 = word_at(hs, 20 * i + 12);
        if a == 0 || !src.is_code(image.saturating_add(a)) {
            assert(word(hs@, 20 * (i as int) + 12) == a);
            return None;
        }
        pads.push(a);
        i = i + 1;
    }
    assert(pads@ =~= Seq::new(n as nat, |i: int| word(hs@, 20 * i + 12)));
    Some(pads)
}

fn read_states(src: &Snapshot, image: u64, ips: &[u8], n: usize) -> (r: Option<Vec<IpState>>)
    requires
        ips@.len() == 8 * n,
        n <= MAX_IP_STATES,
    ensures
        match (r, states_of(*src, image, ips@, n as nat)) {
            (Some(v), Some(b)) => v@ == b,
            (None, None) => true,
            _ => false,
        },
{
    let mut states: Vec<IpState> = Vec::new();
    let mut i: usize = 0;
    while i < n
        invariant
            i <= n,
            n <= MAX_IP_STATES,
            ips@.len() == 8 * n,
            states@.len() == i,
            forall|j: int| 0 <= j < i ==> #[trigger] states@[j] == state_at(ips@, j),
            forall|j: int| 0 <= j < i ==> src.is_code_at(sat_add(image, (#[trigger] state_at(ips@, j)).ip)),
        decreases n - i,
    {
        let ip: u64 = word_at(ips, 8 * i);
        let st: u64 = word_at(ips, 8 * i + 4);
        assert(state_at(ips@, i as int).ip == ip);
        if !src.is_code(image.saturating_add(ip)) {
            return None;
        }
        states.push(IpState { ip, state: to_signed(st) });
        i = i + 1;
    }
    assert(states@ =~= Seq::new(n as nat, |i: int| state_at(ips@, i)));
    Some(sort_stable(states))
}

fn pair_up(image: u64, runs: &Vec<Run>, pads: &Vec<u64>, out: &mut Vec<EhRegion>)
    ensures
        final(out)@ == old(out)@ + pairs_of(image, runs@, pads@),
{
    let mut k: usize = 0;
    let ghost out0 = out@;
    assert(runs@.take(0) =~= Seq::<Run>::empty());
    assert(out0 + Seq::<EhRegion>::empty() =~= out0);
    while k < runs.len()
        invariant
            k <= runs@.len(),
            out@ == out0 + pairs_of(image, runs@.take(k as int), pads@),
        decreases runs@.len() - k,
    {
        let ghost out1 = out@;
        let mut j: usize = 0;
        let run = runs[k];
        while j < pads.len()
            invariant
                k < runs@.len(),
                run == runs@[k as int],
                j <= pads@.len(),
                out@.len() == out1.len() + j,
                out@.take(out1.len() as int) == out1,
                forall|i: int| 0 <= i < j ==> #[trigger] out@[out1.len() + i] == region_of(image, run, pads@[i]),
            decreases pads@.len() - j,
        {
            let pad: u64 = pads[j];
            let ghost out2 = out@;
            out.push(
                EhRegion {
                    try_start: Va(image.saturating_add(run.start)),
                    try_end: Va(image.saturating_add(run.end)),
                    landing_pad: Va(image.saturating_add(pad)),
                },
            );
            assert(out@.take(out1.len() as int) =~= out2.take(out1.len() as int));
            j = j + 1;
        }
        proof {
            let row = Seq::new(pads@.len(), |j: int| region_of(image, run, pads@[j]));
            assert(out@ =~= out1 + row) by {
                assert forall|i: int| 0 <= i < out@.len() implies out@[i] == (out1 + row)[i] by {
                    if i < out1.len() {
                        assert(out@.take(out1.len() as int)[i] == out1[i]);
                    } else {
                        assert(out@[out1.len() + (i - out1.len())] == region_of(image, run, pads@[i - out1.len()]));
                    }
                }
            }
            assert(runs@.take(k + 1).drop_last() =~= runs@.take(k as int));
            assert(runs@.take(k + 1).last() == run);
            assert(out@ =~= out0 + pairs_of(image, runs@.take(k + 1), pads@));
        }
        k = k + 1;
    }
    assert(runs@.take(k as int) =~= runs@);
}

fn read_block(
    src: &Snapshot,
    image: u64,
    states: &Vec<IpState>,
    blocks: &[u8],
    i: usize,
    out: &mut Vec<EhRegion>,
) -> (ok: bool)
    requires
        20 * i + 20 <= blocks@.len(),
        i < MAX_TRY_BLOCKS,
    ensures
        match block_of(*src, image, states@, blocks@, i as int) {
            Some(r) => ok && final(out)@ == old(out)@ + r,
            None => !ok,
        },
{
    let low: i32 = to_signed(word_at(blocks, 20 * i));
    let high: i32 = to_signed(word_at(blocks, 20 * i + 4));
    let n: u64 = word_at(blocks, 20 * i + 12);
    let at: u64 = word_at(blocks, 20 * i + 16);
    if low > high || n == 0 || n > MAX_CATCHES {
        return false;
    }
    let hs = match read_whole(src, image, at, 20 * n as usize) {
        Some(hs) => hs,
        None => {
            return false;
        },
    };
    match read_pads(src, image, hs.as_slice(), n as usize) {
        Some(pads) => {
            let runs = state_runs(states, low, high);
            pair_up(image, &runs, &pads, out);
            true
        },
        None => false,
    }
}

fn cxx_regions(src: &Snapshot, image: u64, info: u64) -> (out: Vec<EhRegion>)
    ensures
        out@ == cxx_of(*src, image, info),
{
    let head = match read_whole(src, image, info, 28) {
        Some(h) => h,
        None => {
            return Vec::new();
        },
    };
    let h = head.as_slice();
    let n_try: u64 = word_at(h, 12);
    let try_map: u64 = word_at(h, 16);
    let n_ip: u64 = word_at(h, 20);
    let ip_map: u64 = word_at(h, 24);
    if n_try == 0 || n_try > MAX_TRY_BLOCKS || n_ip == 0 || n_ip > MAX_IP_STATES {
        return Vec::new();
    }
    let ips = match read_whole(src, image, ip_map, 8 * n_ip as usize) {
        Some(b) => b,
        None => {
            return Vec::new();
        },
    };
    let blocks = match read_whole(src, image, try_map, 20 * n_try as usize) {
        Some(b) => b,
        None => {
            return Vec::new();
        },
    };
    let states = match read_states(src, image, ips.as_slice(), n_ip as usize) {
        Some(s) => s,
        None => {
            return Vec::new();
        },
    };
    let mut out: Vec<EhRegion> = Vec::new();
    let mut i: usize = 0;
    let mut valid = true;
    while valid && i < n_try as usize
        invariant
            i <= n_try <= MAX_TRY_BLOCKS,
            blocks@.len() == 20 * n_try,
            valid ==> blocks_of(*src, image, states@, blocks@, i as int) == Some(out@),
            !valid ==> blocks_of(*src, image, states@, blocks@, n_try as int) is None,
        decreases n_try - i, valid as int,
    {
        valid = read_block(src, image, &states, blocks.as_slice(), i, &mut out);
        i = i + 1;
        proof {
            if !valid {
                lemma_blocks_none(*src, image, states@, blocks@, i as int, n_try as int);
            }
        }
    }
    if valid {
        out
    } else {
        Vec::new()
    }
}

proof fn lemma_blocks_none(src: Snapshot, image: u64, states: Seq<IpState>, blocks: Seq<u8>, i: int, n: int)
    requires
        0 <= i <= n,
        blocks_of(src, image, states, blocks, i) is None,
    ensures
        blocks_of(src, image, states, blocks, n) is None,
    decreases n,
{
    if i < n {
        lemma_blocks_none(src, image, states, blocks, i, n - 1);
    }
}

fn scope_regions(src: &Snapshot, image: u64, body: &[u8], n: usize) -> (out: Vec<EhRegion>)
    requires
        body@.len() == 16 * n,
        n <= MAX_SCOPES,
    ensures
        out@ == (if forall|i: int| 0 <= i < n ==> #[trigger] scope_ok(*src, image, body@, i) {
            scopes_of(image, body@, n as int)
        } else {
            Seq::empty()
        }),
{
    let mut out: Vec<EhRegion> = Vec::new();
    let mut i: usize = 0;
    while i < n
        invariant
            i <= n,
            n <= MAX_SCOPES,
            body@.len() == 16 * n,
            forall|j: int| 0 <= j < i ==> #[trigger] scope_ok(*src, image, body@, j),
            out@ == scopes_of(image, body@, i as int),
        decreases n - i,
    {
        let b: u64 = word_at(body, 16 * i);
        let e: u64 = word_at(body, 16 * i + 4);
        let handler: u64 = word_at(body, 16 * i + 8);
        let jump: u64 = word_at(body, 16 * i + 12);
        let last: u64 = image.saturating_add(e).saturating_sub(1);
        if b >= e || !src.is_code(image.saturating_add(b)) || !src.is_code(last) || (handler > 1 && !src.is_code(
            image.saturating_add(handler),
        )) || (jump != 0 && !src.is_code(image.saturating_add(jump))) {
            assert(!scope_ok(*src, image, body@, i as int));
            return Vec::new();
        }
        if jump != 0 || handler > 1 {
            let pad: u64 = if jump != 0 {
                jump
            } else {
                handler
            };
            out.push(
                EhRegion {
                    try_start: Va(image.saturating_add(b)),
                    try_end: Va(image.saturating_add(e)),
                    landing_pad: Va(image.saturating_add(pad)),
                },
            );
        }
        i = i + 1;
    }
    out
}

fn pe_regions(src: &Snapshot, image: u64, unwind: u64) -> (out: Vec<EhRegion>)
    ensures
        out@ == pe_regions_of(*src, image, unwind),
{
    let head = match read_whole(src, image, unwind, 4) {
        Some(h) => h,
        None => {
            return Vec::new();
        },
    };
    let version: u8 = head[0] % 8;
    let flags: u8 = head[0] / 8;
    let count: u8 = head[2];
    if (version != 1 && version != 2) || (flags / 4) % 2 != 0 || flags % 4 == 0 {
        return Vec::new();
    }
    let codes: u64 = 2 * (count as u64 + (count % 2) as u64);
    let data: u64 = unwind.saturating_add(4).saturating_add(codes);
    let d = match read_whole(src, image, data, 8) {
        Some(d) => d,
        None => {
            return Vec::new();
        },
    };
    let first: u64 = word_at(d.as_slice(), 4);
    match read_whole(src, image, first, 4) {
        Some(m) => {
            let magic: u64 = word_at(m.as_slice(), 0);
            if 0x1993_0520 <= magic && magic <= 0x1993_0522 {
                return cxx_regions(src, image, first);
            }
        },
        None => {},
    }
    if first == 0 || first > MAX_SCOPES {
        return Vec::new();
    }
    match read_whole(src, image, data.saturating_add(8), 16 * first as usize) {
        Some(body) => scope_regions(src, image, body.as_slice(), first as usize),
        None => Vec::new(),
    }
}

/// The region lies in the function's bytes.
pub open spec fn lies_in(r: EhRegion, start: u64, end: u64) -> bool {
    start <= r.try_start.0 && r.try_end.0 <= end
}

/// The function that a table entry describes. Handlers compiled into functions
/// of their own name their parent's description; a range is reported only for
/// the entry whose bytes hold it.
pub open spec fn entry_of(src: Snapshot, image: u64, begin: u64, end: u64, unwind: u64) -> EhNode {
    EhNode {
        start: Va(sat_add(image, begin)),
        end: Va(sat_add(image, end)),
        regions: pe_regions_of(src, image, unwind).filter(
            |r: EhRegion| lies_in(r, sat_add(image, begin), sat_add(image, end)),
        ),
    }
}

/// The functions that the table entries from `p` on describe, up to one that is
/// all zero. An entry that ends before it begins is passed over.
pub open spec fn entries_from(src: Snapshot, image: u64, table: Seq<u8>, p: int, left: nat) -> Seq<EhNode>
    decreases left,
{
    if left == 0 || p + 12 > table.len() {
        Seq::empty()
    } else {
        let begin = word(table, p);
        let end = word(table, p + 4);
        let unwind = word(table, p + 8);
        let rest = entries_from(src, image, table, p + 12, (left - 1) as nat);
        if begin == 0 && end == 0 && unwind == 0 {
            Seq::empty()
        } else if end <= begin {
            rest
        } else {
            seq![entry_of(src, image, begin, end, unwind)] + rest
        }
    }
}

/// The functions that the function table of an image describes.
pub open spec fn pdata_of(src: Snapshot, image: u64, base: u64, size: u64) -> Seq<EhNode> {
    match src.read_of(base, window(size)) {
        Some(table) => entries_from(src, image, table, 0, MAX_RECORDS as nat),
        None => Seq::empty(),
    }
}

fn keep_inside(regions: Vec<EhRegion>, start: u64, end: u64) -> (out: Vec<EhRegion>)
    ensures
        out@ == regions@.filter(|r: EhRegion| lies_in(r, start, end)),
{
    let mut out: Vec<EhRegion> = Vec::new();
    let mut i: usize = 0;
    let ghost f = |r: EhRegion| lies_in(r, start, end);
    proof {
        reveal(Seq::filter);
    }
    while i < regions.len()
        invariant
            i <= regions@.len(),
            f == (|r: EhRegion| lies_in(r, start, end)),
            out@ == regions@.take(i as int).filter(f),
        decreases regions@.len() - i,
    {
        let r = regions[i];
        proof {
            reveal(Seq::filter);
            assert(regions@.take(i + 1).drop_last() =~= regions@.take(i as int));
            assert(regions@.take(i + 1).last() == r);
        }
        if start <= r.try_start.0 && r.try_end.0 <= end {
            out.push(r);
        }
        i = i + 1;
    }
    assert(regions@.take(i as int) =~= regions@);
    out
}

/// Reads the function table of a PE image, given by its start and size, and
/// returns every function that it describes, in the order of the table. Each
/// entry states its function's extent; its unwind information may add regions.
pub fn scan_pdata(src: &Snapshot, image_base: Va, pdata: (Va, u64)) -> (out: Vec<EhFunction>)
    ensures
        eh_nodes(out@) == pdata_of(*src, image_base.0, pdata.0.0, pdata.1),
{
    let image: u64 = image_base.get();
    let size: usize = if pdata.1 <= MAX_EH_FRAME {
        pdata.1 as usize
    } else {
        MAX_EH_FRAME as usize
    };
    let mut out: Vec<EhFunction> = Vec::new();
    assert(eh_nodes(out@) =~= Seq::<EhNode>::empty());
    let table = match src.read(pdata.0, size) {
        Ok(t) => t,
        Err(_) => {
            return out;
        },
    };
    let total: usize = table.len();
    let ghost all = entries_from(*src, image, table@, 0, MAX_RECORDS as nat);
    let mut p: usize = 0;
    let mut left: usize = MAX_RECORDS;
    let mut going = true;
    assert(eh_nodes(out@) + all =~= all);
    while going && left > 0 && total - p >= 12
        invariant
            p <= total == table@.len(),
            going ==> eh_nodes(out@) + entries_from(*src, image, table@, p as int, left as nat) == all,
            !going ==> eh_nodes(out@) == all,
        decreases left, going as int,
    {
        let ghost nodes0 = eh_nodes(out@);
        let begin: u64 = word_at(table.as_slice(), p);
        let end: u64 = word_at(table.as_slice(), p + 4);
        let unwind: u64 = word_at(table.as_slice(), p + 8);
        if begin == 0 && end == 0 && unwind == 0 {
            assert(nodes0 + Seq::<EhNode>::empty() =~= nodes0);
            going = false;
        } else {
            p = p + 12;
            left = left - 1;
            if end > begin {
                let start_va: u64 = image.saturating_add(begin);
                let end_va: u64 = image.saturating_add(end);
                let regions = keep_inside(pe_regions(src, image, unwind), start_va, end_va);
                let f = EhFunction { start: Va(start_va), end: Va(end_va), regions };
                proof {
                    let node = entry_of(*src, image, begin, end, unwind);
                    assert(eh_node(f) == node);
                    lemma_nodes_push(out@, f);
                    let rest = entries_from(*src, image, table@, p as int, left as nat);
                    assert(nodes0.push(node) + rest =~= nodes0 + (seq![node] + rest));
                }
                out.push(f);
            }
        }
    }
    proof {
        if going {
            assert(eh_nodes(out@) + Seq::<EhNode>::empty() =~= eh_nodes(out@));
        }
    }
    out
}

/// The address is the landing pad of some region of the functions.
pub open spec fn is_pad(functions: Seq<EhFunction>, a: u64) -> bool {
    exists|i: int, j: int|
        0 <= i < functions.len() && 0 <= j < functions[i].regions@.len() && (#[trigger] functions[i].regions@[j]).landing_pad.0
            == a
}

/// Every landing pad of the functions.
pub fn landing_pads(functions: &[EhFunction]) -> (pads: BTreeSet<u64>)
    ensures
        forall|a: u64| #[trigger] pads@.contains(a) <==> is_pad(functions@, a),
{
    let mut pads: BTreeSet<u64> = BTreeSet::new();
    let mut i: usize = 0;
    while i < functions.len()
        invariant
            i <= functions@.len(),
            forall|a: u64| #[trigger] pads@.contains(a) <==> is_pad(functions@.take(i as int), a),
        decreases functions@.len() - i,
    {
        let regions = &functions[i].regions;
        let ghost before = pads@;
        let mut j: usize = 0;
        while j < regions.len()
            invariant
                i < functions@.len(),
                regions@ == functions@[i as int].regions@,
                j <= regions@.len(),
                forall|a: u64| #[trigger]
                    pads@.contains(a) <==> before.contains(a) || exists|k: int|
                        0 <= k < j && (#[trigger] regions@[k]).landing_pad.0 == a,
            decreases regions@.len() - j,
        {
            let ghost pads0 = pads@;
            let pad: u64 = regions[j].landing_pad.0;
            pads.insert(pad);
            assert forall|a: u64| #[trigger]
                pads@.contains(a) <==> before.contains(a) || exists|k: int|
                    0 <= k < j + 1 && (#[trigger] regions@[k]).landing_pad.0 == a by {
                assert(pads@.contains(a) <==> pads0.contains(a) || a == pad);
                if a == pad {
                    assert(regions@[j as int].landing_pad.0 == a);
                }
                assert(pads0.contains(a) <==> before.contains(a) || exists|k: int|
                    0 <= k < j && (#[trigger] regions@[k]).landing_pad.0 == a);
            }
            j = j + 1;
        }
        proof {
            let old_fns = functions@.take(i as int);
            let new_fns = functions@.take(i + 1);
            assert forall|a: u64| #[trigger] pads@.contains(a) <==> is_pad(new_fns, a) by {
                assert(before.contains(a) <==> is_pad(old_fns, a));
                if is_pad(old_fns, a) {
                    let (x, y) = choose|x: int, y: int|
                        0 <= x < old_fns.len() && 0 <= y < old_fns[x].regions@.len() && (#[trigger] old_fns[x].regions@[y]).landing_pad.0
                            == a;
                    assert(new_fns[x].regions@[y].landing_pad.0 == a);
                }
                if exists|k: int| 0 <= k < regions@.len() && (#[trigger] regions@[k]).landing_pad.0 == a {
                    let k = choose|k: int| 0 <= k < regions@.len() && (#[trigger] regions@[k]).landing_pad.0 == a;
                    assert(new_fns[i as int].regions@[k].landing_pad.0 == a);
                }
                if is_pad(new_fns, a) {
                    let (x, y) = choose|x: int, y: int|
                        0 <= x < new_fns.len() && 0 <= y < new_fns[x].regions@.len() && (#[trigger] new_fns[x].regions@[y]).landing_pad.0
                            == a;
                    if x < i {
                        assert(old_fns[x].regions@[y].landing_pad.0 == a);
                    } else {
                        assert(regions@[y].landing_pad.0 == a);
                    }
                }
            }
        }
        i = i + 1;
    }
    assert(functions@.take(i as int) =~= functions@);
    pads
}

// ---------------------------------------------------------------------------
// Laws
// ---------------------------------------------------------------------------

/// No region leads to address zero.
pub open spec fn leads_somewhere(s: Seq<EhRegion>) -> bool {
    forall|i: int| 0 <= i < s.len() ==> (#[trigger] s[i]).landing_pad.0 != 0
}

/// The functions of a frame section come out in the order of their addresses.
pub proof fn frames_come_out_by_address(src: Snapshot, base: u64, size: u64)
    ensures
        in_order(eh_frame_of(src, base, size)),
{
    match src.read_of(base, window(size)) {
        Some(sec) => {
            sorting_permutes(records_from(src, sec, base as int, 0, Map::empty(), MAX_RECORDS as nat));
        },
        None => {},
    }
}

proof fn lemma_sites_lead(
    b: Seq<u8>,
    addr: u64,
    func: u64,
    lp_start: u64,
    enc: u8,
    end: int,
    p: int,
    left: nat,
)
    ensures
        leads_somewhere(sites_from(b, addr, func, lp_start, enc, end, p, left)),
    decreases left,
{
    if p < end && left > 0 {
        let p1 = encoded_at(b, p, enc, (addr + p) as u64).1;
        let p2 = encoded_at(b, p1, enc, (addr + p1) as u64).1;
        let p3 = encoded_at(b, p2, enc, (addr + p2) as u64).1;
        match uleb_at(b, p3) {
            Some((_, p4)) => {
                lemma_sites_lead(b, addr, func, lp_start, enc, end, p4, (left - 1) as nat);
            },
            None => {},
        }
    }
}

/// A call site without a handler is no edge: no region that language-specific
/// data gives leads to address zero.
pub proof fn call_sites_never_lead_to_zero(src: Snapshot, addr: u64, func: u64)
    ensures
        leads_somewhere(lsda_at(src, addr, func)),
{
    match src.read_of(addr, LSDA_WINDOW as nat) {
        Some(b) => {
            assert forall|lp_start: u64, p: int| leads_somewhere(#[trigger] table_at(b, addr, func, lp_start, p)) by {
                assert forall|enc: u8, end: int, q: int|
                    leads_somewhere(
                        #[trigger] sites_from(b, addr, func, lp_start, enc, end, q, MAX_CALLSITES as nat),
                    ) by {
                    lemma_sites_lead(b, addr, func, lp_start, enc, end, q, MAX_CALLSITES as nat);
                }
            }
        },
        None => {},
    }
}

proof fn lemma_pairs_lead(image: u64, runs: Seq<Run>, pads: Seq<u64>)
    requires
        forall|i: int| 0 <= i < pads.len() ==> #[trigger] pads[i] != 0,
    ensures
        leads_somewhere(pairs_of(image, runs, pads)),
    decreases runs.len(),
{
    if runs.len() > 0 {
        lemma_pairs_lead(image, runs.drop_last(), pads);
    }
}

proof fn lemma_blocks_lead(src: Snapshot, image: u64, states: Seq<IpState>, blocks: Seq<u8>, n: int)
    ensures
        blocks_of(src, image, states, blocks, n) matches Some(r) ==> leads_somewhere(r),
    decreases n,
{
    if n > 0 {
        lemma_blocks_lead(src, image, states, blocks, n - 1);
        let i = n - 1;
        let low = signed(word(blocks, 20 * i));
        let high = signed(word(blocks, 20 * i + 4));
        let m = word(blocks, 20 * i + 12);
        match whole(src, image, word(blocks, 20 * i + 16), 20 * m as nat) {
            Some(hs) => match pads_of(src, image, hs, m as nat) {
                Some(pads) => {
                    assert forall|k: int| 0 <= k < pads.len() implies #[trigger] pads[k] != 0 by {
                        assert(word(hs, 20 * k + 12) != 0);
                    }
                    lemma_pairs_lead(image, runs_of(states, low, high, states.len() - 1), pads);
                },
                None => {},
            },
            None => {},
        }
    }
}

proof fn lemma_scopes_lead(image: u64, body: Seq<u8>, n: int)
    ensures
        leads_somewhere(scopes_of(image, body, n)),
    decreases n,
{
    if n > 0 {
        lemma_scopes_lead(image, body, n - 1);
    }
}

/// No region that unwind information gives leads to address zero.
pub proof fn unwind_never_leads_to_zero(src: Snapshot, image: u64, unwind: u64)
    ensures
        leads_somewhere(pe_regions_of(src, image, unwind)),
{
    assert forall|info: u64| leads_somewhere(#[trigger] cxx_of(src, image, info)) by {
        assert forall|states: Seq<IpState>, blocks: Seq<u8>, n: int|
            (#[trigger] blocks_of(src, image, states, blocks, n)) matches Some(r) ==> leads_somewhere(r) by {
            lemma_blocks_lead(src, image, states, blocks, n);
        }
    }
    assert forall|body: Seq<u8>, n: int| leads_somewhere(#[trigger] scopes_of(image, body, n)) by {
        lemma_scopes_lead(image, body, n);
    }
}

proof fn lemma_entries_inside(src: Snapshot, image: u64, table: Seq<u8>, p: int, left: nat)
    ensures
        forall|i: int, j: int|
            0 <= i < entries_from(src, image, table, p, left).len() && 0 <= j < entries_from(
                src,
                image,
                table,
                p,
                left,
            )[i].regions.len() ==> lies_in(
                #[trigger] entries_from(src, image, table, p, left)[i].regions[j],
                entries_from(src, image, table, p, left)[i].start.0,
                entries_from(src, image, table, p, left)[i].end.0,
            ),
    decreases left,
{
    broadcast use vstd::seq_lib::group_filter_ensures;

    if left > 0 && p + 12 <= table.len() {
        lemma_entries_inside(src, image, table, p + 12, (left - 1) as nat);
        let begin = word(table, p);
        let end = word(table, p + 4);
        let all = pe_regions_of(src, image, word(table, p + 8));
        let f = |r: EhRegion| lies_in(r, sat_add(image, begin), sat_add(image, end));
        let rest = entries_from(src, image, table, p + 12, (left - 1) as nat);
        let now = entries_from(src, image, table, p, left);
        assert forall|i: int, j: int| 0 <= i < now.len() && 0 <= j < now[i].regions.len() implies lies_in(
            #[trigger] now[i].regions[j],
            now[i].start.0,
            now[i].end.0,
        ) by {
            if end <= begin {
                assert(now[i].regions[j] == rest[i].regions[j]);
            } else if i > 0 {
                assert(now[i].regions[j] == rest[i - 1].regions[j]);
            } else {
                assert(now[0] == entry_of(src, image, begin, end, word(table, p + 8)));
                assert(f(all.filter(f)[j]));
            }
        }
    }
}

/// Every region of a function table lies in the bytes of the function that
/// reports it.
pub proof fn regions_lie_in_their_function(src: Snapshot, image: u64, base: u64, size: u64)
    ensures
        forall|i: int, j: int|
            0 <= i < pdata_of(src, image, base, size).len() && 0 <= j < pdata_of(src, image, base, size)[i].regions.len()
                ==> lies_in(
                #[trigger] pdata_of(src, image, base, size)[i].regions[j],
                pdata_of(src, image, base, size)[i].start.0,
                pdata_of(src, image, base, size)[i].end.0,
            ),
{
    match src.read_of(base, window(size)) {
        Some(table) => {
            lemma_entries_inside(src, image, table, 0, MAX_RECORDS as nat);
        },
        None => {},
    }
}

// ---------------------------------------------------------------------------
// What the records mean
// ---------------------------------------------------------------------------

/// Where the data of letter `j` of an augmentation lies, if that of letter `k` lies at
/// `p`: the encodings of pointers take a byte each, the personality a byte and the
/// pointer behind it, and other letters nothing.
pub open spec fn letter_data(b: Seq<u8>, aug: Seq<u8>, k: int, p: int, j: int) -> int
    decreases j - k,
{
    if k >= j {
        p
    } else if aug[k] == 'R' as u8 || aug[k] == 'L' as u8 {
        letter_data(b, aug, k + 1, p + 1, j)
    } else if aug[k] == 'P' as u8 {
        letter_data(b, aug, k + 1, encoded_at(b, p + 1, b[p] % 128, 0).1, j)
    } else {
        letter_data(b, aug, k + 1, p, j)
    }
}

proof fn lemma_letters(b: Seq<u8>, aug: Seq<u8>, k: int, p: int, fde: u8, lsda: u8, j: int)
    requires
        0 <= k,
        0 <= p,
        aug_from(b, aug, k, p, fde, lsda) is Some,
    ensures
        ({
            let (f, l) = aug_from(b, aug, k, p, fde, lsda)->0;
            &&& (forall|i: int| k <= i < aug.len() ==> #[trigger] aug[i] != 'R' as u8) ==> f == fde
            &&& (forall|i: int| k <= i < aug.len() ==> #[trigger] aug[i] != 'L' as u8) ==> l == lsda
            &&& k <= j < aug.len() && aug[j] == 'R' as u8 && (forall|i: int|
                j < i < aug.len() ==> #[trigger] aug[i] != 'R' as u8) ==> 0 <= letter_data(b, aug, k, p, j) < b.len() && f
                == b[letter_data(b, aug, k, p, j)]
            &&& k <= j < aug.len() && aug[j] == 'L' as u8 && (forall|i: int|
                j < i < aug.len() ==> #[trigger] aug[i] != 'L' as u8) ==> 0 <= letter_data(b, aug, k, p, j) < b.len() && l
                == b[letter_data(b, aug, k, p, j)]
        }),
    decreases aug.len() - k,
{
    if k < aug.len() {
        if aug[k] == 0x52 {
            lemma_letters(b, aug, k + 1, p + 1, b[p], lsda, j);
        } else if aug[k] == 0x4c {
            lemma_letters(b, aug, k + 1, p + 1, fde, b[p], j);
        } else if aug[k] == 0x50 {
            let (v, r) = encoded_at(b, p + 1, b[p] % 128, 0);
            lemma_encoded_inside(b, p + 1, b[p] % 128, 0);
            lemma_letters(b, aug, k + 1, r, fde, lsda, j);
        } else {
            lemma_letters(b, aug, k + 1, p, fde, lsda, j);
        }
    }
}

/// In a common record whose augmentation begins with `z`, the byte of the letter `R` is
/// the encoding of the pointers of its frames, and that of the letter `L` is the encoding
/// of the pointers to their language-specific data. Without an `R` pointers are
/// absolute, and without an `L` there are no such pointers.
///
/// The record is one as compilers write it, whose factors, return register and length
/// take a byte each.
pub proof fn augmentations_say_how_pointers_are_written(b: Seq<u8>, aug: Seq<u8>, j: int)
    requires
        aug.len() > 0,
        aug[0] == 'z' as u8,
        forall|i: int| 0 <= i < aug.len() ==> #[trigger] aug[i] != 0,
        10 + aug.len() <= b.len(),
        le(b, 0, 4) == 0,
        b[4] == 1 || b[4] == 3,
        b.subrange(5, 5 + aug.len() as int) == aug,
        b[5 + aug.len() as int] == 0,
        forall|i: int| 6 + aug.len() <= i < 10 + aug.len() ==> #[trigger] b[i] < 128,
        cie_of(b) is Some,
    ensures
        ({
            let c = cie_of(b)->0;
            let p = (10 + aug.len()) as int;
            &&& c.has_z
            &&& (forall|i: int| 1 <= i < aug.len() ==> #[trigger] aug[i] != 'R' as u8) ==> c.fde_enc == 0
            &&& (forall|i: int| 1 <= i < aug.len() ==> #[trigger] aug[i] != 'L' as u8) ==> c.lsda_enc == 0xff
            &&& 1 <= j < aug.len() && aug[j] == 'R' as u8 && (forall|i: int|
                j < i < aug.len() ==> #[trigger] aug[i] != 'R' as u8) ==> c.fde_enc == b[letter_data(b, aug, 1, p, j)]
            &&& 1 <= j < aug.len() && aug[j] == 'L' as u8 && (forall|i: int|
                j < i < aug.len() ==> #[trigger] aug[i] != 'L' as u8) ==> c.lsda_enc == b[letter_data(b, aug, 1, p, j)]
        }),
{
    let z = (5 + aug.len()) as int;
    assert forall|i: int| 5 <= i < z implies #[trigger] b[i] != 0 by {
        assert(b.subrange(5, 5 + aug.len() as int)[i - 5] == aug[i - 5]);
    }
    crate::bytes::texts_end_at_the_first_zero(b, 5, z);
    assert(b.subrange(5, z) =~= aug);
    let p = z + 5;
    lemma_one_byte(b, z + 1);
    lemma_one_byte(b, z + 2);
    lemma_one_byte(b, z + 3);
    lemma_one_byte(b, z + 4);
    lemma_letters(b, aug, 1, p, 0, DW_EH_PE_OMIT, j);
}

proof fn lemma_one_byte(b: Seq<u8>, p: int)
    requires
        0 <= p < b.len(),
        b[p] < 128,
    ensures
        uleb_at(b, p) == Some((b[p] as u64, p + 1)),
        sleb_at(b, p) == Some(
            (
                if b[p] < 64 {
                    b[p] as u64
                } else {
                    (b[p] + 0x1_0000_0000_0000_0000 - 128) as u64
                },
                p + 1,
            ),
        ),
{
    assert(pow(128, 0) == 1 && pow(128, 1) == 128) by {
        reveal(pow);
        reveal_with_fuel(pow, 3);
    }
    assert(leb_len(b, p, 0) == Some(1nat));
    assert(leb_sum(b, p, 0) == 0);
    assert(leb_sum(b, p, 1) == b[p]) by {
        assert((b[p] % 128) as nat * pow(128, 0) as nat == b[p] as nat) by (nonlinear_arith)
            requires
                pow(128, 0) == 1,
                b[p] % 128 == b[p],
        ;
    }
    vstd::arithmetic::div_mod::lemma_small_mod(b[p] as nat, two64() as nat);
    assert(b[p + 1nat - 1] == b[p]);
    assert(leb_sum(b, p, 1nat) + two64() - pow(128, 1nat) == b[p] + 0x1_0000_0000_0000_0000 - 128);
}

/// A variable-length number of one byte is that byte; with a sign it is negative from
/// 64 on.
pub proof fn short_numbers_are_their_byte(b: Seq<u8>, p: int)
    requires
        0 <= p < b.len(),
        b[p] < 128,
    ensures
        uleb_at(b, p) == Some((b[p] as u64, p + 1)),
        sleb_at(b, p) matches Some((v, q)) && q == p + 1 && v as int == (if b[p] < 64 {
            b[p] as int
        } else {
            b[p] - 128
        }) % 0x1_0000_0000_0000_0000,
{
    lemma_one_byte(b, p);
}

/// A number of up to nine bytes has the sign that the second bit of its last byte
/// gives: it is what its low bits spell, less 128 to the power of their number where
/// it is negative.
pub proof fn long_numbers_have_a_sign(b: Seq<u8>, p: int, n: nat)
    requires
        leb_len(b, p, 0) == Some(n),
        n <= 9,
        0 <= p,
    ensures
        sleb_at(b, p) matches Some((v, q)) && q == p + n && v as int == (if b[p + n - 1] % 128 >= 64 {
            leb_sum(b, p, n) - pow(128, n)
        } else {
            leb_sum(b, p, n) as int
        }) % 0x1_0000_0000_0000_0000,
{
    lemma_leb_sum_bound(b, p, n);
    assert(pow(128, 9) == 0x8000_0000_0000_0000) by {
        reveal(pow);
        reveal_with_fuel(pow, 11);
    }
    vstd::arithmetic::power::lemma_pow_increases(128, n, 9);
    let s = leb_sum(b, p, n) as int;
    let c = pow(128, n);
    vstd::arithmetic::power::lemma_pow_positive(128, n);
    if b[p + n - 1] % 128 >= 64 {
        assert((s - c) % 0x1_0000_0000_0000_0000 == s - c + 0x1_0000_0000_0000_0000);
    }
}

/// A pointer of fixed size is the number that its bytes spell, lowest first; formats
/// with a sign are negative in their upper half. An absolute pointer is that number, and
/// a relative one that far from its own place. The encoding 0xff stands for no pointer,
/// and any other application is refused.
pub proof fn pointers_are_absolute_or_relative(b: Seq<u8>, p: int, enc: u8, here: u64)
    requires
        0 <= p,
        p + 8 <= b.len(),
    ensures
        ({
            let (v, q) = encoded_at(b, p, enc, here);
            let f = enc % 16;
            let n = if f == 0 || f == 4 || f == 0xc {
                8int
            } else if f == 3 || f == 0xb {
                4int
            } else {
                2int
            };
            let raw = le(b, p, n as nat) as int;
            let signed = if f == 0xb && raw >= 0x8000_0000 {
                raw - 0x1_0000_0000
            } else if f == 0xa && raw >= 0x8000 {
                raw - 0x1_0000
            } else {
                raw
            };
            let fixed = f == 0 || f == 2 || f == 3 || f == 4 || f == 0xa || f == 0xb || f == 0xc;
            &&& enc == 0xff ==> v is None && q == p
            &&& fixed ==> q == p + n
            &&& fixed && enc / 16 == 0 ==> v is Some && v->0 as int == signed % 0x1_0000_0000_0000_0000
            &&& fixed && enc / 16 == 1 ==> v is Some && v->0 as int == (here + signed) % 0x1_0000_0000_0000_0000
            &&& enc / 16 >= 2 ==> v is None
        }),
{
    crate::bytes::lemma_le_bound(b, p, 2);
    crate::bytes::lemma_le_bound(b, p, 4);
    crate::bytes::lemma_le_bound(b, p, 8);
    assert(pow(256, 2) == 0x1_0000 && pow(256, 4) == 0x1_0000_0000 && pow(256, 8) == 0x1_0000_0000_0000_0000) by {
        reveal(pow);
        reveal_with_fuel(pow, 10);
    }
}

/// A call site that has a landing pad protects the bytes of its range, counted from the
/// start of the function, and leads to its pad, counted from the base of the pads. One
/// without a pad leads nowhere. The sites behind it follow.
pub proof fn call_sites_protect_their_range(
    b: Seq<u8>,
    addr: u64,
    func: u64,
    lp_start: u64,
    end: int,
    p: int,
    left: nat,
    start: u64,
    range: u64,
    pad: u64,
)
    requires
        0 <= p < end,
        p + 16 <= b.len(),
        left > 0,
        addr + b.len() <= u64::MAX,
        le(b, p, 4) == start,
        le(b, p + 4, 4) == range,
        le(b, p + 8, 4) == pad,
        b[p + 12] < 128,
        func + start + range <= u64::MAX,
        lp_start + pad <= u64::MAX,
    ensures
        ({
            let rest = sites_from(b, addr, func, lp_start, 3, end, p + 13, (left - 1) as nat);
            let all = sites_from(b, addr, func, lp_start, 3, end, p, left);
            &&& pad == 0 ==> all == rest
            &&& pad != 0 ==> {
                &&& all.len() == rest.len() + 1
                &&& all.skip(1) == rest
                &&& all[0].try_start.0 == func + start
                &&& all[0].try_end.0 == func + start + range
                &&& all[0].landing_pad.0 == lp_start + pad
            }
        }),
{
    lemma_one_byte(b, p + 12);
    let rest = sites_from(b, addr, func, lp_start, 3, end, p + 13, (left - 1) as nat);
    let all = sites_from(b, addr, func, lp_start, 3, end, p, left);
    if pad != 0 {
        assert(all.skip(1) =~= rest);
    }
}

/// Language-specific data without a base for its pads counts them from the start of the
/// function; otherwise from the base that it states.
pub proof fn pads_count_from_the_function_or_the_stated_base(b: Seq<u8>, addr: u64, func: u64)
    requires
        b.len() >= 10,
        addr + b.len() <= u64::MAX,
    ensures
        b[0] == 0xff ==> lsda_of(b, addr, func) == table_at(b, addr, func, func, 1),
        b[0] == 0 ==> lsda_of(b, addr, func) == table_at(b, addr, func, le(b, 1, 8) as u64, 9),
        b[0] == 0x1b ==> lsda_of(b, addr, func) == table_at(
            b,
            addr,
            func,
            encoded_at(b, 1, 0x1b, (addr + 1) as u64).0->0,
            5,
        ),
{
}

/// A frame record describes the function from the address that it states, as long as it
/// states; a length is a plain number in the format of the addresses.
pub proof fn frames_say_where_functions_lie(src: Snapshot, content: Seq<u8>, at: int, cie: Cie)
    requires
        content.len() >= 20,
        0 <= at,
        at + content.len() <= u64::MAX,
    ensures
        cie.fde_enc == 0x1b ==> {
            let f = fde_of(src, content, at, cie);
            let rel = le(content, 4, 4) as int;
            let far = if rel >= 0x8000_0000 {
                rel - 0x1_0000_0000
            } else {
                rel
            };
            let start = (at + 4 + far) % 0x1_0000_0000_0000_0000;
            let len = le(content, 8, 4) as int;
            &&& f is Some
            &&& f->0.start.0 as int == start
            &&& len < 0x8000_0000 && start + len <= u64::MAX ==> f->0.end.0 == start + len
        },
        cie.fde_enc == 0 ==> {
            let f = fde_of(src, content, at, cie);
            let start = le(content, 4, 8) as int;
            let len = le(content, 12, 8) as int;
            &&& f is Some
            &&& f->0.start.0 as int == start
            &&& start + len <= u64::MAX ==> f->0.end.0 == start + len
        },
{
    if cie.fde_enc == 0x1b {
        pointers_are_absolute_or_relative(content, 4, 0x1b, (at + 4) as u64);
        pointers_are_absolute_or_relative(content, 8, 0x0b, 0);
    }
    if cie.fde_enc == 0 {
        crate::bytes::lemma_le_bound(content, 4, 8);
        crate::bytes::lemma_le_bound(content, 12, 8);
        assert(pow(256, 8) == 0x1_0000_0000_0000_0000) by {
            reveal(pow);
            reveal_with_fuel(pow, 10);
        }
        pointers_are_absolute_or_relative(content, 4, 0, (at + 4) as u64);
        pointers_are_absolute_or_relative(content, 12, 0, 0);
    }
}

/// The language-specific data of a frame lies where the frame states it, behind the
/// length of its augmentation data, if its common record says that there is any.
pub proof fn frames_say_where_their_data_lies(content: Seq<u8>, p: int, at: int, cie: Cie)
    requires
        0 <= p,
        p + 9 <= content.len(),
        content[p] < 128,
        0 <= at,
        at + content.len() <= u64::MAX,
    ensures
        !cie.has_z || cie.lsda_enc == 0xff ==> lsda_field(content, p, at, cie) is None,
        cie.has_z && cie.lsda_enc != 0xff ==> lsda_field(content, p, at, cie) == encoded_at(
            content,
            p + 1,
            cie.lsda_enc,
            (at + p + 1) as u64,
        ).0,
{
    lemma_one_byte(content, p);
}

/// A record whose number is zero is a common record; any other belongs to the common
/// record that starts as far before its number as the number says. A length of zero
/// ends the section.
pub proof fn frames_name_their_common_record(
    src: Snapshot,
    sec: Seq<u8>,
    base: int,
    off: int,
    cies: Map<u64, Cie>,
    left: nat,
)
    requires
        0 <= off,
        off + 8 <= sec.len(),
        left > 0,
    ensures
        ({
            let n = le(sec, off, 4) as int;
            let id = le(sec, off + 4, 4) as int;
            let all = records_from(src, sec, base, off, cies, left);
            let content = sec.subrange(off + 4, off + 4 + n);
            let next = off + 4 + n;
            &&& n == 0 ==> all.len() == 0
            &&& 4 <= n && n != 0xffff_ffff && next <= sec.len() && id == 0 && cie_of(content) is Some ==> all
                == records_from(src, sec, base, next, cies.insert(off as u64, cie_of(content)->0), (left - 1) as nat)
            &&& 4 <= n && n != 0xffff_ffff && next <= sec.len() && 0 < id <= off + 4 && off + 4 <= u64::MAX
                && cies.contains_key((off + 4 - id) as u64) && fde_of(
                src,
                content,
                base + off + 4,
                cies[(off + 4 - id) as u64],
            ) is Some ==> all.len() > 0 && all[0] == fde_of(
                src,
                content,
                base + off + 4,
                cies[(off + 4 - id) as u64],
            )->0 && all.skip(1) == records_from(src, sec, base, next, cies, (left - 1) as nat)
        }),
{
    let n = le(sec, off, 4) as int;
    let next = off + 4 + n;
    if 4 <= n && n != 0xffff_ffff && next <= sec.len() {
        let content = sec.subrange(off + 4, next);
        assert(le(content, 0, 4) == le(sec, off + 4, 4)) by {
            reveal_with_fuel(le, 5);
            assert(content[0] == sec[off + 4] && content[1] == sec[off + 5] && content[2] == sec[off + 6] && content[3]
                == sec[off + 7]);
        }
        let id = le(sec, off + 4, 4) as int;
        if 0 < id <= off + 4 && cies.contains_key((off + 4 - id) as u64) {
            let all = records_from(src, sec, base, off, cies, left);
            let rest = records_from(src, sec, base, next, cies, (left - 1) as nat);
            match fde_of(src, content, base + off + 4, cies[(off + 4 - id) as u64]) {
                Some(f) => {
                    assert(all =~= seq![f] + rest);
                    assert(all.skip(1) =~= rest);
                },
                None => {},
            }
        }
    }
}

/// A scope protects its range and leads to the body of its handler, if it states one,
/// and otherwise to its routine, unless that is just a marker; it is then no edge.
pub proof fn scopes_lead_to_their_handlers(image: u64, body: Seq<u8>, n: int)
    requires
        n > 0,
        image + 0xffff_ffff <= u64::MAX,
    ensures
        ({
            let done = scopes_of(image, body, n - 1);
            let all = scopes_of(image, body, n);
            let at = 16 * (n - 1);
            let handler = le(body, at + 8, 4);
            let jump = le(body, at + 12, 4);
            &&& jump == 0 && handler <= 1 ==> all == done
            &&& jump != 0 || handler > 1 ==> {
                &&& all.drop_last() == done
                &&& all.last().try_start.0 == image + le(body, at, 4)
                &&& all.last().try_end.0 == image + le(body, at + 4, 4)
                &&& jump != 0 ==> all.last().landing_pad.0 == image + jump
                &&& jump == 0 ==> all.last().landing_pad.0 == image + handler
            }
        }),
{
    let at = 16 * (n - 1);
    lemma_word_fits(body, at);
    lemma_word_fits(body, at + 4);
    lemma_word_fits(body, at + 8);
    lemma_word_fits(body, at + 12);
    let done = scopes_of(image, body, n - 1);
    let all = scopes_of(image, body, n);
    if le(body, at + 12, 4) != 0 || le(body, at + 8, 4) > 1 {
        assert(all.drop_last() =~= done);
    }
}

proof fn lemma_word_fits(b: Seq<u8>, p: int)
    ensures
        le(b, p, 4) <= 0xffff_ffff,
        word(b, p) == le(b, p, 4),
{
    crate::bytes::lemma_le_bound(b, p, 4);
    assert(pow(256, 4) == 0x1_0000_0000) by {
        reveal(pow);
        reveal_with_fuel(pow, 6);
    }
}

/// Each range of a try block leads to each of its catches, and to nothing else.
pub proof fn ranges_lead_to_every_catch(image: u64, runs: Seq<Run>, pads: Seq<u64>, r: EhRegion)
    ensures
        pairs_of(image, runs, pads).len() == runs.len() * pads.len(),
        pairs_of(image, runs, pads).contains(r) <==> exists|i: int, j: int|
            #![trigger runs[i], pads[j]]
            0 <= i < runs.len() && 0 <= j < pads.len() && r.try_start.0 == sat_add(image, runs[i].start) && r.try_end.0
                == sat_add(image, runs[i].end) && r.landing_pad.0 == sat_add(image, pads[j]),
    decreases runs.len(),
{
    let all = pairs_of(image, runs, pads);
    if runs.len() == 0 {
        assert(0 * pads.len() == 0) by (nonlinear_arith);
    } else {
        let before = pairs_of(image, runs.drop_last(), pads);
        let last = Seq::new(pads.len(), |j: int| region_of(image, runs.last(), pads[j]));
        ranges_lead_to_every_catch(image, runs.drop_last(), pads, r);
        assert((runs.len() - 1) * pads.len() + pads.len() == runs.len() * pads.len()) by (nonlinear_arith);
        let found = exists|i: int, j: int|
            #![trigger runs[i], pads[j]]
            0 <= i < runs.len() && 0 <= j < pads.len() && r.try_start.0 == sat_add(image, runs[i].start) && r.try_end.0
                == sat_add(image, runs[i].end) && r.landing_pad.0 == sat_add(image, pads[j]);
        if all.contains(r) {
            let k = choose|k: int| 0 <= k < all.len() && all[k] == r;
            if k < before.len() {
                assert(before[k] == r);
                assert(before.contains(r));
                let (i, j) = choose|i: int, j: int|
                    #![trigger runs.drop_last()[i], pads[j]]
                    0 <= i < runs.drop_last().len() && 0 <= j < pads.len() && r.try_start.0 == sat_add(
                        image,
                        runs.drop_last()[i].start,
                    ) && r.try_end.0 == sat_add(image, runs.drop_last()[i].end) && r.landing_pad.0 == sat_add(
                        image,
                        pads[j],
                    );
                assert(runs[i] == runs.drop_last()[i]);
                assert(pads[j] == pads[j]);
                assert(found);
            } else {
                let j = k - before.len();
                assert(last[j] == r);
                let i = runs.len() - 1;
                assert(runs[i] == runs.last());
                assert(r.landing_pad.0 == sat_add(image, pads[j]));
                assert(found);
            }
        }
        if found {
            let (i, j) = choose|i: int, j: int|
                #![trigger runs[i], pads[j]]
                0 <= i < runs.len() && 0 <= j < pads.len() && r.try_start.0 == sat_add(image, runs[i].start) && r.try_end.0
                    == sat_add(image, runs[i].end) && r.landing_pad.0 == sat_add(image, pads[j]);
            if i < runs.len() - 1 {
                assert(runs.drop_last()[i] == runs[i]);
                assert(pads[j] == pads[j]);
                assert(before.contains(r));
                let k = choose|k: int| 0 <= k < before.len() && before[k] == r;
                assert(all[k] == r);
            } else {
                assert(last[j] == region_of(image, runs.last(), pads[j]));
                assert(last[j] == r);
                assert(all[before.len() + j] == r);
            }
        }
    }
}

/// An entry of the function table describes the function from its beginning to its end,
/// both counted from the image; an entry that ends before it begins is passed over, and
/// one that is all zero ends the table.
pub proof fn table_entries_describe_functions(src: Snapshot, image: u64, table: Seq<u8>, p: int, left: nat)
    requires
        0 <= p,
        p + 12 <= table.len(),
        left > 0,
        image + 0xffff_ffff <= u64::MAX,
    ensures
        ({
            let begin = le(table, p, 4);
            let end = le(table, p + 4, 4);
            let unwind = le(table, p + 8, 4);
            let rest = entries_from(src, image, table, p + 12, (left - 1) as nat);
            let all = entries_from(src, image, table, p, left);
            &&& begin == 0 && end == 0 && unwind == 0 ==> all.len() == 0
            &&& end <= begin && !(begin == 0 && end == 0 && unwind == 0) ==> all == rest
            &&& begin < end ==> all.len() == rest.len() + 1 && all.skip(1) == rest && all[0].start.0 == image + begin
                && all[0].end.0 == image + end
        }),
{
    lemma_word_fits(table, p);
    lemma_word_fits(table, p + 4);
    lemma_word_fits(table, p + 8);
    let rest = entries_from(src, image, table, p + 12, (left - 1) as nat);
    let all = entries_from(src, image, table, p, left);
    if le(table, p, 4) < le(table, p + 4, 4) {
        assert(all.skip(1) =~= rest);
    }
}

/// Unwind information that is chained, or has neither an exception nor a termination
/// handler, or is of another version than the first two, describes no protected range.
pub proof fn only_handlers_protect(src: Snapshot, image: u64, unwind: u64)
    ensures
        whole(src, image, unwind, 4) matches Some(h) ==> {
            let version = h[0] % 8;
            let exception = (h[0] / 8) % 2 == 1;
            let termination = (h[0] / 16) % 2 == 1;
            let chained = (h[0] / 32) % 2 == 1;
            version == 0 || version > 2 || chained || !(exception || termination) ==> pe_regions_of(src, image, unwind)
                == Seq::<EhRegion>::empty()
        },
{
}

/// The address is a landing pad exactly where some region of some function leads to it.
pub proof fn pads_are_where_regions_lead(functions: Seq<EhFunction>, i: int, j: int)
    requires
        0 <= i < functions.len(),
        0 <= j < functions[i].regions@.len(),
    ensures
        is_pad(functions, functions[i].regions@[j].landing_pad.0),
{
}

/// A map from addresses to states has eight bytes for each: the address and the state,
/// which has a sign; it counts only where every address is code, and goes by address.
pub proof fn states_have_an_address_and_a_number(src: Snapshot, image: u64, ips: Seq<u8>, n: nat, i: int)
    requires
        0 <= i < n,
    ensures
        state_at(ips, i).ip == le(ips, 8 * i, 4),
        le(ips, 8 * i + 4, 4) < 0x8000_0000 ==> state_at(ips, i).state == le(ips, 8 * i + 4, 4),
        le(ips, 8 * i + 4, 4) >= 0x8000_0000 ==> state_at(ips, i).state == le(ips, 8 * i + 4, 4) - 0x1_0000_0000,
        states_of(src, image, ips, n) is Some ==> src.is_code_at(sat_add(image, state_at(ips, i).ip)),
        states_of(src, image, ips, n) matches Some(s) ==> s.len() == n && (forall|a: int, b: int|
            0 <= a < b < s.len() ==> (#[trigger] s[a]).ip <= (#[trigger] s[b]).ip),
{
    lemma_word_fits(ips, 8 * i);
    lemma_word_fits(ips, 8 * i + 4);
    let all = Seq::new(n, |i: int| state_at(ips, i));
    crate::order::sorting_permutes(all);
    all.to_multiset_ensures();
    stable(all).to_multiset_ensures();
    match states_of(src, image, ips, n) {
        Some(s) => {
            assert forall|a: int, b: int| 0 <= a < b < s.len() implies (#[trigger] s[a]).ip <= (#[trigger] s[b]).ip by {
                assert(s[a].at_most(s[b]));
            }
        },
        None => {},
    }
}

/// A catch leads to the address in the fourth number of its entry.
pub proof fn catches_lead_to_their_address(src: Snapshot, image: u64, hs: Seq<u8>, n: nat, i: int)
    requires
        0 <= i < n,
    ensures
        pads_of(src, image, hs, n) matches Some(p) ==> p.len() == n && p[i] == le(hs, 20 * i + 12, 4) && p[i] != 0
            && src.is_code_at(sat_add(image, p[i])),
{
    lemma_word_fits(hs, 20 * i + 12);
    if pads_of(src, image, hs, n) is Some {
        assert(word(hs, 20 * i + 12) != 0);
    }
}

/// A try block is a range of states, the number of its catches and where they stand; each
/// run of addresses in those states leads to each catch.
pub proof fn try_blocks_protect_their_states(
    src: Snapshot,
    image: u64,
    states: Seq<IpState>,
    blocks: Seq<u8>,
    i: int,
    hs: Seq<u8>,
    pads: Seq<u64>,
)
    requires
        0 <= i,
        le(blocks, 20 * i, 4) <= le(blocks, 20 * i + 4, 4) < 0x8000_0000,
        0 < le(blocks, 20 * i + 12, 4) <= 16,
        whole(src, image, le(blocks, 20 * i + 16, 4) as u64, 20 * le(blocks, 20 * i + 12, 4)) == Some(hs),
        pads_of(src, image, hs, le(blocks, 20 * i + 12, 4)) == Some(pads),
        MAX_CATCHES >= 16,
    ensures
        block_of(src, image, states, blocks, i) == Some(
            pairs_of(
                image,
                runs_of(
                    states,
                    le(blocks, 20 * i, 4) as i32,
                    le(blocks, 20 * i + 4, 4) as i32,
                    states.len() - 1,
                ),
                pads,
            ),
        ),
{
    lemma_word_fits(blocks, 20 * i);
    lemma_word_fits(blocks, 20 * i + 4);
    lemma_word_fits(blocks, 20 * i + 12);
    lemma_word_fits(blocks, 20 * i + 16);
}

/// The handler's data stands behind the unwind codes, of which there are two bytes each
/// and an even number; its second number is where a C++ description stands, if one does
/// there, and else the number of scopes that follow.
pub proof fn handler_data_stands_behind_the_codes(src: Snapshot, image: u64, unwind: u64, head: Seq<u8>, d: Seq<u8>)
    requires
        whole(src, image, unwind, 4) == Some(head),
        head[0] % 8 == 1,
        (head[0] / 8) % 4 != 0,
        (head[0] / 32) % 2 == 0,
        unwind <= 0xffff_ffff,
        whole(
            src,
            image,
            (unwind + 4 + (if head[2] % 2 == 0 {
                2 * head[2]
            } else {
                2 * head[2] + 2
            })) as u64,
            8,
        ) == Some(d),
    ensures
        ({
            let first = le(d, 4, 4) as u64;
            &&& is_cxx(src, image, first) ==> pe_regions_of(src, image, unwind) == cxx_of(src, image, first)
            &&& !is_cxx(src, image, first) && first == 0 ==> pe_regions_of(src, image, unwind).len() == 0
        }),
{
    lemma_word_fits(d, 4);
}

/// An entry of the function table has the ranges of its unwind information that lie in
/// its own bytes, and no others.
pub proof fn entries_have_the_ranges_in_their_bytes(src: Snapshot, image: u64, begin: u64, end: u64, unwind: u64, r: EhRegion)
    ensures
        entry_of(src, image, begin, end, unwind).regions.contains(r) <==> pe_regions_of(src, image, unwind).contains(r) && sat_add(
            image,
            begin,
        ) <= r.try_start.0 && r.try_end.0 <= sat_add(image, end),
{
    let all = pe_regions_of(src, image, unwind);
    let f = |r: EhRegion| lies_in(r, sat_add(image, begin), sat_add(image, end));
    if all.contains(r) && f(r) {
        let i = choose|i: int| 0 <= i < all.len() && all[i] == r;
        all.lemma_filter_contains(f, i);
    }
    if all.filter(f).contains(r) {
        let j = choose|j: int| 0 <= j < all.filter(f).len() && all.filter(f)[j] == r;
        all.lemma_filter_pred(f, j);
        lemma_filtered_from(all, f, j);
    }
}

proof fn lemma_filtered_from(s: Seq<EhRegion>, f: spec_fn(EhRegion) -> bool, j: int)
    requires
        0 <= j < s.filter(f).len(),
    ensures
        s.contains(s.filter(f)[j]),
    decreases s.len(),
{
    reveal(Seq::filter);
    let n = s.drop_last();
    if j < n.filter(f).len() {
        lemma_filtered_from(n, f, j);
        let x = n.filter(f)[j];
        let i = choose|i: int| 0 <= i < n.len() && n[i] == x;
        assert(s[i] == x);
    } else {
        assert(s[s.len() - 1] == s.last());
    }
}

} // verus!
