//! Byte-addressed memory: written bytes win, and the rest is read from an image.

use std::collections::{BTreeSet, HashMap};
use vstd::arithmetic::power::pow;
use vstd::prelude::*;

use crate::bytes::{le, lemma_le_bound};
use crate::source::Snapshot;
use crate::va::{wrap_add, Va};

verus! {

broadcast use {
    vstd::laws_cmp::group_laws_cmp,
    vstd::set::group_set_axioms,
    vstd::std_specs::btree::group_btree_axioms,
    vstd::std_specs::hash::group_hash_axioms,
};

/// How many bytes an access of so many bits has: at least one, at most sixteen.
pub open spec fn span(bits: u32) -> nat {
    if bits < 8 {
        1
    } else if bits >= 128 {
        16
    } else {
        (bits / 8) as nat
    }
}

pub fn span_of(bits: u32) -> (n: u64)
    ensures
        n == span(bits),
        1 <= n <= 16,
{
    if bits < 8 {
        1
    } else if bits >= 128 {
        16
    } else {
        (bits / 8) as u64
    }
}

/// How far `a` lies above `addr`, going round at the end of the address space.
pub open spec fn distance(addr: u64, a: u64) -> int {
    if a >= addr {
        a - addr
    } else {
        a + 0x1_0000_0000_0000_0000 - addr
    }
}

/// The byte of `v` with weight 256 to the power `i`.
pub open spec fn byte_of(v: u128, i: nat) -> u8 {
    ((v as int / pow(256, i)) % 256) as u8
}

/// Memory after the low `n` bytes of `v` have been written at `addr`.
pub open spec fn stored(written: Map<u64, u8>, addr: u64, v: u128, n: nat) -> Map<u64, u8> {
    Map::new(
        |a: u64| written.contains_key(a) || distance(addr, a) < n,
        |a: u64|
            if distance(addr, a) < n {
                byte_of(v, distance(addr, a) as nat)
            } else {
                written[a]
            },
    )
}

/// The addresses seen, after an access of `n` bytes at `addr`.
pub open spec fn touching(touched: Set<u64>, addr: u64, n: nat) -> Set<u64> {
    Set::new(|a: u64| touched.contains(a) || distance(addr, a) < n)
}

/// The byte `i` behind `addr`: the one that was written there, or else the one
/// that the image holds there.
pub open spec fn byte_seen(backing: Option<Snapshot>, written: Map<u64, u8>, addr: u64, i: int) -> Option<u8> {
    let a = wrap_add(addr, i as u64);
    if written.contains_key(a) {
        Some(written[a])
    } else {
        match backing {
            Some(src) => match src.read_of(a, 1) {
                Some(b) => if b.len() > 0 {
                    Some(b[0])
                } else {
                    None
                },
                None => None,
            },
            None => None,
        }
    }
}

/// The number that an access of so many bits reads, where every byte is known.
pub open spec fn loaded(backing: Option<Snapshot>, written: Map<u64, u8>, addr: u64, bits: u32) -> Option<u128> {
    let n = span(bits);
    if forall|i: int| 0 <= i < n ==> (#[trigger] byte_seen(backing, written, addr, i)) is Some {
        Some(le(Seq::new(n, |i: int| byte_seen(backing, written, addr, i)->0), 0, n) as u128)
    } else {
        None
    }
}

/// Memory, and the addresses that were read or written.
pub struct Memory {
    pub written: HashMap<u64, u8>,
    pub touched: BTreeSet<u64>,
}

proof fn lemma_distance(addr: u64, i: u64)
    requires
        i < 16,
    ensures
        distance(addr, wrap_add(addr, i)) == i,
        forall|a: u64| #[trigger] distance(addr, a) == i ==> a == wrap_add(addr, i),
{
}

proof fn lemma_pow256(n: nat)
    requires
        n <= 16,
    ensures
        1 <= pow(256, n) <= u128::MAX + 1,
        n > 0 ==> pow(256, n) == 256 * pow(256, (n - 1) as nat),
        n < 16 ==> pow(256, n) <= u128::MAX,
{
    reveal(pow);
    reveal_with_fuel(pow, 17);
}

impl Memory {
    pub fn new() -> (m: Memory)
        ensures
            m.written@ == Map::<u64, u8>::empty(),
            m.touched@ == Set::<u64>::empty(),
    {
        Memory { written: HashMap::new(), touched: BTreeSet::new() }
    }

    fn touch(&mut self, addr: u64, n: u64)
        requires
            n <= 16,
        ensures
            final(self).written@ == old(self).written@,
            final(self).touched@ == touching(old(self).touched@, addr, n as nat),
    {
        let mut i: u64 = 0;
        proof {
            assert(self.touched@ =~= touching(old(self).touched@, addr, 0));
        }
        while i < n
            invariant
                i <= n <= 16,
                self.written@ == old(self).written@,
                self.touched@ == touching(old(self).touched@, addr, i as nat),
            decreases n - i,
        {
            let ghost before = self.touched@;
            let a: u64 = addr.wrapping_add(i);
            self.touched.insert(a);
            proof {
                lemma_distance(addr, i);
                let now = touching(old(self).touched@, addr, (i + 1) as nat);
                assert forall|x: u64| #[trigger] self.touched@.contains(x) <==> now.contains(x) by {
                    assert(self.touched@.contains(x) <==> before.contains(x) || x == a);
                    if distance(addr, x) == i {
                        assert(x == a);
                    }
                }
                assert(self.touched@ =~= now);
            }
            i = i + 1;
        }
    }

    /// Writes the low bytes of `value`.
    pub fn write(&mut self, addr: u64, value: u128, bits: u32)
        ensures
            final(self).written@ == stored(old(self).written@, addr, value, span(bits)),
            final(self).touched@ == touching(old(self).touched@, addr, span(bits)),
    {
        self.touch(addr, span_of(bits));
        self.plant(addr, value, bits);
    }

    /// Puts the low bytes of `value` in place, as nobody's access.
    pub fn plant(&mut self, addr: u64, value: u128, bits: u32)
        ensures
            final(self).written@ == stored(old(self).written@, addr, value, span(bits)),
            final(self).touched@ == old(self).touched@,
    {
        let n: u64 = span_of(bits);
        let mut rest: u128 = value;
        let mut i: u64 = 0;
        proof {
            lemma_pow256(0);
            assert(self.written@ =~= stored(old(self).written@, addr, value, 0));
            assert(value as int / 1 == value);
            assert(pow(256, 0) == 1) by {
                reveal(pow);
            }
        }
        while i < n
            invariant
                i <= n <= 16,
                self.touched@ == old(self).touched@,
                self.written@ == stored(old(self).written@, addr, value, i as nat),
                rest == value as int / pow(256, i as nat),
            decreases n - i,
        {
            let a: u64 = addr.wrapping_add(i);
            let ghost before = self.written@;
            let b: u8 = (rest % 256) as u8;
            self.written.insert(a, b);
            proof {
                lemma_distance(addr, i);
                lemma_pow256((i + 1) as nat);
                lemma_pow256(i as nat);
                vstd::arithmetic::div_mod::lemma_div_denominator(value as int, pow(256, i as nat), 256);
                assert(256 * pow(256, i as nat) == pow(256, i as nat) * 256) by (nonlinear_arith);
                assert(byte_of(value, i as nat) == b);
                let now = stored(old(self).written@, addr, value, (i + 1) as nat);
                assert forall|x: u64| #[trigger] self.written@.contains_key(x) <==> now.contains_key(x) by {
                    if distance(addr, x) == i {
                        assert(x == a);
                    }
                }
                assert forall|x: u64| #[trigger] now.contains_key(x) implies self.written@[x] == now[x] by {
                    if distance(addr, x) == i {
                        assert(x == a);
                    } else {
                        assert(x != a);
                    }
                }
                assert(self.written@ =~= now);
            }
            rest = rest / 256;
            i = i + 1;
        }
    }

    fn bytes_at(&self, backing: Option<&Snapshot>, addr: u64, n: u64) -> (r: Option<Vec<u8>>)
        requires
            n <= 16,
        ensures
            match r {
                Some(v) => v@.len() == n && forall|i: int|
                    0 <= i < n ==> byte_seen(image(backing), self.written@, addr, i) == Some(
                        #[trigger] v@[i],
                    ),
                None => exists|i: int|
                    0 <= i < n && (#[trigger] byte_seen(image(backing), self.written@, addr, i)) is None,
            },
    {
        let mut out: Vec<u8> = Vec::new();
        let mut i: u64 = 0;
        while i < n
            invariant
                i <= n <= 16,
                out@.len() == i,
                forall|j: int|
                    0 <= j < i ==> byte_seen(image(backing), self.written@, addr, j) == Some(
                        #[trigger] out@[j],
                    ),
            decreases n - i,
        {
            let a: u64 = addr.wrapping_add(i);
            let ghost seen = byte_seen(image(backing), self.written@, addr, i as int);
            let found: Option<u8> = match self.written.get(&a) {
                Some(b) => Some(*b),
                None => match backing {
                    Some(src) => match src.read(Va(a), 1) {
                        Ok(v) => {
                            if v.len() > 0 {
                                Some(v[0])
                            } else {
                                None
                            }
                        },
                        Err(_) => None,
                    },
                    None => None,
                },
            };
            assert(found == seen);
            match found {
                Some(b) => {
                    out.push(b);
                },
                None => {
                    return None;
                },
            }
            i = i + 1;
        }
        Some(out)
    }

    /// Reads a number of so many bits, if all its bytes are known.
    pub fn read(&mut self, backing: Option<&Snapshot>, addr: u64, bits: u32) -> (r: Option<u128>)
        ensures
            r == loaded(image(backing), old(self).written@, addr, bits),
            final(self).written@ == old(self).written@,
            final(self).touched@ == touching(old(self).touched@, addr, span(bits)),
    {
        let n: u64 = span_of(bits);
        self.touch(addr, n);
        let v = match self.bytes_at(backing, addr, n) {
            Some(v) => v,
            None => {
                return None;
            },
        };
        assert(v@ =~= Seq::new(
            n as nat,
            |i: int| byte_seen(image(backing), old(self).written@, addr, i)->0,
        ));
        proof {
            assert forall|i: int| 0 <= i < n implies (#[trigger] byte_seen(
                image(backing),
                old(self).written@,
                addr,
                i,
            )) is Some by {
                let b = v@[i];
            }
        }
        let mut acc: u128 = 0;
        let mut k: usize = v.len();
        while k > 0
            invariant
                k <= v@.len(),
                v@.len() == n,
                n <= 16,
                acc == le(v@, k as int, (n - k) as nat),
            decreases k,
        {
            k = k - 1;
            proof {
                lemma_le_bound(v@, k as int, (n - k) as nat);
                lemma_pow256((n - k) as nat);
                assert(le(v@, k as int, (n - k) as nat) == v@[k as int] as nat + 256 * le(
                    v@,
                    k + 1,
                    (n - k - 1) as nat,
                ));
            }
            acc = v[k] as u128 + 256 * acc;
        }
        Some(acc)
    }
}

/// The image behind the memory.
pub open spec fn image(backing: Option<&Snapshot>) -> Option<Snapshot> {
    match backing {
        Some(s) => Some(*s),
        None => None,
    }
}

proof fn lemma_le_bytes(s: Seq<u8>, v: u128, p: int, n: nat)
    requires
        0 <= p,
        p + n == s.len(),
        s.len() <= 16,
        forall|i: int| 0 <= i < s.len() ==> #[trigger] s[i] == byte_of(v, i as nat),
    ensures
        le(s, p, n) == (v as int / pow(256, p as nat)) % pow(256, n),
    decreases n,
{
    lemma_pow256(n);
    lemma_pow256(p as nat);
    let q = v as int / pow(256, p as nat);
    if n == 0 {
        assert(pow(256, 0) == 1) by {
            reveal(pow);
        }
        assert(q % 1 == 0);
    } else {
        lemma_le_bytes(s, v, p + 1, (n - 1) as nat);
        lemma_pow256((p + 1) as nat);
        lemma_pow256((n - 1) as nat);
        vstd::arithmetic::div_mod::lemma_div_denominator(v as int, pow(256, p as nat), 256);
        assert(256 * pow(256, p as nat) == pow(256, p as nat) * 256) by (nonlinear_arith);
        assert(v as int / pow(256, (p + 1) as nat) == q / 256);
        assert(q >= 0) by (nonlinear_arith)
            requires
                q == v as int / pow(256, p as nat),
                pow(256, p as nat) >= 1,
                v >= 0,
        ;
        vstd::arithmetic::div_mod::lemma_mod_breakdown(q, 256, pow(256, (n - 1) as nat));
    }
}

/// A read gives back what was written: the low bytes of the value, whatever
/// else memory holds.
pub proof fn a_read_gives_back_the_write(
    backing: Option<Snapshot>,
    written: Map<u64, u8>,
    addr: u64,
    v: u128,
    bits: u32,
)
    ensures
        loaded(backing, stored(written, addr, v, span(bits)), addr, bits) == Some(
            (v as int % pow(256, span(bits))) as u128,
        ),
{
    let n = span(bits);
    let now = stored(written, addr, v, n);
    let s = Seq::new(n, |i: int| byte_seen(backing, now, addr, i)->0);
    assert forall|i: int| 0 <= i < n implies (#[trigger] byte_seen(backing, now, addr, i)) == Some(
        byte_of(v, i as nat),
    ) by {
        lemma_distance(addr, i as u64);
    }
    assert forall|i: int| 0 <= i < s.len() implies #[trigger] s[i] == byte_of(v, i as nat) by {
        assert(byte_seen(backing, now, addr, i) == Some(byte_of(v, i as nat)));
    }
    lemma_le_bytes(s, v, 0, n);
    assert(pow(256, 0) == 1) by {
        reveal(pow);
    }
    assert(v as int / 1 == v);
}

/// A write leaves every byte outside its span as it was.
pub proof fn a_write_leaves_the_rest(written: Map<u64, u8>, addr: u64, v: u128, n: nat, a: u64)
    requires
        distance(addr, a) >= n,
    ensures
        stored(written, addr, v, n).contains_key(a) == written.contains_key(a),
        written.contains_key(a) ==> stored(written, addr, v, n)[a] == written[a],
{
}

/// A byte that was written hides the one of the image; a byte that was not written is
/// the image's, and is not known where there is no image.
pub proof fn written_bytes_hide_the_image(backing: Option<Snapshot>, written: Map<u64, u8>, a: u64)
    ensures
        written.contains_key(a) ==> byte_seen(backing, written, a, 0) == Some(written[a]),
        !written.contains_key(a) && backing is None ==> byte_seen(backing, written, a, 0) is None,
        !written.contains_key(a) ==> (backing matches Some(src) ==> (src.read_of(a, 1) matches Some(b) ==> (b.len() > 0
            ==> byte_seen(backing, written, a, 0) == Some(b[0])))),
        !written.contains_key(a) ==> (backing matches Some(src) ==> (src.read_of(a, 1) is None ==> byte_seen(
            backing,
            written,
            a,
            0,
        ) is None)),
{
}

/// A number is read with its lowest byte first, and is not known where one of its bytes
/// is not.
pub proof fn reads_take_the_lowest_byte_first(backing: Option<Snapshot>, written: Map<u64, u8>, addr: u64)
    ensures
        byte_seen(backing, written, addr, 0) matches Some(x) ==> loaded(backing, written, addr, 8) == Some(x as u128),
        byte_seen(backing, written, addr, 0) matches Some(x) ==> (byte_seen(backing, written, addr, 1) matches Some(y)
            ==> loaded(backing, written, addr, 16) == Some((x + 0x100 * y) as u128)),
        byte_seen(backing, written, addr, 0) is None ==> loaded(backing, written, addr, 8) is None && loaded(
            backing,
            written,
            addr,
            16,
        ) is None,
        byte_seen(backing, written, addr, 1) is None ==> loaded(backing, written, addr, 16) is None,
{
    let s = Seq::new(1, |i: int| byte_seen(backing, written, addr, i)->0);
    let t = Seq::new(2, |i: int| byte_seen(backing, written, addr, i)->0);
    crate::bytes::the_lowest_byte_comes_first(s, 0);
    crate::bytes::the_lowest_byte_comes_first(t, 0);
    assert(span(8) == 1 && span(16) == 2);
}

/// A write puts the lowest byte first, and goes round at the end of the address space.
pub proof fn writes_put_the_lowest_byte_first(written: Map<u64, u8>, addr: u64, v: u128, bits: u32)
    requires
        bits == 8 || bits == 16 || bits == 32 || bits == 64 || bits == 128,
    ensures
        span(bits) * 8 == bits,
        stored(written, addr, v, span(bits)).contains_key(addr),
        stored(written, addr, v, span(bits))[addr] as int == v as int % 256,
        bits > 8 && addr < u64::MAX ==> stored(written, addr, v, span(bits))[(addr + 1) as u64] as int == (v as int / 256)
            % 256,
        bits > 8 && addr == u64::MAX ==> stored(written, addr, v, span(bits))[0] as int == (v as int / 256) % 256,
{
    assert(pow(256, 0) == 1 && pow(256, 1) == 256) by {
        reveal(pow);
        reveal_with_fuel(pow, 3);
    }
    assert(v as int / 1 == v);
}

} // verus!
