//! Arithmetic on machine words of up to 128 bits, stated on numbers.

use vstd::arithmetic::power2::{lemma_pow2_adds, lemma_pow2_pos, lemma_pow2_strictly_increases, lemma_pow2_unfold, pow2};
use vstd::prelude::*;

verus! {

/// Two to the power 64.
pub const WORD: u128 = 0x1_0000_0000_0000_0000;

/// Two to the power 128.
pub open spec fn wide() -> int {
    u128::MAX + 1
}

/// The low 64 bits.
pub open spec fn low64(v: u128) -> u64 {
    (v % WORD) as u64
}

/// The low 32 bits.
pub open spec fn low32(v: u64) -> u32 {
    (v % 0x1_0000_0000) as u32
}

pub fn cut64(v: u128) -> (r: u64)
    ensures
        r == low64(v),
{
    (v % WORD) as u64
}

pub fn cut32(v: u64) -> (r: u32)
    ensures
        r == low32(v),
{
    (v % 0x1_0000_0000) as u32
}

proof fn lemma_one_shl(n: u128)
    requires
        n < 128,
    ensures
        1u128 << n == pow2(n as nat),
    decreases n,
{
    if n == 0 {
        assert(1u128 << 0u128 == 1u128) by (bit_vector);
        vstd::arithmetic::power2::lemma2_to64();
    } else {
        let m: u128 = (n - 1) as u128;
        lemma_one_shl(m);
        assert(1u128 << n == 2 * (1u128 << m)) by (bit_vector)
            requires
                n < 128,
                n == m + 1,
        ;
        lemma_pow2_unfold(n as nat);
    }
}

/// Two to the power `n`.
pub fn two_to(n: u32) -> (r: u128)
    requires
        n < 128,
    ensures
        r == pow2(n as nat),
        r > 0,
{
    proof {
        lemma_one_shl(n as u128);
        lemma_pow2_pos(n as nat);
    }
    1u128 << (n as u128)
}

/// A power of two below 128 bits is a word of 128 bits.
pub proof fn lemma_pow2_fits(n: nat)
    requires
        n < 128,
    ensures
        0 < pow2(n) <= u128::MAX,
{
    lemma_one_shl(n as u128);
    lemma_pow2_pos(n);
}

/// Two to the power 64, 127 and 128.
pub proof fn lemma_pow2_values()
    ensures
        pow2(7) == 0x80,
        pow2(8) == 0x100,
        pow2(16) == 0x1_0000,
        pow2(32) == 0x1_0000_0000,
        pow2(64) == WORD,
        pow2(127) == 0x8000_0000_0000_0000_0000_0000_0000_0000,
        pow2(128) == wide(),
{
    vstd::arithmetic::power2::lemma2_to64();
    lemma_one_shl(127);
    assert(1u128 << 127u128 == 0x8000_0000_0000_0000_0000_0000_0000_0000u128) by (bit_vector);
    lemma_one_shl(64);
    assert(1u128 << 64u128 == 0x1_0000_0000_0000_0000u128) by (bit_vector);
    lemma_pow2_unfold(128);
    lemma_pow2_unfold(8);
}

/// The low `bits` bits of a word.
pub open spec fn cut_of(v: u128, bits: u32) -> u128 {
    if bits >= 128 {
        v
    } else {
        (v as nat % pow2(bits as nat)) as u128
    }
}

pub fn cut(v: u128, bits: u32) -> (r: u128)
    ensures
        r == cut_of(v, bits),
{
    if bits >= 128 {
        v
    } else {
        v % two_to(bits)
    }
}

/// The word cut to `bits` bits and widened again, with its sign or without.
/// A width of zero, and one of 128 or more, leaves it as it is.
pub open spec fn extend_of(v: u128, bits: u32, signed: bool) -> u128 {
    if bits == 0 || bits >= 128 {
        v
    } else {
        let m = v as int % pow2(bits as nat) as int;
        if signed && m >= pow2((bits - 1) as nat) {
            (m + wide() - pow2(bits as nat)) as u128
        } else {
            m as u128
        }
    }
}

/// Cuts a word to `bits` bits and widens it again.
pub fn extend(v: u128, bits: u32, signed: bool) -> (r: u128)
    ensures
        r == extend_of(v, bits, signed),
{
    if bits == 0 || bits >= 128 {
        return v;
    }
    let p: u128 = two_to(bits);
    let half: u128 = two_to(bits - 1);
    let m: u128 = v % p;
    if signed && m >= half {
        m + (u128::MAX - p + 1)
    } else {
        m
    }
}

/// The 128 bits of a signed number.
pub open spec fn bits_of_signed(v: int) -> u128 {
    if v >= 0 {
        v as u128
    } else {
        (v + wide()) as u128
    }
}

pub fn signed_bits(v: i128) -> (r: u128)
    ensures
        r == bits_of_signed(v as int),
{
    if v >= 0 {
        v as u128
    } else {
        let up: i128 = (v + 1) + i128::MAX;
        up as u128 + 0x8000_0000_0000_0000_0000_0000_0000_0000
    }
}

/// The low 64 bits of a number, read with a sign.
pub open spec fn low_i64(v: int) -> i64 {
    let m = v % (WORD as int);
    if m >= 0x8000_0000_0000_0000 {
        (m - WORD) as i64
    } else {
        m as i64
    }
}

pub fn cut_i64(v: i128) -> (r: i64)
    ensures
        r == low_i64(v as int),
{
    let w: u64 = cut64(signed_bits(v));
    proof {
        if v < 0 {
            vstd::arithmetic::div_mod::lemma_mod_multiples_vanish(WORD as int, v as int, WORD as int);
            assert(WORD * WORD == wide());
        }
    }
    if w < 0x8000_0000_0000_0000 {
        w as i64
    } else {
        (w as i128 - 0x1_0000_0000_0000_0000) as i64
    }
}

// ---------------------------------------------------------------------------
// Signed numbers
// ---------------------------------------------------------------------------

/// The number that the low `bits` bits of a word stand for, read with a sign.
pub open spec fn signed_of(v: u128, bits: u32) -> int {
    let m = cut_of(v, bits) as int;
    let p = pow2(if bits >= 128 { 128 } else { bits as nat }) as int;
    if 2 * m >= p {
        m - p
    } else {
        m
    }
}

/// A signed number: its sign and its magnitude.
#[derive(Clone, Copy, Debug, PartialEq, Eq, Structural)]
pub struct Signed {
    pub neg: bool,
    pub mag: u128,
}

impl Signed {
    pub open spec fn value(self) -> int {
        if self.neg {
            -(self.mag as int)
        } else {
            self.mag as int
        }
    }
}

/// Reads the low `bits` bits of a word with a sign.
pub fn read_signed(v: u128, bits: u32) -> (r: Signed)
    requires
        bits > 0,
    ensures
        r.value() == signed_of(v, bits),
        bits <= 64 ==> r.mag <= WORD,
{
    let m: u128 = cut(v, bits);
    proof {
        lemma_pow2_values();
    }
    if bits >= 128 {
        if m >= 0x8000_0000_0000_0000_0000_0000_0000_0000 {
            Signed { neg: true, mag: (u128::MAX - m) + 1 }
        } else {
            Signed { neg: false, mag: m }
        }
    } else {
        proof {
            lemma_pow2_unfold(bits as nat);
            if bits < 64 {
                lemma_pow2_strictly_increases(bits as nat, 64);
            }
        }
        let p: u128 = two_to(bits);
        let half: u128 = two_to(bits - 1);
        if m >= half {
            Signed { neg: true, mag: p - m }
        } else {
            Signed { neg: false, mag: m }
        }
    }
}

/// The quotient, rounded towards zero.
pub open spec fn quotient(n: int, d: int) -> int {
    if d == 0 {
        0
    } else if (n < 0) == (d < 0) {
        abs(n) / abs(d)
    } else {
        -(abs(n) / abs(d))
    }
}

/// The remainder of the quotient rounded towards zero; it has the sign of `n`.
pub open spec fn remainder(n: int, d: int) -> int {
    if d == 0 {
        0
    } else if n < 0 {
        -(abs(n) % abs(d))
    } else {
        abs(n) % abs(d)
    }
}

pub open spec fn abs(n: int) -> int {
    if n < 0 {
        -n
    } else {
        n
    }
}

/// A division leaves its dividend: the quotient times the divisor, and the
/// remainder, which is smaller than the divisor.
pub proof fn division_is_exact(n: int, d: int)
    requires
        d != 0,
    ensures
        n == quotient(n, d) * d + remainder(n, d),
        abs(remainder(n, d)) < abs(d),
{
    let q = abs(n) / abs(d);
    let r = abs(n) % abs(d);
    vstd::arithmetic::div_mod::lemma_fundamental_div_mod(abs(n), abs(d));
    assert(abs(d) * q == q * abs(d)) by (nonlinear_arith);
    assert(0 <= r < abs(d)) by (nonlinear_arith)
        requires
            r == abs(n) % abs(d),
            abs(d) > 0,
    ;
    assert((-q) * d == -(q * d)) by (nonlinear_arith);
    assert(q * (-d) == -(q * d)) by (nonlinear_arith);
}

/// Divides, rounding towards zero.
pub fn divide(n: Signed, d: Signed) -> (r: (Signed, Signed))
    requires
        d.mag != 0,
    ensures
        r.0.value() == quotient(n.value(), d.value()),
        r.1.value() == remainder(n.value(), d.value()),
        r.0.mag <= n.mag,
        r.1.mag < d.mag,
{
    let q: u128 = n.mag / d.mag;
    let m: u128 = n.mag % d.mag;
    proof {
        let a = n.mag as int;
        let b = d.mag as int;
        assert(a / b <= a) by (nonlinear_arith)
            requires
                a >= 0,
                b >= 1,
        ;
        assert(a % b < b) by (nonlinear_arith)
            requires
                b >= 1,
        ;
        if a == 0 {
            assert(0int / b == 0) by (nonlinear_arith)
                requires
                    b >= 1,
            ;
            assert(0int % b == 0) by (nonlinear_arith)
                requires
                    b >= 1,
            ;
        }
    }
    (Signed { neg: n.neg != d.neg, mag: q }, Signed { neg: n.neg, mag: m })
}

/// The low 64 bits of a signed number.
pub open spec fn word_of(v: int) -> u64 {
    (v % (WORD as int)) as u64
}

pub fn to_word(v: Signed) -> (r: u64)
    ensures
        r == word_of(v.value()),
{
    let m: u128 = v.mag % WORD;
    proof {
        vstd::arithmetic::div_mod::lemma_fundamental_div_mod(v.mag as int, WORD as int);
        let q = v.mag as int / (WORD as int);
        if v.neg {
            if m == 0 {
                assert(-(v.mag as int) == (-q) * (WORD as int)) by (nonlinear_arith)
                    requires
                        v.mag as int == (WORD as int) * q,
                ;
                vstd::arithmetic::div_mod::lemma_fundamental_div_mod_converse(
                    -(v.mag as int),
                    WORD as int,
                    -q,
                    0,
                );
            } else {
                assert(-(v.mag as int) == (-q - 1) * (WORD as int) + (WORD - m)) by (nonlinear_arith)
                    requires
                        v.mag as int == (WORD as int) * q + m,
                ;
                vstd::arithmetic::div_mod::lemma_fundamental_div_mod_converse(
                    -(v.mag as int),
                    WORD as int,
                    -q - 1,
                    (WORD - m) as int,
                );
            }
        }
    }
    if v.neg && m != 0 {
        (WORD - m) as u64
    } else {
        m as u64
    }
}

// ---------------------------------------------------------------------------
// Shifts
// ---------------------------------------------------------------------------

/// The word of `bits` bits shifted right by `n`, filling up with its top bit.
pub open spec fn shift_right_signed(v: u128, n: nat, bits: nat) -> u128 {
    if 2 * v < pow2(bits) {
        (v as nat / pow2(n)) as u128
    } else {
        (pow2(bits) - 1 - (pow2(bits) - 1 - v) as nat / pow2(n)) as u128
    }
}

pub fn sar(v: u128, n: u32, bits: u32) -> (r: u128)
    requires
        0 < bits < 128,
        n < 128,
        v < pow2(bits as nat),
    ensures
        r == shift_right_signed(v, n as nat, bits as nat),
        r < pow2(bits as nat),
{
    let p: u128 = two_to(bits);
    let half: u128 = two_to(bits - 1);
    let q: u128 = two_to(n);
    proof {
        lemma_pow2_unfold(bits as nat);
        lemma_quotient_le(v as int, q as int);
    }
    if v < half {
        v / q
    } else {
        proof {
            lemma_quotient_le((p - 1 - v) as int, q as int);
        }
        (p - 1) - ((p - 1) - v) / q
    }
}

/// A quotient is no larger than its dividend.
pub proof fn lemma_quotient_le(a: int, b: int)
    requires
        a >= 0,
        b >= 1,
    ensures
        0 <= a / b <= a,
{
    assert(0 <= a / b <= a) by (nonlinear_arith)
        requires
            a >= 0,
            b >= 1,
    ;
}

/// The word shifted left by `n` and cut to `bits` bits.
pub open spec fn shift_left(v: u128, n: nat, bits: nat) -> u128 {
    ((v as nat * pow2(n)) % pow2(bits)) as u128
}

pub fn shl(v: u128, n: u32, bits: u32) -> (r: u128)
    requires
        n < bits <= 64,
        v < pow2(bits as nat),
    ensures
        r == shift_left(v, n as nat, bits as nat),
        r < pow2(bits as nat),
{
    let p: u128 = two_to(bits);
    let q: u128 = two_to(n);
    proof {
        lemma_product_fits(v as nat, bits as nat, n as nat);
    }
    (v * q) % p
}

/// A number of `a` bits times two to the power `b` is a number of `a + b` bits.
pub proof fn lemma_product_fits(v: nat, a: nat, b: nat)
    requires
        v < pow2(a),
        a + b <= 128,
    ensures
        v * pow2(b) < pow2(a + b),
        v * pow2(b) <= u128::MAX,
{
    lemma_pow2_pos(b);
    lemma_pow2_adds(a, b);
    assert(v * pow2(b) < pow2(a) * pow2(b)) by (nonlinear_arith)
        requires
            v < pow2(a),
            pow2(b) > 0,
    ;
    lemma_pow2_values();
    if a + b < 128 {
        lemma_pow2_strictly_increases(a + b, 128);
    }
}

// ---------------------------------------------------------------------------
// Lanes
// ---------------------------------------------------------------------------

/// The first `n` lanes of a vector, of `bits` bits each, lowest first.
pub open spec fn lanes_of(v: u128, bits: u32, n: nat) -> Seq<u128>
    decreases n,
{
    if n == 0 {
        Seq::empty()
    } else {
        seq![cut_of(v, bits)] + lanes_of((v as nat / pow2(bits as nat)) as u128, bits, (n - 1) as nat)
    }
}

/// The vector with these lanes, lowest first.
pub open spec fn joined(ls: Seq<u128>, bits: u32) -> nat
    decreases ls.len(),
{
    if ls.len() == 0 {
        0
    } else {
        cut_of(ls[0], bits) as nat + pow2(bits as nat) * joined(ls.skip(1), bits)
    }
}

/// A lane width and the number of lanes in a vector.
pub open spec fn lane_width(bits: u32) -> bool {
    bits == 8 || bits == 16 || bits == 32 || bits == 64
}

pub open spec fn lane_count(bits: u32) -> nat {
    if bits == 0 {
        0
    } else {
        (128u32 / bits) as nat
    }
}

pub proof fn lemma_lanes_len(v: u128, bits: u32, n: nat)
    requires
        bits < 128,
    ensures
        lanes_of(v, bits, n).len() == n,
        forall|i: int| 0 <= i < n ==> (#[trigger] lanes_of(v, bits, n)[i]) < pow2(bits as nat),
    decreases n,
{
    lemma_pow2_pos(bits as nat);
    lemma_pow2_fits(bits as nat);
    if n > 0 {
        let rest = (v as nat / pow2(bits as nat)) as u128;
        lemma_lanes_len(rest, bits, (n - 1) as nat);
        let all = lanes_of(v, bits, n);
        let p = pow2(bits as nat) as int;
        assert(v as int % p < p) by (nonlinear_arith)
            requires
                p > 0,
        ;
        assert forall|i: int| 0 <= i < n implies (#[trigger] all[i]) < pow2(bits as nat) by {
            if i > 0 {
                assert(all[i] == lanes_of(rest, bits, (n - 1) as nat)[i - 1]);
            }
        }
    }
}

/// The lanes of a vector, lowest first.
pub fn lanes(v: u128, bits: u32) -> (ls: Vec<u128>)
    requires
        lane_width(bits),
    ensures
        ls@ == lanes_of(v, bits, lane_count(bits)),
        ls@.len() == lane_count(bits),
        forall|i: int| 0 <= i < ls@.len() ==> (#[trigger] ls@[i]) < pow2(bits as nat),
{
    let p: u128 = two_to(bits);
    let n: u32 = 128 / bits;
    let mut ls: Vec<u128> = Vec::new();
    let mut rest: u128 = v;
    let mut i: u32 = 0;
    let ghost all = lanes_of(v, bits, n as nat);
    proof {
        lemma_lanes_len(v, bits, n as nat);
        assert(ls@ + all =~= all);
    }
    while i < n
        invariant
            i <= n,
            p == pow2(bits as nat),
            p > 0,
            bits < 128,
            ls@ + lanes_of(rest, bits, (n - i) as nat) == all,
        decreases n - i,
    {
        let ghost ls0 = ls@;
        let ghost tail = lanes_of((rest as nat / pow2(bits as nat)) as u128, bits, (n - i - 1) as nat);
        ls.push(rest % p);
        proof {
            lemma_quotient_le(rest as int, p as int);
            assert(ls@ + tail =~= ls0 + (seq![cut_of(rest, bits)] + tail));
        }
        rest = rest / p;
        i = i + 1;
    }
    assert(ls@ + Seq::<u128>::empty() =~= ls@);
    ls
}

pub proof fn lemma_joined_bound(ls: Seq<u128>, bits: u32)
    requires
        bits < 128,
    ensures
        joined(ls, bits) < pow2((bits * ls.len()) as nat),
    decreases ls.len(),
{
    lemma_pow2_values();
    if ls.len() == 0 {
        vstd::arithmetic::power2::lemma2_to64();
        assert(bits * 0 == 0) by (nonlinear_arith);
    } else {
        lemma_joined_bound(ls.skip(1), bits);
        let p = pow2(bits as nat) as int;
        lemma_pow2_pos(bits as nat);
        lemma_pow2_fits(bits as nat);
        let rest = joined(ls.skip(1), bits) as int;
        let b = pow2((bits * (ls.len() - 1)) as nat) as int;
        assert(bits + bits * (ls.len() - 1) == bits * ls.len()) by (nonlinear_arith);
        assert(bits * (ls.len() - 1) >= 0) by (nonlinear_arith)
            requires
                ls.len() >= 1,
        ;
        lemma_pow2_adds(bits as nat, (bits * (ls.len() - 1)) as nat);
        let low = cut_of(ls[0], bits) as int;
        assert(low < p) by (nonlinear_arith)
            requires
                low == ls[0] as int % p,
                p > 0,
        ;
        assert(low + p * rest < p * b) by (nonlinear_arith)
            requires
                low < p,
                rest + 1 <= b,
                p > 0,
        ;
    }
}

proof fn lemma_joined_skip(ls: Seq<u128>, bits: u32, k: int)
    requires
        0 < k <= ls.len(),
    ensures
        joined(ls.skip(k - 1), bits) == cut_of(ls[k - 1], bits) as nat + pow2(bits as nat) * joined(ls.skip(k), bits),
{
    assert(ls.skip(k - 1).skip(1) =~= ls.skip(k));
}

/// The vector with these lanes, lowest first.
pub fn from_lanes(ls: &Vec<u128>, bits: u32) -> (v: u128)
    requires
        lane_width(bits),
        ls@.len() == lane_count(bits),
    ensures
        v == joined(ls@, bits),
{
    let p: u128 = two_to(bits);
    let mut v: u128 = 0;
    let mut i: usize = ls.len();
    assert(ls@.skip(i as int) =~= Seq::<u128>::empty());
    while i > 0
        invariant
            i <= ls@.len(),
            lane_width(bits),
            ls@.len() == lane_count(bits),
            p == pow2(bits as nat),
            p > 0,
            v == joined(ls@.skip(i as int), bits),
        decreases i,
    {
        proof {
            lemma_joined_skip(ls@, bits, i as int);
            lemma_joined_bound(ls@.skip(i - 1), bits);
            lemma_pow2_values();
            let n = (bits * (ls@.len() - i + 1)) as nat;
            assert(n <= 128) by (nonlinear_arith)
                requires
                    n == bits * (ls@.len() - i + 1),
                    bits * ls@.len() == 128,
                    1 <= i <= ls@.len(),
            ;
            if n < 128 {
                lemma_pow2_strictly_increases(n, 128);
            }
            assert(p * v >= 0) by (nonlinear_arith)
                requires
                    p >= 0,
                    v >= 0,
            ;
        }
        i = i - 1;
        v = ls[i] % p + p * v;
    }
    assert(ls@.skip(0) =~= ls@);
    v
}

/// Taking a vector apart and putting it together again leaves it as it was.
pub proof fn lanes_hold_the_vector(v: u128, bits: u32, n: nat)
    requires
        bits < 128,
        v < pow2((bits * n) as nat),
    ensures
        joined(lanes_of(v, bits, n), bits) == v,
    decreases n,
{
    let p = pow2(bits as nat) as int;
    lemma_pow2_pos(bits as nat);
    lemma_pow2_fits(bits as nat);
    if n == 0 {
        assert(bits * 0 == 0) by (nonlinear_arith);
        vstd::arithmetic::power2::lemma2_to64();
    } else {
        let rest = (v as nat / pow2(bits as nat)) as u128;
        lemma_quotient_le(v as int, p);
        let b = pow2((bits * (n - 1)) as nat) as int;
        assert(bits + bits * (n - 1) == bits * n) by (nonlinear_arith);
        assert(bits * (n - 1) >= 0) by (nonlinear_arith)
            requires
                n >= 1,
        ;
        lemma_pow2_adds(bits as nat, (bits * (n - 1)) as nat);
        assert(v as int / p < b) by (nonlinear_arith)
            requires
                v < p * b,
                p > 0,
        ;
        lanes_hold_the_vector(rest, bits, (n - 1) as nat);
        let all = lanes_of(v, bits, n);
        assert(all.skip(1) =~= lanes_of(rest, bits, (n - 1) as nat));
        vstd::arithmetic::div_mod::lemma_fundamental_div_mod(v as int, p);
        let c = cut_of(v, bits);
        assert(cut_of(c, bits) == c) by {
            assert(0 <= v as int % p < p) by (nonlinear_arith)
                requires
                    p > 0,
            ;
            vstd::arithmetic::div_mod::lemma_small_mod(c as nat, p as nat);
        }
    }
}

/// The lanes of a vector are its digits in base two to the power of the lane's width,
/// the lowest first.
pub proof fn the_lowest_lane_comes_first(v: u128, bits: u32, n: nat)
    requires
        bits < 128,
        n > 0,
    ensures
        lanes_of(v, bits, n).len() == n,
        lanes_of(v, bits, n)[0] as int == v as int % pow2(bits as nat) as int,
        n > 1 ==> lanes_of(v, bits, n)[1] as int == (v as int / pow2(bits as nat) as int) % pow2(bits as nat) as int,
        lanes_of(v, bits, n).skip(1) == lanes_of((v as nat / pow2(bits as nat)) as u128, bits, (n - 1) as nat),
{
    lemma_lanes_len(v, bits, n);
    lemma_pow2_pos(bits as nat);
    lemma_pow2_fits(bits as nat);
    let rest = (v as nat / pow2(bits as nat)) as u128;
    lemma_quotient_le(v as int, pow2(bits as nat) as int);
    let all = lanes_of(v, bits, n);
    assert(all.skip(1) =~= lanes_of(rest, bits, (n - 1) as nat));
    lemma_lane_fits(v, bits);
    lemma_lane_fits(rest, bits);
    if n > 1 {
        assert(all[1] == all.skip(1)[0]);
        assert(all.skip(1)[0] == cut_of(rest, bits));
    }
}

proof fn lemma_lane_fits(v: u128, bits: u32)
    requires
        bits < 128,
    ensures
        cut_of(v, bits) as int == v as int % pow2(bits as nat) as int,
        cut_of(v, bits) < pow2(bits as nat),
{
    let p = pow2(bits as nat) as int;
    lemma_pow2_pos(bits as nat);
    lemma_pow2_fits(bits as nat);
    assert(0 <= v as int % p < p) by (nonlinear_arith)
        requires
            p > 0,
    ;
}

/// Putting lanes together and taking the vector apart again gives the lanes.
pub proof fn vectors_hold_their_lanes(ls: Seq<u128>, bits: u32)
    requires
        bits < 128,
        bits * ls.len() <= 128,
        forall|i: int| 0 <= i < ls.len() ==> #[trigger] ls[i] < pow2(bits as nat),
    ensures
        joined(ls, bits) <= u128::MAX,
        lanes_of(joined(ls, bits) as u128, bits, ls.len()) == ls,
    decreases ls.len(),
{
    lemma_joined_bound(ls, bits);
    lemma_pow2_values();
    let total = (bits * ls.len()) as nat;
    assert(bits * ls.len() >= 0) by (nonlinear_arith);
    if total < 128 {
        lemma_pow2_strictly_increases(total, 128);
    }
    if ls.len() > 0 {
        let rest = ls.skip(1);
        assert(bits * rest.len() <= 128) by (nonlinear_arith)
            requires
                bits * ls.len() <= 128,
                rest.len() == ls.len() - 1,
                bits >= 0,
        ;
        assert forall|i: int| 0 <= i < rest.len() implies #[trigger] rest[i] < pow2(bits as nat) by {
            assert(rest[i] == ls[i + 1]);
        }
        vectors_hold_their_lanes(rest, bits);
        let p = pow2(bits as nat) as int;
        lemma_pow2_pos(bits as nat);
        let low = ls[0] as int;
        assert(low < p);
        vstd::arithmetic::div_mod::lemma_small_mod(low as nat, p as nat);
        let j = joined(rest, bits) as int;
        let all = joined(ls, bits) as int;
        assert(all == low + p * j);
        assert(p * j == j * p) by (nonlinear_arith);
        vstd::arithmetic::div_mod::lemma_fundamental_div_mod_converse(all, p, j, low);
        let v = all as u128;
        assert(cut_of(v, bits) == ls[0]);
        assert((v as nat / pow2(bits as nat)) as u128 == j as u128);
        assert(lanes_of(v, bits, ls.len()) =~= seq![ls[0]] + rest);
        assert(seq![ls[0]] + rest =~= ls);
    } else {
        assert(lanes_of(joined(ls, bits) as u128, bits, 0) =~= ls);
    }
}

/// Widening keeps the low bits; with a sign it fills up with the top one of them, and
/// without with zeros.
pub proof fn widening_fills_up_with_the_sign(v: u128)
    ensures
        extend_of(v, 8, false) as int == v as int % 0x100,
        extend_of(v, 16, false) as int == v as int % 0x1_0000,
        extend_of(v, 32, false) as int == v as int % 0x1_0000_0000,
        extend_of(v, 64, false) as int == v as int % 0x1_0000_0000_0000_0000,
        v as int % 0x100 < 0x80 ==> extend_of(v, 8, true) as int == v as int % 0x100,
        v as int % 0x100 >= 0x80 ==> extend_of(v, 8, true) as int == u128::MAX + 1 - 0x100 + v as int % 0x100,
        v as int % 0x1_0000_0000 < 0x8000_0000 ==> extend_of(v, 32, true) as int == v as int % 0x1_0000_0000,
        v as int % 0x1_0000_0000 >= 0x8000_0000 ==> extend_of(v, 32, true) as int == u128::MAX + 1 - 0x1_0000_0000 + v as int
            % 0x1_0000_0000,
        extend_of(v, 128, true) == v,
        extend_of(v, 0, true) == v,
{
    lemma_pow2_values();
    vstd::arithmetic::power2::lemma2_to64();
    lemma_pow2_unfold(32);
}

/// A word of so many bits read with a sign is negative in its upper half.
pub proof fn the_top_bit_is_the_sign(v: u128)
    ensures
        v as int % 0x100 < 0x80 ==> signed_of(v, 8) == v as int % 0x100,
        v as int % 0x100 >= 0x80 ==> signed_of(v, 8) == v as int % 0x100 - 0x100,
        v as int % 0x1_0000_0000 < 0x8000_0000 ==> signed_of(v, 32) == v as int % 0x1_0000_0000,
        v as int % 0x1_0000_0000 >= 0x8000_0000 ==> signed_of(v, 32) == v as int % 0x1_0000_0000 - 0x1_0000_0000,
        v < 0x8000_0000_0000_0000_0000_0000_0000_0000 ==> signed_of(v, 128) == v,
        v >= 0x8000_0000_0000_0000_0000_0000_0000_0000 ==> signed_of(v, 128) == v - u128::MAX - 1,
{
    lemma_pow2_values();
}

/// The low part of a signed number is the number itself where it fits, and the number in
/// the range that differs from it by a multiple of two to the power 64 otherwise.
pub proof fn low_parts_agree_with_the_number(v: int)
    ensures
        i64::MIN <= v <= i64::MAX ==> low_i64(v) == v,
        (low_i64(v) - v) % 0x1_0000_0000_0000_0000 == 0,
        word_of(v) as int == v % 0x1_0000_0000_0000_0000,
        0 <= v <= u64::MAX ==> word_of(v) as int == v,
        v >= 0 && v <= u128::MAX ==> bits_of_signed(v) as int == v,
        i128::MIN <= v < 0 ==> bits_of_signed(v) as int == v + u128::MAX + 1,
{
}

} // verus!
