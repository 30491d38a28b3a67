//! Little-endian integers in byte strings.

use vstd::prelude::*;

verus! {

/// The little-endian number in the `n` bytes of `b` at `p`.
pub open spec fn le(b: Seq<u8>, p: int, n: nat) -> nat
    decreases n,
{
    if n == 0 {
        0
    } else {
        b[p] as nat + 256 * le(b, p + 1, (n - 1) as nat)
    }
}

/// The 16-bit number at `p`.
pub fn le16(b: &[u8], p: usize) -> (r: u16)
    requires
        p + 2 <= b@.len(),
    ensures
        r == le(b@, p as int, 2),
{
    proof {
        reveal_with_fuel(le, 3);
    }
    b[p] as u16 + 256 * (b[p + 1] as u16)
}

/// The 32-bit number at `p`.
pub fn le32(b: &[u8], p: usize) -> (r: u32)
    requires
        p + 4 <= b@.len(),
    ensures
        r == le(b@, p as int, 4),
{
    proof {
        reveal_with_fuel(le, 5);
    }
    b[p] as u32 + 256 * (b[p + 1] as u32 + 256 * (b[p + 2] as u32 + 256 * (b[p + 3] as u32)))
}

/// The 64-bit number at `p`.
pub fn le64(b: &[u8], p: usize) -> (r: u64)
    requires
        p + 8 <= b@.len(),
    ensures
        r == le(b@, p as int, 8),
{
    let _n: usize = b.len();
    let lo: u32 = le32(b, p);
    let hi: u32 = le32(b, p + 4);
    proof {
        lemma_le_split(b@, p as int, 4, 4);
        lemma_le_bound(b@, p as int, 4);
        lemma_le_bound(b@, p + 4, 4);
        assert(vstd::arithmetic::power::pow(256, 4) == 0x1_0000_0000) by {
            reveal_with_fuel(vstd::arithmetic::power::pow, 5);
        }
    }
    lo as u64 + 0x1_0000_0000 * (hi as u64)
}

/// A number of `m + n` bytes is made of its lower `m` and its upper `n`.
pub proof fn lemma_le_split(b: Seq<u8>, p: int, m: nat, n: nat)
    ensures
        le(b, p, m + n) == le(b, p, m) + vstd::arithmetic::power::pow(256, m) * le(b, p + m, n),
    decreases m,
{
    reveal(vstd::arithmetic::power::pow);
    if m > 0 {
        lemma_le_split(b, p + 1, (m - 1) as nat, n);
        let q = vstd::arithmetic::power::pow(256, (m - 1) as nat);
        let x = le(b, p + m, n) as int;
        assert(256 * (q * x) == (256 * q) * x) by (nonlinear_arith);
        assert((m - 1) as nat + n == (m + n - 1) as nat);
    }
}

/// A number of `n` bytes is below 256 to the power `n`.
pub proof fn lemma_le_bound(b: Seq<u8>, p: int, n: nat)
    ensures
        le(b, p, n) < vstd::arithmetic::power::pow(256, n),
    decreases n,
{
    reveal(vstd::arithmetic::power::pow);
    if n > 0 {
        lemma_le_bound(b, p + 1, (n - 1) as nat);
    }
}

/// The first zero byte from `k` on.
pub open spec fn zero_from(b: Seq<u8>, k: int) -> Option<int>
    decreases b.len() - k,
{
    if k < 0 || k >= b.len() {
        None
    } else if b[k] == 0 {
        Some(k)
    } else {
        zero_from(b, k + 1)
    }
}

pub proof fn lemma_zero_from(b: Seq<u8>, k: int)
    requires
        0 <= k,
    ensures
        zero_from(b, k) matches Some(z) ==> k <= z < b.len() && b[z] == 0,
    decreases b.len() - k,
{
    if k < b.len() && b[k] != 0 {
        lemma_zero_from(b, k + 1);
    }
}

/// The first zero byte from `from` on.
pub fn find_zero(data: &[u8], from: usize) -> (r: Option<usize>)
    requires
        from <= data@.len(),
    ensures
        match (r, zero_from(data@, from as int)) {
            (Some(i), Some(j)) => i == j && from <= i < data@.len(),
            (None, None) => true,
            _ => false,
        },
{
    let mut k: usize = from;
    while k < data.len()
        invariant
            from <= k <= data@.len(),
            zero_from(data@, from as int) == zero_from(data@, k as int),
        decreases data@.len() - k,
    {
        if data[k] == 0 {
            return Some(k);
        }
        k = k + 1;
    }
    None
}

/// Numbers are stored with their lowest byte first.
pub proof fn the_lowest_byte_comes_first(b: Seq<u8>, p: int)
    ensures
        le(b, p, 0) == 0,
        le(b, p, 1) == b[p],
        le(b, p, 2) == b[p] + 0x100 * b[p + 1],
        le(b, p, 4) == b[p] + 0x100 * b[p + 1] + 0x1_0000 * b[p + 2] + 0x100_0000 * b[p + 3],
        le(b, p, 8) == le(b, p, 4) + 0x1_0000_0000 * le(b, p + 4, 4),
{
    reveal_with_fuel(le, 6);
    lemma_le_split(b, p, 4, 4);
    assert(vstd::arithmetic::power::pow(256, 4) == 0x1_0000_0000) by {
        reveal_with_fuel(vstd::arithmetic::power::pow, 5);
    }
}

/// A text that ends in a zero byte goes up to the first one.
pub proof fn texts_end_at_the_first_zero(b: Seq<u8>, k: int, z: int)
    requires
        0 <= k <= z < b.len(),
        b[z] == 0,
        forall|i: int| k <= i < z ==> #[trigger] b[i] != 0,
    ensures
        zero_from(b, k) == Some(z),
    decreases z - k,
{
    if k < z {
        texts_end_at_the_first_zero(b, k + 1, z);
    }
}

} // verus!
