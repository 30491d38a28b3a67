//! The operations that micro-code names instead of spelling out, each with the
//! one answer that the machine defines for it.
//!
//! Operations on vectors work lane by lane. Comparisons of floating-point
//! values, their minimum and maximum, and their conversion to integers are
//! functions of the bits. The other floating-point results are looked up in a
//! list of known results; one that is missing there is reported, with the
//! operation and its operands, so that it can be computed and added.

use vstd::arithmetic::power2::pow2;
use vstd::prelude::*;
use vstd::string::StrSliceExecFns;

use crate::bits::{
    cut, cut32, cut64, cut_of, divide, from_lanes, joined, lane_count, lane_width, lanes, lanes_of, lemma_pow2_fits,
    lemma_pow2_values, lemma_product_fits, lemma_quotient_le, low32, low64, quotient, read_signed, remainder, sar,
    shift_left, shift_right_signed, shl, signed_of, to_word, two_to, wide, word_of, Signed, WORD,
};
use crate::text::{same, split_at_last, split_last, strip, strip_text};
use crate::va::wrap_add;

verus! {

/// A floating-point operation whose result is not a plain function of bits.
/// `D` is double and `S` single precision.
#[derive(Clone, Copy, Debug, PartialEq, Eq, Structural)]
pub enum FloatOp {
    AddD,
    SubD,
    MulD,
    DivD,
    SqrtD,
    AddS,
    SubS,
    MulS,
    DivS,
    SqrtS,
    /// A signed 64-bit integer to double precision.
    IntToD,
    /// A signed 64-bit integer to single precision.
    IntToS,
    DToS,
    SToD,
}

/// A floating-point operation and the bits of its operands. An operation of one
/// operand has a second of zero.
#[derive(Clone, Copy, Debug, PartialEq, Eq, Structural)]
pub struct FloatCall {
    pub op: FloatOp,
    pub a: u64,
    pub b: u64,
}

/// The known result of an operation, as bits.
#[derive(Clone, Copy, Debug, PartialEq, Eq, Structural)]
pub struct FloatFact {
    pub call: FloatCall,
    pub result: u64,
}

/// What an operation gives.
#[derive(Clone, Copy, Debug, PartialEq, Eq, Structural)]
pub enum Answer {
    Value(u128),
    /// The operation is not modelled, or not with these operands.
    Gap,
    /// A division by zero, or one whose quotient does not fit.
    Trap,
    /// The result of this operation is needed and not known.
    Unknown(FloatCall),
}

// ---------------------------------------------------------------------------
// Known results
// ---------------------------------------------------------------------------

/// The first known result for the call, from index `k` on.
pub open spec fn fact_from(facts: Seq<FloatFact>, call: FloatCall, k: int) -> Option<u64>
    decreases facts.len() - k,
{
    if k < 0 || k >= facts.len() {
        None
    } else if facts[k].call == call {
        Some(facts[k].result)
    } else {
        fact_from(facts, call, k + 1)
    }
}

/// The known result for the call.
pub open spec fn fact_of(facts: Seq<FloatFact>, call: FloatCall) -> Option<u64> {
    fact_from(facts, call, 0)
}

fn find_fact(facts: &Vec<FloatFact>, call: FloatCall) -> (r: Option<u64>)
    ensures
        r == fact_of(facts@, call),
{
    let mut k: usize = 0;
    while k < facts.len()
        invariant
            k <= facts@.len(),
            fact_of(facts@, call) == fact_from(facts@, call, k as int),
        decreases facts@.len() - k,
    {
        if facts[k].call == call {
            return Some(facts[k].result);
        }
        k = k + 1;
    }
    None
}

// ---------------------------------------------------------------------------
// Floating-point values by their bits
// ---------------------------------------------------------------------------

/// How two floating-point values compare.
#[derive(Clone, Copy, Debug, PartialEq, Eq, Structural)]
pub enum Relation {
    Less,
    Equal,
    Greater,
    /// One of them is not a number.
    Unordered,
}

/// The format of a floating-point value: the weight of its sign bit, and the
/// bits of its infinity.
pub open spec fn sign_weight(double: bool) -> int {
    if double {
        0x8000_0000_0000_0000
    } else {
        0x8000_0000
    }
}

pub open spec fn infinity(double: bool) -> int {
    if double {
        0x7ff0_0000_0000_0000
    } else {
        0x7f80_0000
    }
}

pub open spec fn is_nan(x: u64, double: bool) -> bool {
    x as int % sign_weight(double) > infinity(double)
}

/// A number that orders as the value does. Both zeros have the same.
pub open spec fn order_key(x: u64, double: bool) -> int {
    if x as int >= sign_weight(double) {
        -(x as int % sign_weight(double))
    } else {
        x as int % sign_weight(double)
    }
}

/// How the values with these bits compare.
pub open spec fn relation(x: u64, y: u64, double: bool) -> Relation {
    if is_nan(x, double) || is_nan(y, double) {
        Relation::Unordered
    } else if order_key(x, double) < order_key(y, double) {
        Relation::Less
    } else if order_key(x, double) > order_key(y, double) {
        Relation::Greater
    } else {
        Relation::Equal
    }
}

fn compare_bits(x: u64, y: u64, double: bool) -> (r: Relation)
    requires
        !double ==> x <= u32::MAX && y <= u32::MAX,
    ensures
        r == relation(x, y, double),
{
    let sign: u64 = if double {
        0x8000_0000_0000_0000
    } else {
        0x8000_0000
    };
    let inf: u64 = if double {
        0x7ff0_0000_0000_0000
    } else {
        0x7f80_0000
    };
    let (mx, my): (u64, u64) = (x % sign, y % sign);
    let (nx, ny): (bool, bool) = (x >= sign, y >= sign);
    if mx > inf || my > inf {
        Relation::Unordered
    } else if mx == 0 && my == 0 {
        Relation::Equal
    } else if nx && !ny {
        Relation::Less
    } else if !nx && ny {
        Relation::Greater
    } else if mx == my {
        Relation::Equal
    } else if (mx < my) != nx {
        Relation::Less
    } else {
        Relation::Greater
    }
}

/// A comparison: the relations for which it holds.
#[derive(Clone, Copy, Debug, PartialEq, Eq, Structural)]
pub struct Predicate {
    pub less: bool,
    pub equal: bool,
    pub greater: bool,
    pub unordered: bool,
}

impl Predicate {
    pub open spec fn holds_for(self, r: Relation) -> bool {
        match r {
            Relation::Less => self.less,
            Relation::Equal => self.equal,
            Relation::Greater => self.greater,
            Relation::Unordered => self.unordered,
        }
    }

    fn accepts(self, r: Relation) -> (b: bool)
        ensures
            b == self.holds_for(r),
    {
        match r {
            Relation::Less => self.less,
            Relation::Equal => self.equal,
            Relation::Greater => self.greater,
            Relation::Unordered => self.unordered,
        }
    }
}

pub open spec fn pred(less: bool, equal: bool, greater: bool, unordered: bool) -> Predicate {
    Predicate { less, equal, greater, unordered }
}

/// The comparison with this name: `o` is ordered, `u` is "or unordered".
pub open spec fn predicate_of(name: Seq<char>) -> Option<Predicate> {
    if name == "ogt"@ {
        Some(pred(false, false, true, false))
    } else if name == "oge"@ {
        Some(pred(false, true, true, false))
    } else if name == "olt"@ {
        Some(pred(true, false, false, false))
    } else if name == "ole"@ {
        Some(pred(true, true, false, false))
    } else if name == "oeq"@ {
        Some(pred(false, true, false, false))
    } else if name == "one"@ {
        Some(pred(true, false, true, false))
    } else if name == "ugt"@ {
        Some(pred(false, false, true, true))
    } else if name == "uge"@ {
        Some(pred(false, true, true, true))
    } else if name == "ult"@ {
        Some(pred(true, false, false, true))
    } else if name == "ule"@ {
        Some(pred(true, true, false, true))
    } else if name == "ueq"@ {
        Some(pred(false, true, false, true))
    } else if name == "une"@ {
        Some(pred(true, false, true, true))
    } else if name == "uno"@ {
        Some(pred(false, false, false, true))
    } else if name == "ord"@ {
        Some(pred(true, true, true, false))
    } else {
        None
    }
}

fn make_pred(less: bool, equal: bool, greater: bool, unordered: bool) -> (r: Option<Predicate>)
    ensures
        r == Some(pred(less, equal, greater, unordered)),
{
    Some(Predicate { less, equal, greater, unordered })
}

fn find_predicate(name: &str) -> (r: Option<Predicate>)
    ensures
        r == predicate_of(name@),
{
    if same(name, "ogt") {
        make_pred(false, false, true, false)
    } else if same(name, "oge") {
        make_pred(false, true, true, false)
    } else if same(name, "olt") {
        make_pred(true, false, false, false)
    } else if same(name, "ole") {
        make_pred(true, true, false, false)
    } else if same(name, "oeq") {
        make_pred(false, true, false, false)
    } else if same(name, "one") {
        make_pred(true, false, true, false)
    } else if same(name, "ugt") {
        make_pred(false, false, true, true)
    } else if same(name, "uge") {
        make_pred(false, true, true, true)
    } else if same(name, "ult") {
        make_pred(true, false, false, true)
    } else if same(name, "ule") {
        make_pred(true, true, false, true)
    } else if same(name, "ueq") {
        make_pred(false, true, false, true)
    } else if same(name, "une") {
        make_pred(true, false, true, true)
    } else if same(name, "uno") {
        make_pred(false, false, false, true)
    } else if same(name, "ord") {
        make_pred(true, true, true, false)
    } else {
        None
    }
}

/// The bits of a floating-point format: how many bits its fraction has, the
/// bias of its exponent, and how many values its exponent has.
pub open spec fn fraction_bits(double: bool) -> nat {
    if double {
        52
    } else {
        23
    }
}

pub open spec fn bias(double: bool) -> int {
    if double {
        1023
    } else {
        127
    }
}

/// The value with these bits, rounded towards zero to a signed 64-bit integer.
/// One that does not fit gives the most negative integer, and so does one that
/// is not a number.
pub open spec fn truncated(x: u64, double: bool) -> u64 {
    let f = fraction_bits(double);
    let e = (x as int % sign_weight(double)) / (pow2(f) as int);
    let m = x as int % (pow2(f) as int) + pow2(f);
    let shift = e - bias(double) - f;
    if e < bias(double) {
        0
    } else if e >= bias(double) + 63 {
        0x8000_0000_0000_0000
    } else {
        let mag = if shift >= 0 {
            m * pow2(shift as nat)
        } else {
            m / (pow2((-shift) as nat) as int)
        };
        word_of(
            if x as int >= sign_weight(double) {
                -mag
            } else {
                mag
            },
        )
    }
}

fn truncate_bits(x: u64, double: bool) -> (r: u64)
    requires
        !double ==> x <= u32::MAX,
    ensures
        r == truncated(x, double),
{
    let sign: u64 = if double {
        0x8000_0000_0000_0000
    } else {
        0x8000_0000
    };
    let f: u32 = if double {
        52
    } else {
        23
    };
    let b: u64 = if double {
        1023
    } else {
        127
    };
    proof {
        vstd::arithmetic::power2::lemma2_to64();
        vstd::arithmetic::power2::lemma2_to64_rest();
    }
    let p: u64 = two_to(f) as u64;
    let e: u64 = (x % sign) / p;
    proof {
        lemma_quotient_le((x % sign) as int, p as int);
    }
    let m: u128 = (x % p) as u128 + p as u128;
    if e < b {
        return 0;
    }
    if e >= b + 63 {
        return 0x8000_0000_0000_0000;
    }
    let up: u64 = e - b;
    let mag: u128 = if up >= f as u64 {
        let n: u32 = (up - f as u64) as u32;
        proof {
            lemma_product_fits(m as nat, 53, n as nat);
        }
        m * two_to(n)
    } else {
        let n: u32 = (f as u64 - up) as u32;
        proof {
            vstd::arithmetic::power2::lemma_pow2_pos(n as nat);
            lemma_quotient_le(m as int, pow2(n as nat) as int);
        }
        m / two_to(n)
    };
    to_word(Signed { neg: x >= sign, mag })
}

// ---------------------------------------------------------------------------
// Vectors
// ---------------------------------------------------------------------------

/// An operation on two lanes.
#[derive(Clone, Copy, Debug, PartialEq, Eq, Structural)]
pub enum LaneOp {
    Sum,
    Difference,
    /// All ones where the lanes are equal.
    Same,
    /// All ones where the first is greater, with signs.
    Greater,
}

/// A shift of a lane by a number of bits.
#[derive(Clone, Copy, Debug, PartialEq, Eq, Structural)]
pub enum ShiftOp {
    Left,
    Right,
    /// To the right, filling up with the top bit.
    Arithmetic,
}

/// An operation on vectors.
#[derive(Clone, Copy, Debug, PartialEq, Eq, Structural)]
pub enum VecOp {
    /// Interleaves the lanes of the low or high halves.
    Unpack { bits: u32, high: bool },
    Lane { op: LaneOp, bits: u32 },
    /// All ones where the comparison holds; nowhere for one without a meaning.
    Compare { holds: Option<Predicate>, bits: u32 },
    /// Shifts the whole register by bytes.
    ShiftBytes { left: bool },
    Shift { shift: ShiftOp, bits: u32 },
    /// Four lanes picked by a selector.
    Shuffle,
    /// The top bit of each byte.
    MoveMask,
    Float { float: FloatOp, bits: u32 },
}

/// The lane width that a letter stands for.
pub open spec fn letter_bits(c: char) -> Option<u32> {
    if c == 'b' {
        Some(8)
    } else if c == 'w' {
        Some(16)
    } else if c == 'd' {
        Some(32)
    } else if c == 'q' {
        Some(64)
    } else {
        None
    }
}

fn lane_bits(c: char) -> (r: Option<u32>)
    ensures
        r == letter_bits(c),
{
    if c == 'b' {
        Some(8)
    } else if c == 'w' {
        Some(16)
    } else if c == 'd' {
        Some(32)
    } else if c == 'q' {
        Some(64)
    } else {
        None
    }
}

/// The lane width of an integer interleave.
pub open spec fn unpack_bits(k: Seq<char>) -> Option<u32> {
    if k == "bw"@ {
        Some(8)
    } else if k == "wd"@ {
        Some(16)
    } else if k == "dq"@ {
        Some(32)
    } else if k == "qdq"@ {
        Some(64)
    } else {
        None
    }
}

/// The lane width of an interleave of floating-point values.
pub open spec fn unpack_float_bits(k: Seq<char>) -> Option<u32> {
    if k == "ps"@ {
        Some(32)
    } else if k == "pd"@ {
        Some(64)
    } else {
        None
    }
}

/// The lane width, where `name` is `prefix` and one letter.
pub open spec fn one_letter(name: Seq<char>, prefix: Seq<char>) -> Option<u32> {
    match strip(name, prefix) {
        Some(k) => if k.len() == 1 {
            letter_bits(k[0])
        } else {
            None
        },
        None => None,
    }
}

/// The lane width, where `name` is `prefix`, a letter and anything.
pub open spec fn first_letter(name: Seq<char>, prefix: Seq<char>) -> Option<u32> {
    match strip(name, prefix) {
        Some(k) => if k.len() >= 1 {
            letter_bits(k[0])
        } else {
            None
        },
        None => None,
    }
}

/// The comparison of all lanes with this name.
pub open spec fn compare_of(name: Seq<char>) -> Option<VecOp> {
    match strip(name, "fcmpmask_"@) {
        Some(k) => match split_at_last(k, '_') {
            Some((p, w)) => if w == "pd"@ {
                Some(VecOp::Compare { holds: predicate_of(p), bits: 64 })
            } else if w == "ps"@ {
                Some(VecOp::Compare { holds: predicate_of(p), bits: 32 })
            } else {
                None
            },
            None => None,
        },
        None => None,
    }
}

/// The floating-point operation on all lanes with this name.
pub open spec fn float_lanes_of(name: Seq<char>) -> Option<VecOp> {
    if name == "addpd"@ {
        Some(VecOp::Float { float: FloatOp::AddD, bits: 64 })
    } else if name == "subpd"@ {
        Some(VecOp::Float { float: FloatOp::SubD, bits: 64 })
    } else if name == "mulpd"@ {
        Some(VecOp::Float { float: FloatOp::MulD, bits: 64 })
    } else if name == "divpd"@ {
        Some(VecOp::Float { float: FloatOp::DivD, bits: 64 })
    } else if name == "addps"@ {
        Some(VecOp::Float { float: FloatOp::AddS, bits: 32 })
    } else if name == "subps"@ {
        Some(VecOp::Float { float: FloatOp::SubS, bits: 32 })
    } else if name == "mulps"@ {
        Some(VecOp::Float { float: FloatOp::MulS, bits: 32 })
    } else if name == "divps"@ {
        Some(VecOp::Float { float: FloatOp::DivS, bits: 32 })
    } else {
        None
    }
}

/// The vector operation with this name, which is without its leading `__` and,
/// where the three-operand form is named, without its `v`.
pub open spec fn vec_op_of(name: Seq<char>) -> Option<VecOp> {
    if strip(name, "punpckl"@) is Some {
        match unpack_bits(strip(name, "punpckl"@)->0) {
            Some(bits) => Some(VecOp::Unpack { bits, high: false }),
            None => None,
        }
    } else if strip(name, "punpckh"@) is Some {
        match unpack_bits(strip(name, "punpckh"@)->0) {
            Some(bits) => Some(VecOp::Unpack { bits, high: true }),
            None => None,
        }
    } else if strip(name, "unpckl"@) is Some {
        match unpack_float_bits(strip(name, "unpckl"@)->0) {
            Some(bits) => Some(VecOp::Unpack { bits, high: false }),
            None => None,
        }
    } else if strip(name, "unpckh"@) is Some {
        match unpack_float_bits(strip(name, "unpckh"@)->0) {
            Some(bits) => Some(VecOp::Unpack { bits, high: true }),
            None => None,
        }
    } else if one_letter(name, "padd"@) is Some {
        Some(VecOp::Lane { op: LaneOp::Sum, bits: one_letter(name, "padd"@)->0 })
    } else if one_letter(name, "psub"@) is Some {
        Some(VecOp::Lane { op: LaneOp::Difference, bits: one_letter(name, "psub"@)->0 })
    } else if first_letter(name, "pcmpeq"@) is Some {
        Some(VecOp::Lane { op: LaneOp::Same, bits: first_letter(name, "pcmpeq"@)->0 })
    } else if first_letter(name, "pcmpgt"@) is Some {
        Some(VecOp::Lane { op: LaneOp::Greater, bits: first_letter(name, "pcmpgt"@)->0 })
    } else if compare_of(name) is Some {
        compare_of(name)
    } else if name == "pslldq"@ {
        Some(VecOp::ShiftBytes { left: true })
    } else if name == "psrldq"@ {
        Some(VecOp::ShiftBytes { left: false })
    } else if one_letter(name, "psll"@) is Some {
        Some(VecOp::Shift { shift: ShiftOp::Left, bits: one_letter(name, "psll"@)->0 })
    } else if one_letter(name, "psrl"@) is Some {
        Some(VecOp::Shift { shift: ShiftOp::Right, bits: one_letter(name, "psrl"@)->0 })
    } else if one_letter(name, "psra"@) is Some {
        Some(VecOp::Shift { shift: ShiftOp::Arithmetic, bits: one_letter(name, "psra"@)->0 })
    } else if name == "pshufd"@ {
        Some(VecOp::Shuffle)
    } else if name == "pmovmskb"@ {
        Some(VecOp::MoveMask)
    } else {
        float_lanes_of(name)
    }
}

fn find_unpack_bits(k: &str) -> (r: Option<u32>)
    ensures
        r == unpack_bits(k@),
{
    if same(k, "bw") {
        Some(8)
    } else if same(k, "wd") {
        Some(16)
    } else if same(k, "dq") {
        Some(32)
    } else if same(k, "qdq") {
        Some(64)
    } else {
        None
    }
}

fn find_unpack_float_bits(k: &str) -> (r: Option<u32>)
    ensures
        r == unpack_float_bits(k@),
{
    if same(k, "ps") {
        Some(32)
    } else if same(k, "pd") {
        Some(64)
    } else {
        None
    }
}

fn find_one_letter(name: &str, prefix: &str) -> (r: Option<u32>)
    ensures
        r == one_letter(name@, prefix@),
{
    match strip_text(name, prefix) {
        Some(k) => {
            if k.unicode_len() == 1 {
                lane_bits(k.get_char(0))
            } else {
                None
            }
        },
        None => None,
    }
}

fn find_first_letter(name: &str, prefix: &str) -> (r: Option<u32>)
    ensures
        r == first_letter(name@, prefix@),
{
    match strip_text(name, prefix) {
        Some(k) => {
            if k.unicode_len() >= 1 {
                lane_bits(k.get_char(0))
            } else {
                None
            }
        },
        None => None,
    }
}

fn find_compare(name: &str) -> (r: Option<VecOp>)
    ensures
        r == compare_of(name@),
{
    match strip_text(name, "fcmpmask_") {
        Some(k) => match split_last(k, '_') {
            Some((p, w)) => {
                if same(w, "pd") {
                    Some(VecOp::Compare { holds: find_predicate(p), bits: 64 })
                } else if same(w, "ps") {
                    Some(VecOp::Compare { holds: find_predicate(p), bits: 32 })
                } else {
                    None
                }
            },
            None => None,
        },
        None => None,
    }
}

fn find_float_lanes(name: &str) -> (r: Option<VecOp>)
    ensures
        r == float_lanes_of(name@),
{
    if same(name, "addpd") {
        Some(VecOp::Float { float: FloatOp::AddD, bits: 64 })
    } else if same(name, "subpd") {
        Some(VecOp::Float { float: FloatOp::SubD, bits: 64 })
    } else if same(name, "mulpd") {
        Some(VecOp::Float { float: FloatOp::MulD, bits: 64 })
    } else if same(name, "divpd") {
        Some(VecOp::Float { float: FloatOp::DivD, bits: 64 })
    } else if same(name, "addps") {
        Some(VecOp::Float { float: FloatOp::AddS, bits: 32 })
    } else if same(name, "subps") {
        Some(VecOp::Float { float: FloatOp::SubS, bits: 32 })
    } else if same(name, "mulps") {
        Some(VecOp::Float { float: FloatOp::MulS, bits: 32 })
    } else if same(name, "divps") {
        Some(VecOp::Float { float: FloatOp::DivS, bits: 32 })
    } else {
        None
    }
}

fn find_vec_op(name: &str) -> (r: Option<VecOp>)
    ensures
        r == vec_op_of(name@),
{
    if let Some(k) = strip_text(name, "punpckl") {
        return match find_unpack_bits(k) {
            Some(bits) => Some(VecOp::Unpack { bits, high: false }),
            None => None,
        };
    }
    if let Some(k) = strip_text(name, "punpckh") {
        return match find_unpack_bits(k) {
            Some(bits) => Some(VecOp::Unpack { bits, high: true }),
            None => None,
        };
    }
    if let Some(k) = strip_text(name, "unpckl") {
        return match find_unpack_float_bits(k) {
            Some(bits) => Some(VecOp::Unpack { bits, high: false }),
            None => None,
        };
    }
    if let Some(k) = strip_text(name, "unpckh") {
        return match find_unpack_float_bits(k) {
            Some(bits) => Some(VecOp::Unpack { bits, high: true }),
            None => None,
        };
    }
    if let Some(bits) = find_one_letter(name, "padd") {
        return Some(VecOp::Lane { op: LaneOp::Sum, bits });
    }
    if let Some(bits) = find_one_letter(name, "psub") {
        return Some(VecOp::Lane { op: LaneOp::Difference, bits });
    }
    if let Some(bits) = find_first_letter(name, "pcmpeq") {
        return Some(VecOp::Lane { op: LaneOp::Same, bits });
    }
    if let Some(bits) = find_first_letter(name, "pcmpgt") {
        return Some(VecOp::Lane { op: LaneOp::Greater, bits });
    }
    if let Some(op) = find_compare(name) {
        return Some(op);
    }
    if same(name, "pslldq") {
        return Some(VecOp::ShiftBytes { left: true });
    }
    if same(name, "psrldq") {
        return Some(VecOp::ShiftBytes { left: false });
    }
    if let Some(bits) = find_one_letter(name, "psll") {
        return Some(VecOp::Shift { shift: ShiftOp::Left, bits });
    }
    if let Some(bits) = find_one_letter(name, "psrl") {
        return Some(VecOp::Shift { shift: ShiftOp::Right, bits });
    }
    if let Some(bits) = find_one_letter(name, "psra") {
        return Some(VecOp::Shift { shift: ShiftOp::Arithmetic, bits });
    }
    if same(name, "pshufd") {
        return Some(VecOp::Shuffle);
    }
    if same(name, "pmovmskb") {
        return Some(VecOp::MoveMask);
    }
    find_float_lanes(name)
}

/// Lanes `off..off + k` of two vectors, one from each in turn.
pub open spec fn interleaved(la: Seq<u128>, lb: Seq<u128>, off: int, k: nat) -> Seq<u128> {
    Seq::new(
        2 * k,
        |i: int|
            if i % 2 == 0 {
                la[off + i / 2]
            } else {
                lb[off + i / 2]
            },
    )
}

/// What an operation gives on two lanes of `bits` bits.
pub open spec fn lane_result(op: LaneOp, bits: u32, x: u128, y: u128) -> u128 {
    let p = pow2(bits as nat) as int;
    match op {
        LaneOp::Sum => ((x + y) % p) as u128,
        LaneOp::Difference => ((x - y) % p) as u128,
        LaneOp::Same => if x == y {
            (p - 1) as u128
        } else {
            0
        },
        LaneOp::Greater => if signed_of(x, bits) > signed_of(y, bits) {
            (p - 1) as u128
        } else {
            0
        },
    }
}

/// What a comparison gives on two lanes of `bits` bits.
pub open spec fn compare_result(holds: Option<Predicate>, bits: u32, x: u128, y: u128) -> u128 {
    match holds {
        Some(p) => if p.holds_for(relation(x as u64, y as u64, bits == 64)) {
            (pow2(bits as nat) - 1) as u128
        } else {
            0
        },
        None => 0,
    }
}

/// A lane shifted by `n` bits. A count of the lane's width or more shifts
/// everything out, or leaves copies of the top bit.
pub open spec fn shift_result(op: ShiftOp, bits: u32, l: u128, n: u128) -> u128 {
    match op {
        ShiftOp::Left => if n >= bits {
            0
        } else {
            shift_left(l, n as nat, bits as nat)
        },
        ShiftOp::Right => if n >= bits {
            0
        } else {
            (l as nat / pow2(n as nat)) as u128
        },
        ShiftOp::Arithmetic => shift_right_signed(
            l,
            (if n < bits {
                n as int
            } else {
                bits - 1
            }) as nat,
            bits as nat,
        ),
    }
}

/// The whole register shifted by `n` bytes.
pub open spec fn bytes_shifted(v: u128, n: u128, left: bool) -> u128 {
    if n >= 16 {
        0
    } else if left {
        ((v * pow2((8 * n) as nat)) % wide()) as u128
    } else {
        (v as nat / pow2((8 * n) as nat)) as u128
    }
}

/// The top bits of bytes, lowest byte first.
pub open spec fn top_bits(ls: Seq<u128>) -> nat
    decreases ls.len(),
{
    if ls.len() == 0 {
        0
    } else {
        (ls[0] / 128) as nat + 2 * top_bits(ls.skip(1))
    }
}

/// Four lanes picked by two bits of the selector each.
pub open spec fn picked(src: Seq<u128>, sel: u32) -> Seq<u128> {
    seq![
        src[sel as int % 4],
        src[(sel as int / 4) % 4],
        src[(sel as int / 16) % 4],
        src[(sel as int / 64) % 4],
    ]
}

/// The results of a floating-point operation on the first `k` lanes, or the
/// first that is not known.
pub open spec fn float_lanes(
    facts: Seq<FloatFact>,
    op: FloatOp,
    la: Seq<u128>,
    lb: Seq<u128>,
    k: int,
) -> Result<Seq<u128>, FloatCall>
    decreases k,
{
    if k <= 0 {
        Ok(Seq::empty())
    } else {
        match float_lanes(facts, op, la, lb, k - 1) {
            Ok(done) => {
                let call = FloatCall { op, a: la[k - 1] as u64, b: lb[k - 1] as u64 };
                match fact_of(facts, call) {
                    Some(r) => Ok(done.push(r as u128)),
                    None => Err(call),
                }
            },
            Err(c) => Err(c),
        }
    }
}

/// What a vector operation gives.
pub open spec fn packed_of(facts: Seq<FloatFact>, op: VecOp, args: Seq<u128>) -> Answer {
    match op {
        VecOp::MoveMask => if args.len() < 1 {
            Answer::Gap
        } else {
            Answer::Value(top_bits(lanes_of(args[0], 8, 16)) as u128)
        },
        VecOp::Shuffle => if args.len() < 2 {
            Answer::Gap
        } else {
            Answer::Value(
                joined(
                    picked(lanes_of(args[args.len() - 2], 32, 4), low32(low64(args[args.len() - 1]))),
                    32,
                ) as u128,
            )
        },
        _ => if args.len() < 2 {
            Answer::Gap
        } else {
            binary_of(facts, op, args[0], args[1])
        },
    }
}

/// What a vector operation of two operands gives.
pub open spec fn binary_of(facts: Seq<FloatFact>, op: VecOp, a: u128, b: u128) -> Answer {
    match op {
        VecOp::Unpack { bits, high } => {
            let n = lane_count(bits);
            let off = if high {
                n as int / 2
            } else {
                0
            };
            Answer::Value(joined(interleaved(lanes_of(a, bits, n), lanes_of(b, bits, n), off, n / 2), bits) as u128)
        },
        VecOp::Lane { op, bits } => {
            let n = lane_count(bits);
            let la = lanes_of(a, bits, n);
            let lb = lanes_of(b, bits, n);
            Answer::Value(joined(Seq::new(n, |i: int| lane_result(op, bits, la[i], lb[i])), bits) as u128)
        },
        VecOp::Compare { holds, bits } => {
            let n = lane_count(bits);
            let la = lanes_of(a, bits, n);
            let lb = lanes_of(b, bits, n);
            Answer::Value(joined(Seq::new(n, |i: int| compare_result(holds, bits, la[i], lb[i])), bits) as u128)
        },
        VecOp::ShiftBytes { left } => Answer::Value(bytes_shifted(a, b, left)),
        VecOp::Shift { shift, bits } => {
            let n = lane_count(bits);
            let la = lanes_of(a, bits, n);
            Answer::Value(joined(Seq::new(n, |i: int| shift_result(shift, bits, la[i], b)), bits) as u128)
        },
        VecOp::Float { float, bits } => {
            let n = lane_count(bits);
            match float_lanes(facts, float, lanes_of(a, bits, n), lanes_of(b, bits, n), n as int) {
                Ok(ls) => Answer::Value(joined(ls, bits) as u128),
                Err(c) => Answer::Unknown(c),
            }
        },
        _ => Answer::Gap,
    }
}

/// A vector operation whose lanes have a width that fits.
pub open spec fn vec_op_ok(op: VecOp) -> bool {
    match op {
        VecOp::Unpack { bits, .. } => lane_width(bits),
        VecOp::Lane { bits, .. } => lane_width(bits),
        VecOp::Compare { bits, .. } => bits == 32 || bits == 64,
        VecOp::Shift { bits, .. } => lane_width(bits),
        VecOp::Float { bits, .. } => bits == 32 || bits == 64,
        _ => true,
    }
}

fn unpack(a: u128, b: u128, bits: u32, high: bool) -> (r: u128)
    requires
        lane_width(bits),
    ensures
        Answer::Value(r) == binary_of(Seq::empty(), VecOp::Unpack { bits, high }, a, b),
{
    let la = lanes(a, bits);
    let lb = lanes(b, bits);
    let n: usize = la.len();
    let off: usize = if high {
        n / 2
    } else {
        0
    };
    let mut out: Vec<u128> = Vec::new();
    let mut i: usize = 0;
    while i < n / 2
        invariant
            i <= n / 2,
            n == la@.len(),
            n == lb@.len(),
            n <= 16,
            off <= n / 2,
            out@.len() == 2 * i,
            forall|j: int| 0 <= j < 2 * i ==> #[trigger] out@[j] == interleaved(la@, lb@, off as int, (n / 2) as nat)[j],
        decreases n - i,
    {
        out.push(la[off + i]);
        out.push(lb[off + i]);
        i = i + 1;
    }
    assert(out@ =~= interleaved(la@, lb@, off as int, (n / 2) as nat));
    from_lanes(&out, bits)
}

fn one_lane(op: LaneOp, bits: u32, x: u128, y: u128) -> (r: u128)
    requires
        lane_width(bits),
        x < pow2(bits as nat),
        y < pow2(bits as nat),
    ensures
        r == lane_result(op, bits, x, y),
{
    let p: u128 = two_to(bits);
    proof {
        lemma_pow2_values();
    }
    match op {
        LaneOp::Sum => (x + y) % p,
        LaneOp::Difference => {
            if x >= y {
                proof {
                    vstd::arithmetic::div_mod::lemma_small_mod((x - y) as nat, p as nat);
                }
                x - y
            } else {
                proof {
                    vstd::arithmetic::div_mod::lemma_fundamental_div_mod_converse(
                        x - y,
                        p as int,
                        -1,
                        x - y + p,
                    );
                }
                x + (p - y)
            }
        },
        LaneOp::Same => {
            if x == y {
                p - 1
            } else {
                0
            }
        },
        LaneOp::Greater => {
            let sx = read_signed(x, bits);
            let sy = read_signed(y, bits);
            let greater = if sx.neg {
                sy.neg && sx.mag < sy.mag
            } else if sy.neg {
                sx.mag > 0 || sy.mag > 0
            } else {
                sx.mag > sy.mag
            };
            if greater {
                p - 1
            } else {
                0
            }
        },
    }
}

fn lane2(op: LaneOp, bits: u32, a: u128, b: u128) -> (r: u128)
    requires
        lane_width(bits),
    ensures
        Answer::Value(r) == binary_of(Seq::empty(), VecOp::Lane { op, bits }, a, b),
{
    let la = lanes(a, bits);
    let lb = lanes(b, bits);
    let mut out: Vec<u128> = Vec::new();
    let mut i: usize = 0;
    while i < la.len()
        invariant
            i <= la@.len(),
            la@.len() == lb@.len(),
            lane_width(bits),
            forall|j: int| 0 <= j < la@.len() ==> (#[trigger] la@[j]) < pow2(bits as nat),
            forall|j: int| 0 <= j < lb@.len() ==> (#[trigger] lb@[j]) < pow2(bits as nat),
            out@.len() == i,
            forall|j: int| 0 <= j < i ==> #[trigger] out@[j] == lane_result(op, bits, la@[j], lb@[j]),
        decreases la@.len() - i,
    {
        let x: u128 = la[i];
        let y: u128 = lb[i];
        out.push(one_lane(op, bits, x, y));
        i = i + 1;
    }
    proof {
        let n = lane_count(bits);
        let sa = lanes_of(a, bits, n);
        let sb = lanes_of(b, bits, n);
        assert(out@ =~= Seq::new(n, |i: int| lane_result(op, bits, sa[i], sb[i])));
    }
    from_lanes(&out, bits)
}

fn compare_lanes(holds: Option<Predicate>, bits: u32, a: u128, b: u128) -> (r: u128)
    requires
        bits == 32 || bits == 64,
    ensures
        Answer::Value(r) == binary_of(Seq::empty(), VecOp::Compare { holds, bits }, a, b),
{
    let la = lanes(a, bits);
    let lb = lanes(b, bits);
    let p: u128 = two_to(bits);
    let mut out: Vec<u128> = Vec::new();
    let mut i: usize = 0;
    while i < la.len()
        invariant
            i <= la@.len(),
            la@.len() == lb@.len(),
            bits == 32 || bits == 64,
            p == pow2(bits as nat),
            p > 0,
            forall|j: int| 0 <= j < la@.len() ==> (#[trigger] la@[j]) < pow2(bits as nat),
            forall|j: int| 0 <= j < lb@.len() ==> (#[trigger] lb@[j]) < pow2(bits as nat),
            out@.len() == i,
            forall|j: int| 0 <= j < i ==> #[trigger] out@[j] == compare_result(holds, bits, la@[j], lb@[j]),
        decreases la@.len() - i,
    {
        proof {
            lemma_pow2_values();
        }
        let x: u64 = la[i] as u64;
        let y: u64 = lb[i] as u64;
        let taken = match holds {
            Some(h) => h.accepts(compare_bits(x, y, bits == 64)),
            None => false,
        };
        if taken {
            out.push(p - 1);
        } else {
            out.push(0);
        }
        i = i + 1;
    }
    proof {
        let n = lane_count(bits);
        let sa = lanes_of(a, bits, n);
        let sb = lanes_of(b, bits, n);
        assert(out@ =~= Seq::new(n, |i: int| compare_result(holds, bits, sa[i], sb[i])));
    }
    from_lanes(&out, bits)
}

fn shift_bytes(v: u128, n: u128, left: bool) -> (r: u128)
    ensures
        r == bytes_shifted(v, n, left),
{
    if n >= 16 {
        return 0;
    }
    let k: u32 = 8 * (n as u32);
    if !left {
        proof {
            vstd::arithmetic::power2::lemma_pow2_pos(k as nat);
            lemma_quotient_le(v as int, pow2(k as nat) as int);
        }
        return v / two_to(k);
    }
    if n == 0 {
        proof {
            vstd::arithmetic::power2::lemma2_to64();
            assert(k == 0);
            assert(v * pow2(0) == v) by (nonlinear_arith)
                requires
                    pow2(0) == 1,
            ;
            vstd::arithmetic::div_mod::lemma_small_mod(v as nat, wide() as nat);
        }
        return v;
    }
    let c: u128 = two_to(k);
    let m: u128 = two_to(128 - k);
    let low: u128 = v % m;
    proof {
        lemma_pow2_values();
        vstd::arithmetic::power2::lemma_pow2_adds((128 - k) as nat, k as nat);
        vstd::arithmetic::div_mod::lemma_fundamental_div_mod(v as int, m as int);
        lemma_product_fits(low as nat, (128 - k) as nat, k as nat);
        let q = v as int / (m as int);
        assert(v * c == q * (m * c) + low * c) by (nonlinear_arith)
            requires
                v == m * q + low,
        ;
        vstd::arithmetic::div_mod::lemma_fundamental_div_mod_converse(
            v * c,
            wide(),
            q,
            low * c,
        );
    }
    low * c
}

fn shift_lane(op: ShiftOp, bits: u32, l: u128, n: u128) -> (r: u128)
    requires
        lane_width(bits),
        l < pow2(bits as nat),
    ensures
        r == shift_result(op, bits, l, n),
{
    match op {
        ShiftOp::Left => {
            if n >= bits as u128 {
                0
            } else {
                shl(l, n as u32, bits)
            }
        },
        ShiftOp::Right => {
            if n >= bits as u128 {
                0
            } else {
                proof {
                    vstd::arithmetic::power2::lemma_pow2_pos(n as nat);
                    lemma_quotient_le(l as int, pow2(n as nat) as int);
                }
                l / two_to(n as u32)
            }
        },
        ShiftOp::Arithmetic => {
            let by: u32 = if n < bits as u128 {
                n as u32
            } else {
                bits - 1
            };
            sar(l, by, bits)
        },
    }
}

fn shift_lanes(op: ShiftOp, bits: u32, a: u128, n: u128) -> (r: u128)
    requires
        lane_width(bits),
    ensures
        r == joined(
            Seq::new(lane_count(bits), |i: int| shift_result(op, bits, lanes_of(a, bits, lane_count(bits))[i], n)),
            bits,
        ),
{
    let la = lanes(a, bits);
    let mut out: Vec<u128> = Vec::new();
    let mut i: usize = 0;
    while i < la.len()
        invariant
            i <= la@.len(),
            lane_width(bits),
            forall|j: int| 0 <= j < la@.len() ==> (#[trigger] la@[j]) < pow2(bits as nat),
            out@.len() == i,
            forall|j: int| 0 <= j < i ==> #[trigger] out@[j] == shift_result(op, bits, la@[j], n),
        decreases la@.len() - i,
    {
        let x: u128 = la[i];
        out.push(shift_lane(op, bits, x, n));
        i = i + 1;
    }
    assert(out@ =~= Seq::new(
        lane_count(bits),
        |i: int| shift_result(op, bits, lanes_of(a, bits, lane_count(bits))[i], n),
    ));
    from_lanes(&out, bits)
}

fn move_mask(v: u128) -> (r: u128)
    ensures
        r == top_bits(lanes_of(v, 8, 16)),
{
    let ls = lanes(v, 8);
    let mut i: usize = ls.len();
    let mut acc: u128 = 0;
    assert(ls@.skip(i as int) =~= Seq::<u128>::empty());
    proof {
        lemma_pow2_values();
        vstd::arithmetic::power2::lemma2_to64();
    }
    while i > 0
        invariant
            i <= ls@.len(),
            ls@.len() == 16,
            forall|j: int| 0 <= j < ls@.len() ==> (#[trigger] ls@[j]) < 256,
            acc == top_bits(ls@.skip(i as int)),
            acc < pow2((16 - i) as nat),
        decreases i,
    {
        i = i - 1;
        proof {
            assert(ls@.skip(i as int).skip(1) =~= ls@.skip(i + 1));
            vstd::arithmetic::power2::lemma_pow2_unfold((16 - i) as nat);
            vstd::arithmetic::power2::lemma_pow2_strictly_increases((15 - i) as nat, 64);
            lemma_pow2_values();
        }
        acc = ls[i] / 128 + 2 * acc;
    }
    assert(ls@.skip(0) =~= ls@);
    acc
}

fn float_each(facts: &Vec<FloatFact>, op: FloatOp, bits: u32, a: u128, b: u128) -> (r: Answer)
    requires
        bits == 32 || bits == 64,
    ensures
        r == binary_of(facts@, VecOp::Float { float: op, bits }, a, b),
{
    let la = lanes(a, bits);
    let lb = lanes(b, bits);
    let mut out: Vec<u128> = Vec::new();
    let mut i: usize = 0;
    proof {
        lemma_pow2_values();
    }
    while i < la.len()
        invariant
            i <= la@.len(),
            la@.len() == lb@.len(),
            la@ == lanes_of(a, bits, lane_count(bits)),
            lb@ == lanes_of(b, bits, lane_count(bits)),
            la@.len() == lane_count(bits),
            forall|j: int| 0 <= j < la@.len() ==> (#[trigger] la@[j]) < WORD,
            forall|j: int| 0 <= j < lb@.len() ==> (#[trigger] lb@[j]) < WORD,
            out@.len() == i,
            float_lanes(facts@, op, la@, lb@, i as int) == Ok::<Seq<u128>, FloatCall>(out@),
        decreases la@.len() - i,
    {
        let call = FloatCall { op, a: la[i] as u64, b: lb[i] as u64 };
        match find_fact(facts, call) {
            Some(r) => {
                out.push(r as u128);
            },
            None => {
                proof {
                    lemma_float_lanes_err(facts@, op, la@, lb@, i + 1, la@.len() as int);
                }
                return Answer::Unknown(call);
            },
        }
        i = i + 1;
    }
    Answer::Value(from_lanes(&out, bits))
}

proof fn lemma_float_lanes_err(
    facts: Seq<FloatFact>,
    op: FloatOp,
    la: Seq<u128>,
    lb: Seq<u128>,
    i: int,
    k: int,
)
    requires
        i <= k,
        float_lanes(facts, op, la, lb, i) is Err,
    ensures
        float_lanes(facts, op, la, lb, k) == float_lanes(facts, op, la, lb, i),
    decreases k - i,
{
    if i < k {
        lemma_float_lanes_err(facts, op, la, lb, i, k - 1);
    }
}

/// A vector operation, lane by lane.
pub fn packed(facts: &Vec<FloatFact>, op: VecOp, args: &Vec<u128>) -> (r: Answer)
    requires
        vec_op_ok(op),
    ensures
        r == packed_of(facts@, op, args@),
{
    let n: usize = args.len();
    match op {
        VecOp::MoveMask => {
            if n < 1 {
                Answer::Gap
            } else {
                Answer::Value(move_mask(args[0]))
            }
        },
        VecOp::Shuffle => {
            if n < 2 {
                Answer::Gap
            } else {
                let sel: u32 = cut32(cut64(args[n - 1]));
                let src = lanes(args[n - 2], 32);
                let mut out: Vec<u128> = Vec::new();
                out.push(src[(sel % 4) as usize]);
                out.push(src[((sel / 4) % 4) as usize]);
                out.push(src[((sel / 16) % 4) as usize]);
                out.push(src[((sel / 64) % 4) as usize]);
                assert(out@ =~= picked(src@, sel));
                Answer::Value(from_lanes(&out, 32))
            }
        },
        VecOp::Unpack { bits, high } => {
            if n < 2 {
                Answer::Gap
            } else {
                Answer::Value(unpack(args[0], args[1], bits, high))
            }
        },
        VecOp::Lane { op, bits } => {
            if n < 2 {
                Answer::Gap
            } else {
                Answer::Value(lane2(op, bits, args[0], args[1]))
            }
        },
        VecOp::Compare { holds, bits } => {
            if n < 2 {
                Answer::Gap
            } else {
                Answer::Value(compare_lanes(holds, bits, args[0], args[1]))
            }
        },
        VecOp::ShiftBytes { left } => {
            if n < 2 {
                Answer::Gap
            } else {
                Answer::Value(shift_bytes(args[0], args[1], left))
            }
        },
        VecOp::Shift { shift, bits } => {
            if n < 2 {
                Answer::Gap
            } else {
                let v: u128 = shift_lanes(shift, bits, args[0], args[1]);
                proof {
                    let k = lane_count(bits);
                    let la = lanes_of(args@[0], bits, k);
                    assert(Seq::new(k, |i: int| shift_result(shift, bits, la[i], args@[1])) =~= Seq::new(
                        k,
                        |i: int| shift_result(shift, bits, lanes_of(args@[0], bits, k)[i], args@[1]),
                    ));
                }
                Answer::Value(v)
            }
        },
        VecOp::Float { float, bits } => {
            if n < 2 {
                Answer::Gap
            } else {
                float_each(facts, float, bits, args[0], args[1])
            }
        },
    }
}

// ---------------------------------------------------------------------------
// Scalar floating point
// ---------------------------------------------------------------------------

/// A scalar floating-point operation.
#[derive(Clone, Copy, Debug, PartialEq, Eq, Structural)]
pub enum ScalarOp {
    /// Two operands in the same precision.
    Two { float: FloatOp, double: bool },
    /// The square root.
    Root { double: bool },
    /// The first operand where it is less, and the second otherwise.
    Min { double: bool },
    /// The first operand where it is greater, and the second otherwise.
    Max { double: bool },
    /// A conversion of one operand; `wide` if all its 64 bits count.
    Convert { float: FloatOp, wide: bool },
    /// Rounding towards zero to an integer.
    Truncate { double: bool },
    /// A comparison that gives 1 or 0.
    Test { holds: Predicate, double: bool },
    /// A comparison that gives ones or zeros in the bits of the operand.
    Mask { holds: Predicate, double: bool },
}

/// The comparison named by what follows the prefix: the predicate, `_` and the
/// width.
pub open spec fn test_of(k: Seq<char>) -> Option<(Predicate, bool)> {
    match split_at_last(k, '_') {
        Some((p, w)) => match predicate_of(p) {
            Some(h) => Some((h, w == "sd"@)),
            None => None,
        },
        None => None,
    }
}

/// The comparison of whole vectors is not a scalar one.
pub open spec fn is_packed(k: Seq<char>) -> bool {
    match split_at_last(k, '_') {
        Some((_, w)) => w == "pd"@ || w == "ps"@,
        None => false,
    }
}

/// The scalar operation with this name, which is without its leading `__` and,
/// where the three-operand form is named, without its `v`.
pub open spec fn scalar_op_of(name: Seq<char>) -> Option<ScalarOp> {
    if strip(name, "fcmpmask_"@) is Some {
        let k = strip(name, "fcmpmask_"@)->0;
        if is_packed(k) {
            None
        } else {
            match test_of(k) {
                Some((holds, double)) => Some(ScalarOp::Mask { holds, double }),
                None => None,
            }
        }
    } else if strip(name, "fcmp_"@) is Some {
        match test_of(strip(name, "fcmp_"@)->0) {
            Some((holds, double)) => Some(ScalarOp::Test { holds, double }),
            None => None,
        }
    } else if name == "addsd"@ {
        Some(ScalarOp::Two { float: FloatOp::AddD, double: true })
    } else if name == "subsd"@ {
        Some(ScalarOp::Two { float: FloatOp::SubD, double: true })
    } else if name == "mulsd"@ {
        Some(ScalarOp::Two { float: FloatOp::MulD, double: true })
    } else if name == "divsd"@ {
        Some(ScalarOp::Two { float: FloatOp::DivD, double: true })
    } else if name == "minsd"@ {
        Some(ScalarOp::Min { double: true })
    } else if name == "maxsd"@ {
        Some(ScalarOp::Max { double: true })
    } else if name == "sqrtsd"@ {
        Some(ScalarOp::Root { double: true })
    } else if name == "addss"@ {
        Some(ScalarOp::Two { float: FloatOp::AddS, double: false })
    } else if name == "subss"@ {
        Some(ScalarOp::Two { float: FloatOp::SubS, double: false })
    } else if name == "mulss"@ {
        Some(ScalarOp::Two { float: FloatOp::MulS, double: false })
    } else if name == "divss"@ {
        Some(ScalarOp::Two { float: FloatOp::DivS, double: false })
    } else if name == "minss"@ {
        Some(ScalarOp::Min { double: false })
    } else if name == "maxss"@ {
        Some(ScalarOp::Max { double: false })
    } else if name == "sqrtss"@ {
        Some(ScalarOp::Root { double: false })
    } else if name == "cvtsi2sd"@ {
        Some(ScalarOp::Convert { float: FloatOp::IntToD, wide: true })
    } else if name == "cvtsi2ss"@ {
        Some(ScalarOp::Convert { float: FloatOp::IntToS, wide: true })
    } else if name == "cvtsd2ss"@ {
        Some(ScalarOp::Convert { float: FloatOp::DToS, wide: true })
    } else if name == "cvtss2sd"@ {
        Some(ScalarOp::Convert { float: FloatOp::SToD, wide: false })
    } else if name == "cvttsd2si"@ || name == "cvtsd2si"@ {
        Some(ScalarOp::Truncate { double: true })
    } else if name == "cvttss2si"@ || name == "cvtss2si"@ {
        Some(ScalarOp::Truncate { double: false })
    } else {
        None
    }
}

/// The bits of an operand in its precision.
pub open spec fn operand(v: u64, double: bool) -> u64 {
    if double {
        v
    } else {
        low32(v) as u64
    }
}

/// The result in place of the operand's bits: a single-precision result leaves
/// the upper half of the operand as it is.
pub open spec fn merged(dst: u64, r: u64, double: bool) -> u64 {
    if double {
        r
    } else {
        (dst - dst % 0x1_0000_0000 + r % 0x1_0000_0000) as u64
    }
}

/// Whether the result is in single precision.
pub open spec fn gives_single(op: FloatOp) -> bool {
    op == FloatOp::IntToS || op == FloatOp::DToS
}

pub open spec fn fact_answer(facts: Seq<FloatFact>, call: FloatCall, dst: u64, double: bool) -> Answer {
    match fact_of(facts, call) {
        Some(r) => Answer::Value(merged(dst, r, double) as u128),
        None => Answer::Unknown(call),
    }
}

pub open spec fn all_ones(b: bool) -> u64 {
    if b {
        u64::MAX
    } else {
        0
    }
}

/// What a scalar operation gives.
pub open spec fn scalar_of(facts: Seq<FloatFact>, op: ScalarOp, args: Seq<u128>) -> Answer {
    let two = match op {
        ScalarOp::Two { .. } | ScalarOp::Min { .. } | ScalarOp::Max { .. } => true,
        ScalarOp::Test { .. } | ScalarOp::Mask { .. } => true,
        _ => false,
    };
    if args.len() < 1 || (two && args.len() < 2) {
        Answer::Gap
    } else {
        let a = low64(args[0]);
        let b = low64(args[1]);
        match op {
            ScalarOp::Two { float, double } => fact_answer(
                facts,
                FloatCall { op: float, a: operand(a, double), b: operand(b, double) },
                a,
                double,
            ),
            ScalarOp::Root { double } => fact_answer(
                facts,
                FloatCall {
                    op: if double {
                        FloatOp::SqrtD
                    } else {
                        FloatOp::SqrtS
                    },
                    a: operand(a, double),
                    b: 0,
                },
                a,
                double,
            ),
            ScalarOp::Min { double } => Answer::Value(
                merged(
                    a,
                    if relation(operand(a, double), operand(b, double), double) == Relation::Less {
                        a
                    } else {
                        b
                    },
                    double,
                ) as u128,
            ),
            ScalarOp::Max { double } => Answer::Value(
                merged(
                    a,
                    if relation(operand(a, double), operand(b, double), double) == Relation::Greater {
                        a
                    } else {
                        b
                    },
                    double,
                ) as u128,
            ),
            ScalarOp::Convert { float, wide } => fact_answer(
                facts,
                FloatCall { op: float, a: operand(a, wide), b: 0 },
                0,
                !gives_single(float),
            ),
            ScalarOp::Truncate { double } => Answer::Value(truncated(operand(a, double), double) as u128),
            ScalarOp::Test { holds, double } => Answer::Value(
                if holds.holds_for(relation(operand(a, double), operand(b, double), double)) {
                    1
                } else {
                    0
                },
            ),
            ScalarOp::Mask { holds, double } => Answer::Value(
                merged(
                    a,
                    all_ones(holds.holds_for(relation(operand(a, double), operand(b, double), double))),
                    double,
                ) as u128,
            ),
        }
    }
}

fn find_test(k: &str) -> (r: Option<(Predicate, bool)>)
    ensures
        r == test_of(k@),
{
    match split_last(k, '_') {
        Some((p, w)) => match find_predicate(p) {
            Some(h) => Some((h, same(w, "sd"))),
            None => None,
        },
        None => None,
    }
}

fn names_packed(k: &str) -> (r: bool)
    ensures
        r == is_packed(k@),
{
    match split_last(k, '_') {
        Some((_, w)) => same(w, "pd") || same(w, "ps"),
        None => false,
    }
}

fn find_scalar_op(name: &str) -> (r: Option<ScalarOp>)
    ensures
        r == scalar_op_of(name@),
{
    if let Some(k) = strip_text(name, "fcmpmask_") {
        if names_packed(k) {
            return None;
        }
        return match find_test(k) {
            Some((holds, double)) => Some(ScalarOp::Mask { holds, double }),
            None => None,
        };
    }
    if let Some(k) = strip_text(name, "fcmp_") {
        return match find_test(k) {
            Some((holds, double)) => Some(ScalarOp::Test { holds, double }),
            None => None,
        };
    }
    if same(name, "addsd") {
        Some(ScalarOp::Two { float: FloatOp::AddD, double: true })
    } else if same(name, "subsd") {
        Some(ScalarOp::Two { float: FloatOp::SubD, double: true })
    } else if same(name, "mulsd") {
        Some(ScalarOp::Two { float: FloatOp::MulD, double: true })
    } else if same(name, "divsd") {
        Some(ScalarOp::Two { float: FloatOp::DivD, double: true })
    } else if same(name, "minsd") {
        Some(ScalarOp::Min { double: true })
    } else if same(name, "maxsd") {
        Some(ScalarOp::Max { double: true })
    } else if same(name, "sqrtsd") {
        Some(ScalarOp::Root { double: true })
    } else if same(name, "addss") {
        Some(ScalarOp::Two { float: FloatOp::AddS, double: false })
    } else if same(name, "subss") {
        Some(ScalarOp::Two { float: FloatOp::SubS, double: false })
    } else if same(name, "mulss") {
        Some(ScalarOp::Two { float: FloatOp::MulS, double: false })
    } else if same(name, "divss") {
        Some(ScalarOp::Two { float: FloatOp::DivS, double: false })
    } else if same(name, "minss") {
        Some(ScalarOp::Min { double: false })
    } else if same(name, "maxss") {
        Some(ScalarOp::Max { double: false })
    } else if same(name, "sqrtss") {
        Some(ScalarOp::Root { double: false })
    } else if same(name, "cvtsi2sd") {
        Some(ScalarOp::Convert { float: FloatOp::IntToD, wide: true })
    } else if same(name, "cvtsi2ss") {
        Some(ScalarOp::Convert { float: FloatOp::IntToS, wide: true })
    } else if same(name, "cvtsd2ss") {
        Some(ScalarOp::Convert { float: FloatOp::DToS, wide: true })
    } else if same(name, "cvtss2sd") {
        Some(ScalarOp::Convert { float: FloatOp::SToD, wide: false })
    } else if same(name, "cvttsd2si") || same(name, "cvtsd2si") {
        Some(ScalarOp::Truncate { double: true })
    } else if same(name, "cvttss2si") || same(name, "cvtss2si") {
        Some(ScalarOp::Truncate { double: false })
    } else {
        None
    }
}

fn cut_operand(v: u64, double: bool) -> (r: u64)
    ensures
        r == operand(v, double),
        !double ==> r <= u32::MAX,
{
    if double {
        v
    } else {
        cut32(v) as u64
    }
}

fn merge(dst: u64, r: u64, double: bool) -> (v: u64)
    ensures
        v == merged(dst, r, double),
{
    if double {
        r
    } else {
        dst - dst % 0x1_0000_0000 + r % 0x1_0000_0000
    }
}

fn look_up(facts: &Vec<FloatFact>, call: FloatCall, dst: u64, double: bool) -> (r: Answer)
    ensures
        r == fact_answer(facts@, call, dst, double),
{
    match find_fact(facts, call) {
        Some(v) => Answer::Value(merge(dst, v, double) as u128),
        None => Answer::Unknown(call),
    }
}

/// A scalar floating-point operation.
pub fn scalar_float(facts: &Vec<FloatFact>, op: ScalarOp, args: &Vec<u128>) -> (r: Answer)
    ensures
        r == scalar_of(facts@, op, args@),
{
    if args.len() < 1 {
        return Answer::Gap;
    }
    let a: u64 = cut64(args[0]);
    match op {
        ScalarOp::Root { double } => {
            let float = if double {
                FloatOp::SqrtD
            } else {
                FloatOp::SqrtS
            };
            return look_up(facts, FloatCall { op: float, a: cut_operand(a, double), b: 0 }, a, double);
        },
        ScalarOp::Convert { float, wide } => {
            let single = match float {
                FloatOp::IntToS => true,
                FloatOp::DToS => true,
                _ => false,
            };
            return look_up(facts, FloatCall { op: float, a: cut_operand(a, wide), b: 0 }, 0, !single);
        },
        ScalarOp::Truncate { double } => {
            return Answer::Value(truncate_bits(cut_operand(a, double), double) as u128);
        },
        _ => {},
    }
    if args.len() < 2 {
        return Answer::Gap;
    }
    let b: u64 = cut64(args[1]);
    match op {
        ScalarOp::Two { float, double } => look_up(
            facts,
            FloatCall { op: float, a: cut_operand(a, double), b: cut_operand(b, double) },
            a,
            double,
        ),
        ScalarOp::Min { double } => {
            let less = match compare_bits(cut_operand(a, double), cut_operand(b, double), double) {
                Relation::Less => true,
                _ => false,
            };
            let r: u64 = if less {
                a
            } else {
                b
            };
            Answer::Value(merge(a, r, double) as u128)
        },
        ScalarOp::Max { double } => {
            let greater = match compare_bits(cut_operand(a, double), cut_operand(b, double), double) {
                Relation::Greater => true,
                _ => false,
            };
            let r: u64 = if greater {
                a
            } else {
                b
            };
            Answer::Value(merge(a, r, double) as u128)
        },
        ScalarOp::Test { holds, double } => {
            let rel = compare_bits(cut_operand(a, double), cut_operand(b, double), double);
            if holds.accepts(rel) {
                Answer::Value(1)
            } else {
                Answer::Value(0)
            }
        },
        ScalarOp::Mask { holds, double } => {
            let rel = compare_bits(cut_operand(a, double), cut_operand(b, double), double);
            let ones: u64 = if holds.accepts(rel) {
                u64::MAX
            } else {
                0
            };
            Answer::Value(merge(a, ones, double) as u128)
        },
        _ => Answer::Gap,
    }
}

// ---------------------------------------------------------------------------
// Integers
// ---------------------------------------------------------------------------

/// An operation on integers.
#[derive(Clone, Copy, Debug, PartialEq, Eq, Structural)]
pub enum IntOp {
    /// An address relative to one of two segments.
    SegFs,
    SegGs,
    /// The sign of a 64-bit or 32-bit number, in all bits.
    SignQuad,
    SignDouble,
    SwapBytes,
    /// The upper half of a product.
    MulHigh,
    Quotient { signed: bool },
    Remainder { signed: bool },
}

pub open spec fn int_op_of(name: Seq<char>) -> Option<IntOp> {
    if name == "__seg_fs"@ {
        Some(IntOp::SegFs)
    } else if name == "__seg_gs"@ {
        Some(IntOp::SegGs)
    } else if name == "__cqo"@ {
        Some(IntOp::SignQuad)
    } else if name == "__cdq"@ {
        Some(IntOp::SignDouble)
    } else if name == "__bswap"@ {
        Some(IntOp::SwapBytes)
    } else if name == "__umulh"@ {
        Some(IntOp::MulHigh)
    } else if name == "__udiv"@ {
        Some(IntOp::Quotient { signed: false })
    } else if name == "__urem"@ {
        Some(IntOp::Remainder { signed: false })
    } else if name == "__idiv"@ {
        Some(IntOp::Quotient { signed: true })
    } else if name == "__irem"@ {
        Some(IntOp::Remainder { signed: true })
    } else {
        None
    }
}

fn find_int_op(name: &str) -> (r: Option<IntOp>)
    ensures
        r == int_op_of(name@),
{
    if same(name, "__seg_fs") {
        Some(IntOp::SegFs)
    } else if same(name, "__seg_gs") {
        Some(IntOp::SegGs)
    } else if same(name, "__cqo") {
        Some(IntOp::SignQuad)
    } else if same(name, "__cdq") {
        Some(IntOp::SignDouble)
    } else if same(name, "__bswap") {
        Some(IntOp::SwapBytes)
    } else if same(name, "__umulh") {
        Some(IntOp::MulHigh)
    } else if same(name, "__udiv") {
        Some(IntOp::Quotient { signed: false })
    } else if same(name, "__urem") {
        Some(IntOp::Remainder { signed: false })
    } else if same(name, "__idiv") {
        Some(IntOp::Quotient { signed: true })
    } else if same(name, "__irem") {
        Some(IntOp::Remainder { signed: true })
    } else {
        None
    }
}

/// The byte of `v` with weight 256 to the power `i`, where `w` is that weight.
pub open spec fn byte_of_weight(v: u64, w: int) -> int {
    (v as int / w) % 256
}

/// The bytes of `v` in the opposite order.
pub open spec fn swapped(v: u64) -> u64 {
    (byte_of_weight(v, 1) * 0x0100_0000_0000_0000 + byte_of_weight(v, 0x100) * 0x0001_0000_0000_0000 + byte_of_weight(
        v,
        0x1_0000,
    ) * 0x0000_0100_0000_0000 + byte_of_weight(v, 0x100_0000) * 0x0000_0001_0000_0000 + byte_of_weight(
        v,
        0x1_0000_0000,
    ) * 0x0100_0000 + byte_of_weight(v, 0x100_0000_0000) * 0x0001_0000 + byte_of_weight(v, 0x1_0000_0000_0000) * 0x0100
        + byte_of_weight(v, 0x100_0000_0000_0000)) as u64
}

fn swap_bytes(v: u64) -> (r: u64)
    ensures
        r == swapped(v),
{
    (v % 256) * 0x0100_0000_0000_0000 + ((v / 0x100) % 256) * 0x0001_0000_0000_0000 + ((v / 0x1_0000) % 256)
        * 0x0000_0100_0000_0000 + ((v / 0x100_0000) % 256) * 0x0000_0001_0000_0000 + ((v / 0x1_0000_0000) % 256)
        * 0x0100_0000 + ((v / 0x100_0000_0000) % 256) * 0x0001_0000 + ((v / 0x1_0000_0000_0000) % 256) * 0x0100 + ((v
        / 0x100_0000_0000_0000) % 256)
}

/// The dividend of a division of `bits` bits: `hi` above `lo`.
pub open spec fn dividend_of(hi: u64, lo: u64, bits: u32) -> u128 {
    ((cut_of(hi as u128, bits) * pow2(bits as nat)) % wide() + cut_of(lo as u128, bits)) as u128
}

/// A division of `hi:lo` by `d`, at `bits` bits. A quotient that does not fit
/// traps, as a division by zero does; a width that no register has is not
/// modelled.
pub open spec fn division_of(hi: u64, lo: u64, d: u64, bits: u32, signed: bool, rest: bool) -> Answer {
    if signed {
        if bits == 0 {
            Answer::Gap
        } else if signed_of(d as u128, bits) == 0 {
            Answer::Trap
        } else if bits >= 128 {
            Answer::Gap
        } else {
            let n = signed_of(dividend_of(hi, lo, bits), (2 * bits) as u32);
            let q = quotient(n, signed_of(d as u128, bits));
            if rest {
                Answer::Value(word_of(remainder(n, signed_of(d as u128, bits))) as u128)
            } else if -(pow2((bits - 1) as nat) as int) <= q < pow2((bits - 1) as nat) {
                Answer::Value(word_of(q) as u128)
            } else {
                Answer::Trap
            }
        }
    } else {
        let m = cut_of(d as u128, bits) as int;
        if m == 0 {
            Answer::Trap
        } else if bits >= 128 {
            Answer::Gap
        } else {
            let n = dividend_of(hi, lo, bits) as int;
            if rest {
                Answer::Value(word_of(n % m) as u128)
            } else if n / m < pow2(bits as nat) {
                Answer::Value(word_of(n / m) as u128)
            } else {
                Answer::Trap
            }
        }
    }
}

/// What an operation on integers gives.
pub open spec fn int_of(op: IntOp, args: Seq<u128>, fs_base: u64, gs_base: u64) -> Answer {
    let need = match op {
        IntOp::MulHigh => 3,
        IntOp::Quotient { .. } | IntOp::Remainder { .. } => 4,
        _ => 1int,
    };
    if args.len() < need {
        Answer::Gap
    } else {
        let a = low64(args[0]);
        match op {
            IntOp::SegFs => Answer::Value(wrap_add(fs_base, a) as u128),
            IntOp::SegGs => Answer::Value(wrap_add(gs_base, a) as u128),
            IntOp::SignQuad => Answer::Value(all_ones(a >= 0x8000_0000_0000_0000) as u128),
            IntOp::SignDouble => Answer::Value(
                if low32(a) >= 0x8000_0000 {
                    0xffff_ffff
                } else {
                    0
                },
            ),
            IntOp::SwapBytes => Answer::Value(swapped(a) as u128),
            IntOp::MulHigh => {
                let bits = low32(low64(args[2]));
                if bits >= 128 {
                    Answer::Gap
                } else {
                    let x = cut_of(a as u128, bits);
                    let y = cut_of(low64(args[1]) as u128, bits);
                    Answer::Value(word_of((x * y) / (pow2(bits as nat) as int)) as u128)
                }
            },
            IntOp::Quotient { signed } => division_of(
                a,
                low64(args[1]),
                low64(args[2]),
                low32(low64(args[3])),
                signed,
                false,
            ),
            IntOp::Remainder { signed } => division_of(
                a,
                low64(args[1]),
                low64(args[2]),
                low32(low64(args[3])),
                signed,
                true,
            ),
        }
    }
}

proof fn lemma_cut_le(v: u128, bits: u32)
    ensures
        cut_of(v, bits) <= v,
        bits < 128 ==> cut_of(v, bits) < pow2(bits as nat),
{
    if bits < 128 {
        lemma_pow2_fits(bits as nat);
        let p = pow2(bits as nat) as int;
        assert(v as int % p < p && v as int % p <= v) by (nonlinear_arith)
            requires
                p > 0,
                v >= 0,
        ;
    }
}

fn dividend(hi: u64, lo: u64, bits: u32) -> (r: u128)
    requires
        bits < 128,
    ensures
        r == dividend_of(hi, lo, bits),
{
    let h: u128 = cut(hi as u128, bits);
    let l: u128 = cut(lo as u128, bits);
    proof {
        lemma_cut_le(hi as u128, bits);
        lemma_cut_le(lo as u128, bits);
        lemma_pow2_values();
        lemma_pow2_fits(bits as nat);
    }
    if bits <= 64 {
        proof {
            lemma_product_fits(h as nat, bits as nat, bits as nat);
            vstd::arithmetic::div_mod::lemma_small_mod((h * pow2(bits as nat)) as nat, wide() as nat);
            if bits < 64 {
                vstd::arithmetic::power2::lemma_pow2_strictly_increases(bits as nat, 64);
            }
            assert(h * pow2(bits as nat) <= (WORD - 1) * WORD) by (nonlinear_arith)
                requires
                    h <= WORD - 1,
                    0 < pow2(bits as nat) <= WORD,
            ;
        }
        h * two_to(bits) + l
    } else {
        // The bits that are shifted out are lost.
        let c: u128 = two_to(bits);
        let m: u128 = two_to(128 - bits);
        let low: u128 = h % m;
        proof {
            vstd::arithmetic::power2::lemma_pow2_adds((128 - bits) as nat, bits as nat);
            vstd::arithmetic::power2::lemma_pow2_strictly_increases(64, bits as nat);
            vstd::arithmetic::div_mod::lemma_fundamental_div_mod(h as int, m as int);
            lemma_product_fits(low as nat, (128 - bits) as nat, bits as nat);
            let q = h as int / (m as int);
            assert(h * c == q * (m * c) + low * c) by (nonlinear_arith)
                requires
                    h == m * q + low,
            ;
            vstd::arithmetic::div_mod::lemma_fundamental_div_mod_converse(h * c, wide(), q, low * c);
            assert(low * c + c <= m * c) by (nonlinear_arith)
                requires
                    low + 1 <= m,
                    c > 0,
            ;
            assert(l < c);
        }
        low * c + l
    }
}

fn division(hi: u64, lo: u64, d: u64, bits: u32, signed: bool, rest: bool) -> (r: Answer)
    ensures
        r == division_of(hi, lo, d, bits, signed, rest),
{
    if signed {
        if bits == 0 {
            return Answer::Gap;
        }
        let by = read_signed(d as u128, bits);
        if by.mag == 0 {
            return Answer::Trap;
        }
        if bits >= 128 {
            return Answer::Gap;
        }
        let n = read_signed(dividend(hi, lo, bits), 2 * bits);
        let (q, m) = divide(n, by);
        if rest {
            return Answer::Value(to_word(m) as u128);
        }
        let half: u128 = two_to(bits - 1);
        let fits = if q.neg {
            q.mag <= half
        } else {
            q.mag < half
        };
        if fits {
            Answer::Value(to_word(q) as u128)
        } else {
            Answer::Trap
        }
    } else {
        let m: u128 = cut(d as u128, bits);
        if m == 0 {
            return Answer::Trap;
        }
        if bits >= 128 {
            return Answer::Gap;
        }
        let n: u128 = dividend(hi, lo, bits);
        if rest {
            return Answer::Value(cut64(n % m) as u128);
        }
        let q: u128 = n / m;
        if q < two_to(bits) {
            Answer::Value(cut64(q) as u128)
        } else {
            Answer::Trap
        }
    }
}

fn mul_high(a: u64, b: u64, bits: u32) -> (r: u64)
    requires
        bits < 128,
    ensures
        r == word_of((cut_of(a as u128, bits) * cut_of(b as u128, bits)) / (pow2(bits as nat) as int)),
{
    let x: u128 = cut(a as u128, bits);
    let y: u128 = cut(b as u128, bits);
    proof {
        lemma_cut_le(a as u128, bits);
        lemma_cut_le(b as u128, bits);
        assert(x * y <= (WORD - 1) * (WORD - 1)) by (nonlinear_arith)
            requires
                0 <= x <= WORD - 1,
                0 <= y <= WORD - 1,
        ;
    }
    cut64((x * y) / two_to(bits))
}

fn int_intrinsic(op: IntOp, args: &Vec<u128>, fs_base: u64, gs_base: u64) -> (r: Answer)
    ensures
        r == int_of(op, args@, fs_base, gs_base),
{
    if args.len() < 1 {
        return Answer::Gap;
    }
    let a: u64 = cut64(args[0]);
    match op {
        IntOp::SegFs => Answer::Value(fs_base.wrapping_add(a) as u128),
        IntOp::SegGs => Answer::Value(gs_base.wrapping_add(a) as u128),
        IntOp::SignQuad => {
            if a >= 0x8000_0000_0000_0000 {
                Answer::Value(u64::MAX as u128)
            } else {
                Answer::Value(0)
            }
        },
        IntOp::SignDouble => {
            if cut32(a) >= 0x8000_0000 {
                Answer::Value(0xffff_ffff)
            } else {
                Answer::Value(0)
            }
        },
        IntOp::SwapBytes => Answer::Value(swap_bytes(a) as u128),
        IntOp::MulHigh => {
            if args.len() < 3 {
                return Answer::Gap;
            }
            let bits: u32 = cut32(cut64(args[2]));
            if bits >= 128 {
                return Answer::Gap;
            }
            Answer::Value(mul_high(a, cut64(args[1]), bits) as u128)
        },
        IntOp::Quotient { signed } => {
            if args.len() < 4 {
                return Answer::Gap;
            }
            division(a, cut64(args[1]), cut64(args[2]), cut32(cut64(args[3])), signed, false)
        },
        IntOp::Remainder { signed } => {
            if args.len() < 4 {
                return Answer::Gap;
            }
            division(a, cut64(args[1]), cut64(args[2]), cut32(cut64(args[3])), signed, true)
        },
    }
}

// ---------------------------------------------------------------------------
// All operations
// ---------------------------------------------------------------------------

/// The name without its leading `__`, and without the `v` of the three-operand
/// form, which computes the same.
pub open spec fn bare_name(name: Seq<char>) -> Option<Seq<char>> {
    if strip(name, "__v"@) is Some {
        strip(name, "__v"@)
    } else {
        strip(name, "__"@)
    }
}

/// What the operation with this name gives.
pub open spec fn intrinsic_of(
    facts: Seq<FloatFact>,
    name: Seq<char>,
    args: Seq<u128>,
    fs_base: u64,
    gs_base: u64,
) -> Answer {
    match int_op_of(name) {
        Some(op) => int_of(op, args, fs_base, gs_base),
        None => match bare_name(name) {
            None => Answer::Gap,
            Some(bare) => match vec_op_of(bare) {
                Some(op) => packed_of(facts, op, args),
                None => match scalar_op_of(bare) {
                    Some(op) => scalar_of(facts, op, args),
                    None => Answer::Gap,
                },
            },
        },
    }
}

/// Performs the operation with this name.
pub fn intrinsic(
    facts: &Vec<FloatFact>,
    name: &str,
    args: &Vec<u128>,
    fs_base: u64,
    gs_base: u64,
) -> (r: Answer)
    ensures
        r == intrinsic_of(facts@, name@, args@, fs_base, gs_base),
{
    if let Some(op) = find_int_op(name) {
        return int_intrinsic(op, args, fs_base, gs_base);
    }
    let bare = match strip_text(name, "__v") {
        Some(k) => k,
        None => match strip_text(name, "__") {
            Some(k) => k,
            None => {
                return Answer::Gap;
            },
        },
    };
    if let Some(op) = find_vec_op(bare) {
        return packed(facts, op, args);
    }
    match find_scalar_op(bare) {
        Some(op) => scalar_float(facts, op, args),
        None => Answer::Gap,
    }
}

// ---------------------------------------------------------------------------
// Laws
// ---------------------------------------------------------------------------

/// The name of the opposite comparison.
pub open spec fn opposite(name: Seq<char>) -> Seq<char> {
    if name == "ogt"@ {
        "ule"@
    } else if name == "oge"@ {
        "ult"@
    } else if name == "olt"@ {
        "uge"@
    } else if name == "ole"@ {
        "ugt"@
    } else if name == "oeq"@ {
        "une"@
    } else if name == "one"@ {
        "ueq"@
    } else if name == "ugt"@ {
        "ole"@
    } else if name == "uge"@ {
        "olt"@
    } else if name == "ult"@ {
        "oge"@
    } else if name == "ule"@ {
        "ogt"@
    } else if name == "ueq"@ {
        "one"@
    } else if name == "une"@ {
        "oeq"@
    } else if name == "uno"@ {
        "ord"@
    } else if name == "ord"@ {
        "uno"@
    } else {
        name
    }
}

/// Of a comparison and its opposite exactly one holds, also where a value is not
/// a number.
pub proof fn opposite_comparisons_disagree(name: Seq<char>, r: Relation)
    requires
        predicate_of(name) is Some,
    ensures
        predicate_of(opposite(name)) is Some,
        predicate_of(opposite(name))->0.holds_for(r) != predicate_of(name)->0.holds_for(r),
{
    reveal_strlit("ogt");
    reveal_strlit("oge");
    reveal_strlit("olt");
    reveal_strlit("ole");
    reveal_strlit("oeq");
    reveal_strlit("one");
    reveal_strlit("ugt");
    reveal_strlit("uge");
    reveal_strlit("ult");
    reveal_strlit("ule");
    reveal_strlit("ueq");
    reveal_strlit("une");
    reveal_strlit("uno");
    reveal_strlit("ord");
    assert("ogt"@[0] == 'o' && "ogt"@[1] == 'g' && "ogt"@[2] == 't');
    assert("oge"@[0] == 'o' && "oge"@[1] == 'g' && "oge"@[2] == 'e');
    assert("olt"@[0] == 'o' && "olt"@[1] == 'l' && "olt"@[2] == 't');
    assert("ole"@[0] == 'o' && "ole"@[1] == 'l' && "ole"@[2] == 'e');
    assert("oeq"@[0] == 'o' && "oeq"@[1] == 'e' && "oeq"@[2] == 'q');
    assert("one"@[0] == 'o' && "one"@[1] == 'n' && "one"@[2] == 'e');
    assert("ugt"@[0] == 'u' && "ugt"@[1] == 'g' && "ugt"@[2] == 't');
    assert("uge"@[0] == 'u' && "uge"@[1] == 'g' && "uge"@[2] == 'e');
    assert("ult"@[0] == 'u' && "ult"@[1] == 'l' && "ult"@[2] == 't');
    assert("ule"@[0] == 'u' && "ule"@[1] == 'l' && "ule"@[2] == 'e');
    assert("ueq"@[0] == 'u' && "ueq"@[1] == 'e' && "ueq"@[2] == 'q');
    assert("une"@[0] == 'u' && "une"@[1] == 'n' && "une"@[2] == 'e');
    assert("uno"@[0] == 'u' && "uno"@[1] == 'n' && "uno"@[2] == 'o');
    assert("ord"@[0] == 'o' && "ord"@[1] == 'r' && "ord"@[2] == 'd');
}

// ---------------------------------------------------------------------------
// What the operations compute
// ---------------------------------------------------------------------------

proof fn lemma_no_prefix(s: Seq<char>, p: Seq<char>, i: int)
    requires
        0 <= i < p.len(),
        i >= s.len() || s[i] != p[i],
    ensures
        strip(s, p) is None,
{
    if crate::text::starts(s, p) {
        assert(s.subrange(0, p.len() as int)[i] == s[i]);
    }
}

/// A comparison is called by what it holds for: ordered ones fail where a value is not a
/// number, and unordered ones hold there.
pub proof fn comparisons_hold_for_what_they_are_called(name: Seq<char>, r: Relation)
    ensures
        name == "olt"@ ==> (predicate_of(name) matches Some(p) && p.holds_for(r) == (r is Less)),
        name == "ole"@ ==> (predicate_of(name) matches Some(p) && p.holds_for(r) == (r is Less || r is Equal)),
        name == "ogt"@ ==> (predicate_of(name) matches Some(p) && p.holds_for(r) == (r is Greater)),
        name == "oge"@ ==> (predicate_of(name) matches Some(p) && p.holds_for(r) == (r is Greater || r is Equal)),
        name == "oeq"@ ==> (predicate_of(name) matches Some(p) && p.holds_for(r) == (r is Equal)),
        name == "one"@ ==> (predicate_of(name) matches Some(p) && p.holds_for(r) == (r is Less || r is Greater)),
        name == "ult"@ ==> (predicate_of(name) matches Some(p) && p.holds_for(r) == (r is Less || r is Unordered)),
        name == "ule"@ ==> (predicate_of(name) matches Some(p) && p.holds_for(r) == !(r is Greater)),
        name == "ugt"@ ==> (predicate_of(name) matches Some(p) && p.holds_for(r) == (r is Greater || r is Unordered)),
        name == "uge"@ ==> (predicate_of(name) matches Some(p) && p.holds_for(r) == !(r is Less)),
        name == "ueq"@ ==> (predicate_of(name) matches Some(p) && p.holds_for(r) == (r is Equal || r is Unordered)),
        name == "une"@ ==> (predicate_of(name) matches Some(p) && p.holds_for(r) == !(r is Equal)),
        name == "uno"@ ==> (predicate_of(name) matches Some(p) && p.holds_for(r) == (r is Unordered)),
        name == "ord"@ ==> (predicate_of(name) matches Some(p) && p.holds_for(r) == !(r is Unordered)),
{
    reveal_strlit("ogt");
    reveal_strlit("oge");
    reveal_strlit("olt");
    reveal_strlit("ole");
    reveal_strlit("oeq");
    reveal_strlit("one");
    reveal_strlit("ugt");
    reveal_strlit("uge");
    reveal_strlit("ult");
    reveal_strlit("ule");
    reveal_strlit("ueq");
    reveal_strlit("une");
    reveal_strlit("uno");
    reveal_strlit("ord");
    assert("ogt"@[0] == 'o' && "ogt"@[1] == 'g' && "ogt"@[2] == 't');
    assert("oge"@[0] == 'o' && "oge"@[1] == 'g' && "oge"@[2] == 'e');
    assert("olt"@[0] == 'o' && "olt"@[1] == 'l' && "olt"@[2] == 't');
    assert("ole"@[0] == 'o' && "ole"@[1] == 'l' && "ole"@[2] == 'e');
    assert("oeq"@[0] == 'o' && "oeq"@[1] == 'e' && "oeq"@[2] == 'q');
    assert("one"@[0] == 'o' && "one"@[1] == 'n' && "one"@[2] == 'e');
    assert("ugt"@[0] == 'u' && "ugt"@[1] == 'g' && "ugt"@[2] == 't');
    assert("uge"@[0] == 'u' && "uge"@[1] == 'g' && "uge"@[2] == 'e');
    assert("ult"@[0] == 'u' && "ult"@[1] == 'l' && "ult"@[2] == 't');
    assert("ule"@[0] == 'u' && "ule"@[1] == 'l' && "ule"@[2] == 'e');
    assert("ueq"@[0] == 'u' && "ueq"@[1] == 'e' && "ueq"@[2] == 'q');
    assert("une"@[0] == 'u' && "une"@[1] == 'n' && "une"@[2] == 'e');
    assert("uno"@[0] == 'u' && "uno"@[1] == 'n' && "uno"@[2] == 'o');
    assert("ord"@[0] == 'o' && "ord"@[1] == 'r' && "ord"@[2] == 'd');
}

/// Values in double precision are ordered by their magnitude where both are positive,
/// against it where both are negative, and by their signs otherwise; the zeros are equal,
/// and what is not a number is ordered with nothing.
pub proof fn doubles_are_ordered(x: u64, y: u64)
    ensures
        ({
            let s = 0x8000_0000_0000_0000u64;
            let inf = 0x7ff0_0000_0000_0000u64;
            let xn = inf < x < s || s + inf < x;
            let yn = inf < y < s || s + inf < y;
            &&& xn || yn ==> relation(x, y, true) is Unordered
            &&& !xn && !yn && x < s && y < s && x < y ==> relation(x, y, true) is Less
            &&& !xn && !yn && x < s && y < s && x > y ==> relation(x, y, true) is Greater
            &&& !xn && !yn && x >= s && y >= s && x > y ==> relation(x, y, true) is Less
            &&& !xn && !yn && x >= s && y >= s && x < y ==> relation(x, y, true) is Greater
            &&& !xn && !yn && x == y ==> relation(x, y, true) is Equal
            &&& !xn && !yn && x > s && y < s ==> relation(x, y, true) is Less
            &&& !xn && !yn && x < s && y > s ==> relation(x, y, true) is Greater
            &&& relation(0, s, true) is Equal
        }),
{
}

/// Values in single precision are ordered likewise.
pub proof fn singles_are_ordered(x: u64, y: u64)
    requires
        x <= 0xffff_ffff,
        y <= 0xffff_ffff,
    ensures
        ({
            let s = 0x8000_0000u64;
            let inf = 0x7f80_0000u64;
            let xn = inf < x < s || s + inf < x;
            let yn = inf < y < s || s + inf < y;
            &&& xn || yn ==> relation(x, y, false) is Unordered
            &&& !xn && !yn && x < s && y < s && x < y ==> relation(x, y, false) is Less
            &&& !xn && !yn && x < s && y < s && x > y ==> relation(x, y, false) is Greater
            &&& !xn && !yn && x >= s && y >= s && x > y ==> relation(x, y, false) is Less
            &&& !xn && !yn && x >= s && y >= s && x < y ==> relation(x, y, false) is Greater
            &&& !xn && !yn && x == y ==> relation(x, y, false) is Equal
            &&& !xn && !yn && x > s && y < s ==> relation(x, y, false) is Less
            &&& !xn && !yn && x < s && y > s ==> relation(x, y, false) is Greater
            &&& relation(0, s, false) is Equal
        }),
{
}

/// A value below one in magnitude is cut to zero, and one that no integer can hold to the
/// most negative one; the sign of the value is that of the integer.
pub proof fn values_are_cut_towards_zero(x: u64, k: nat)
    requires
        x < 0x8000_0000_0000_0000,
    ensures
        x < 0x3ff0_0000_0000_0000 ==> truncated(x, true) == 0,
        x >= 0x43e0_0000_0000_0000 ==> truncated(x, true) == 0x8000_0000_0000_0000,
        x as int / 0x10_0000_0000_0000 == 1023 + k && k <= 52 ==> truncated(x, true) as int == (x as int
            % 0x10_0000_0000_0000 + 0x10_0000_0000_0000) / (pow2((52 - k) as nat) as int),
        x < 0x3ff0_0000_0000_0000 ==> truncated((x + 0x8000_0000_0000_0000) as u64, true) == 0,
        0x3ff0_0000_0000_0000 <= x < 0x43e0_0000_0000_0000 ==> truncated((x + 0x8000_0000_0000_0000) as u64, true) as int
            == (-(truncated(x, true) as int)) % 0x1_0000_0000_0000_0000,
{
    vstd::arithmetic::power2::lemma2_to64();
    vstd::arithmetic::power2::lemma2_to64_rest();
    assert(pow2(52) == 0x10_0000_0000_0000);
    let m = x as int % 0x10_0000_0000_0000 + 0x10_0000_0000_0000;
    let neg = (x + 0x8000_0000_0000_0000) as u64;
    assert(neg as int % 0x8000_0000_0000_0000 == x as int);
    assert(neg as int % 0x10_0000_0000_0000 == x as int % 0x10_0000_0000_0000);
    let e = x as int / 0x10_0000_0000_0000;
    if 1023 <= e <= 1023 + 52 {
        let d = pow2((1075 - e) as nat) as int;
        vstd::arithmetic::power2::lemma_pow2_pos((1075 - e) as nat);
        assert(0 <= m / d <= m) by (nonlinear_arith)
            requires
                d > 0,
                m >= 0,
        ;
        if e == 1075 {
            assert(m / 1 == m);
        }
    }
    if e >= 1075 && e < 1086 {
        let d = pow2((e - 1075) as nat) as int;
        vstd::arithmetic::power2::lemma_pow2_pos((e - 1075) as nat);
        assert(d <= pow2(10)) by {
            if e - 1075 < 10 {
                vstd::arithmetic::power2::lemma_pow2_strictly_increases((e - 1075) as nat, 10);
            }
        }
        assert(m * d >= 0) by (nonlinear_arith)
            requires
                m >= 0,
                d >= 0,
        ;
        assert(m * d <= 0x20_0000_0000_0000 * 1024) by (nonlinear_arith)
            requires
                0 <= m <= 0x20_0000_0000_0000,
                0 <= d <= 1024,
        ;
        if e == 1075 {
            assert(m * 1 == m);
        }
    }
}

/// A sum, a difference and a comparison of vectors is taken lane by lane; lanes that
/// compare are all ones, and others zero. Which is greater goes by the sign.
pub proof fn lanes_are_taken_one_by_one(facts: Seq<FloatFact>, bits: u32, a: u128, b: u128, i: int)
    requires
        bits == 8 || bits == 16 || bits == 32 || bits == 64,
        0 <= i < lane_count(bits),
    ensures
        ({
            let n = lane_count(bits);
            let p = pow2(bits as nat) as int;
            let x = lanes_of(a, bits, n)[i];
            let y = lanes_of(b, bits, n)[i];
            &&& binary_of(facts, VecOp::Lane { op: LaneOp::Sum, bits }, a, b) matches Answer::Value(r) && lanes_of(
                r,
                bits,
                n,
            )[i] as int == (x + y) % p
            &&& binary_of(facts, VecOp::Lane { op: LaneOp::Difference, bits }, a, b) matches Answer::Value(r) && lanes_of(
                r,
                bits,
                n,
            )[i] as int == (x - y) % p
            &&& binary_of(facts, VecOp::Lane { op: LaneOp::Same, bits }, a, b) matches Answer::Value(r) && lanes_of(
                r,
                bits,
                n,
            )[i] as int == (if x == y {
                p - 1
            } else {
                0
            })
            &&& binary_of(facts, VecOp::Lane { op: LaneOp::Greater, bits }, a, b) matches Answer::Value(r) && lanes_of(
                r,
                bits,
                n,
            )[i] as int == (if signed_of(x, bits) > signed_of(y, bits) {
                p - 1
            } else {
                0
            })
        }),
{
    lemma_lane_by_lane(LaneOp::Sum, bits, a, b);
    lemma_lane_by_lane(LaneOp::Difference, bits, a, b);
    lemma_lane_by_lane(LaneOp::Same, bits, a, b);
    lemma_lane_by_lane(LaneOp::Greater, bits, a, b);
    lemma_pow2_values();
}

proof fn lemma_lane_by_lane(op: LaneOp, bits: u32, a: u128, b: u128)
    requires
        bits == 8 || bits == 16 || bits == 32 || bits == 64,
    ensures
        ({
            let n = lane_count(bits);
            let la = lanes_of(a, bits, n);
            let lb = lanes_of(b, bits, n);
            let ls = Seq::new(n, |i: int| lane_result(op, bits, la[i], lb[i]));
            lanes_of(joined(ls, bits) as u128, bits, n) == ls
        }),
{
    let n = lane_count(bits);
    let la = lanes_of(a, bits, n);
    let lb = lanes_of(b, bits, n);
    let ls = Seq::new(n, |i: int| lane_result(op, bits, la[i], lb[i]));
    lemma_pow2_values();
    assert(bits * n == 128);
    assert forall|i: int| 0 <= i < ls.len() implies #[trigger] ls[i] < pow2(bits as nat) by {}
    crate::bits::vectors_hold_their_lanes(ls, bits);
}

/// A shift moves each lane by itself: to the left it multiplies, to the right it divides,
/// and a count of the width or more leaves nothing, or only the sign.
pub proof fn lanes_are_shifted_one_by_one(facts: Seq<FloatFact>, bits: u32, a: u128, count: u128, i: int)
    requires
        bits == 16 || bits == 32 || bits == 64,
        0 <= i < lane_count(bits),
    ensures
        ({
            let n = lane_count(bits);
            let p = pow2(bits as nat) as int;
            let x = lanes_of(a, bits, n)[i];
            let left = binary_of(facts, VecOp::Shift { shift: ShiftOp::Left, bits }, a, count);
            let right = binary_of(facts, VecOp::Shift { shift: ShiftOp::Right, bits }, a, count);
            &&& left is Value && count < bits ==> lanes_of(left->Value_0, bits, n)[i] as int == (x * pow2(count as nat)) % p
            &&& left is Value && count >= bits ==> lanes_of(left->Value_0, bits, n)[i] == 0
            &&& right is Value && count < bits ==> lanes_of(right->Value_0, bits, n)[i] as int == x as int / pow2(
                count as nat,
            ) as int
            &&& right is Value && count >= bits ==> lanes_of(right->Value_0, bits, n)[i] == 0
            &&& left is Value && right is Value
        }),
{
    let n = lane_count(bits);
    let la = lanes_of(a, bits, n);
    lemma_pow2_values();
    crate::bits::lemma_lanes_len(a, bits, n);
    lemma_shift_by_lane(ShiftOp::Left, bits, a, count);
    lemma_shift_by_lane(ShiftOp::Right, bits, a, count);
    let p = pow2(bits as nat) as int;
    let x = la[i];
    lemma_lanes_small(a, bits, n, i);
    if count < bits {
        let d = pow2(count as nat) as int;
        vstd::arithmetic::power2::lemma_pow2_pos(count as nat);
        assert(0 <= x as int / d <= x) by (nonlinear_arith)
            requires
                d > 0,
                x >= 0,
        ;
        assert(x * d >= 0) by (nonlinear_arith)
            requires
                d > 0,
                x >= 0,
        ;
        vstd::arithmetic::div_mod::lemma_mod_bound(x * d, p);
    }
}

proof fn lemma_lane_counts(bits: u32)
    ensures
        bits == 8 ==> lane_count(bits) == 16,
        bits == 16 ==> lane_count(bits) == 8,
        bits == 32 ==> lane_count(bits) == 4,
        bits == 64 ==> lane_count(bits) == 2,
{
    if bits == 8 {
        assert(128u32 / 8u32 == 16);
    } else if bits == 16 {
        assert(128u32 / 16u32 == 8);
    } else if bits == 32 {
        assert(128u32 / 32u32 == 4);
    } else if bits == 64 {
        assert(128u32 / 64u32 == 2);
    }
}

proof fn lemma_lanes_small(v: u128, bits: u32, n: nat, i: int)
    requires
        bits < 128,
        0 <= i < n,
    ensures
        lanes_of(v, bits, n).len() == n,
        lanes_of(v, bits, n)[i] < pow2(bits as nat),
    decreases n,
{
    crate::bits::the_lowest_lane_comes_first(v, bits, n);
    let p = pow2(bits as nat) as int;
    vstd::arithmetic::power2::lemma_pow2_pos(bits as nat);
    if i == 0 {
        vstd::arithmetic::div_mod::lemma_mod_bound(v as int, p);
    } else {
        lemma_lanes_small((v as nat / pow2(bits as nat)) as u128, bits, (n - 1) as nat, i - 1);
        assert(lanes_of(v, bits, n)[i] == lanes_of(v, bits, n).skip(1)[i - 1]);
    }
}

proof fn lemma_shift_by_lane(op: ShiftOp, bits: u32, a: u128, count: u128)
    requires
        bits == 16 || bits == 32 || bits == 64,
        !(op is Arithmetic),
    ensures
        ({
            let n = lane_count(bits);
            let la = lanes_of(a, bits, n);
            let ls = Seq::new(n, |i: int| shift_result(op, bits, la[i], count));
            lanes_of(joined(ls, bits) as u128, bits, n) == ls
        }),
{
    let n = lane_count(bits);
    let la = lanes_of(a, bits, n);
    let ls = Seq::new(n, |i: int| shift_result(op, bits, la[i], count));
    lemma_pow2_values();
    assert(bits * n == 128);
    assert forall|i: int| 0 <= i < ls.len() implies #[trigger] ls[i] < pow2(bits as nat) by {
        lemma_lanes_small(a, bits, n, i);
        if count < bits {
            let d = pow2(count as nat) as int;
            let x = la[i];
            vstd::arithmetic::power2::lemma_pow2_pos(count as nat);
            assert(0 <= x as int / d <= x) by (nonlinear_arith)
                requires
                    d > 0,
                    x >= 0,
            ;
            assert(x * d >= 0) by (nonlinear_arith)
                requires
                    d > 0,
                    x >= 0,
            ;
            vstd::arithmetic::div_mod::lemma_mod_bound(x * d, pow2(bits as nat) as int);
        }
    }
    crate::bits::vectors_hold_their_lanes(ls, bits);
}

/// Interleaving takes a lane of the first vector and one of the second in turn, from the
/// lower halves or from the upper ones.
pub proof fn interleaving_takes_lanes_in_turn(facts: Seq<FloatFact>, bits: u32, high: bool, a: u128, b: u128, i: int)
    requires
        bits == 8 || bits == 16 || bits == 32 || bits == 64,
        0 <= i < lane_count(bits) / 2,
    ensures
        ({
            let n = lane_count(bits);
            let r = binary_of(facts, VecOp::Unpack { bits, high }, a, b);
            let from = if high {
                i + n / 2
            } else {
                i
            };
            &&& r is Value
            &&& lanes_of(r->Value_0, bits, n)[2 * i] == lanes_of(a, bits, n)[from]
            &&& lanes_of(r->Value_0, bits, n)[2 * i + 1] == lanes_of(b, bits, n)[from]
        }),
{
    let n = lane_count(bits);
    let la = lanes_of(a, bits, n);
    let lb = lanes_of(b, bits, n);
    let off = if high {
        n as int / 2
    } else {
        0
    };
    let ls = interleaved(la, lb, off, n / 2);
    lemma_pow2_values();
    lemma_lane_counts(bits);
    assert(ls.len() == n);
    assert(bits * n == 128);
    assert forall|j: int| 0 <= j < ls.len() implies #[trigger] ls[j] < pow2(bits as nat) by {
        lemma_lanes_small(a, bits, n, off + j / 2);
        lemma_lanes_small(b, bits, n, off + j / 2);
    }
    crate::bits::vectors_hold_their_lanes(ls, bits);
}

/// A shuffle picks each of the four lanes by two bits of its selector, the lowest lane by
/// the lowest bits.
pub proof fn shuffles_pick_lanes(facts: Seq<FloatFact>, v: u128, sel: u128)
    requires
        sel < 256,
    ensures
        ({
            let r = packed_of(facts, VecOp::Shuffle, seq![v, sel]);
            let src = lanes_of(v, 32, 4);
            &&& r is Value
            &&& lanes_of(r->Value_0, 32, 4)[0] == src[sel as int % 4]
            &&& lanes_of(r->Value_0, 32, 4)[1] == src[(sel as int / 4) % 4]
            &&& lanes_of(r->Value_0, 32, 4)[2] == src[(sel as int / 16) % 4]
            &&& lanes_of(r->Value_0, 32, 4)[3] == src[(sel as int / 64) % 4]
        }),
{
    let src = lanes_of(v, 32, 4);
    let ls = picked(src, sel as u32);
    lemma_pow2_values();
    assert forall|j: int| 0 <= j < ls.len() implies #[trigger] ls[j] < pow2(32) by {
        lemma_lanes_small(v, 32, 4, sel as int % 4);
        lemma_lanes_small(v, 32, 4, (sel as int / 4) % 4);
        lemma_lanes_small(v, 32, 4, (sel as int / 16) % 4);
        lemma_lanes_small(v, 32, 4, (sel as int / 64) % 4);
    }
    crate::bits::vectors_hold_their_lanes(ls, 32);
    assert(low32(low64(sel)) == sel);
}

/// The mask of a vector has a bit for each byte, which is that byte's top bit; the lowest
/// bit is that of the lowest byte.
pub proof fn masks_take_the_top_bits(ls: Seq<u128>)
    requires
        ls.len() > 0,
        ls[0] < 256,
    ensures
        top_bits(ls) % 2 == (if ls[0] >= 128 {
            1nat
        } else {
            0
        }),
        top_bits(ls) / 2 == top_bits(ls.skip(1)),
{
}

/// Scalar arithmetic is asked of the operands in its precision, in their order; the
/// result takes the place of the operand's bits, and what is above them stays.
pub proof fn scalars_are_computed_from_their_operands(facts: Seq<FloatFact>, float: FloatOp, double: bool, a: u128, b: u128)
    ensures
        ({
            let x = (a as int % 0x1_0000_0000_0000_0000) as u64;
            let y = (b as int % 0x1_0000_0000_0000_0000) as u64;
            let r = scalar_of(facts, ScalarOp::Two { float, double }, seq![a, b]);
            let call = if double {
                FloatCall { op: float, a: x, b: y }
            } else {
                FloatCall { op: float, a: (x % 0x1_0000_0000) as u64, b: (y % 0x1_0000_0000) as u64 }
            };
            &&& fact_of(facts, call) is None ==> r == Answer::Unknown(call)
            &&& double ==> (fact_of(facts, call) matches Some(v) ==> r == Answer::Value(v as u128))
            &&& !double ==> (fact_of(facts, call) matches Some(v) ==> r == Answer::Value(
                ((x / 0x1_0000_0000) * 0x1_0000_0000 + v % 0x1_0000_0000) as u128,
            ))
        }),
{
}

/// Of two values the minimum is the first where it is less, and the second otherwise, as
/// for what is not a number; the maximum likewise where the first is greater.
pub proof fn extremes_prefer_the_second(facts: Seq<FloatFact>, a: u128, b: u128)
    requires
        a <= u64::MAX,
        b <= u64::MAX,
    ensures
        relation(a as u64, b as u64, true) is Less ==> scalar_of(facts, ScalarOp::Min { double: true }, seq![a, b])
            == Answer::Value(a),
        !(relation(a as u64, b as u64, true) is Less) ==> scalar_of(facts, ScalarOp::Min { double: true }, seq![a, b])
            == Answer::Value(b),
        relation(a as u64, b as u64, true) is Greater ==> scalar_of(facts, ScalarOp::Max { double: true }, seq![a, b])
            == Answer::Value(a),
        !(relation(a as u64, b as u64, true) is Greater) ==> scalar_of(facts, ScalarOp::Max { double: true }, seq![a, b])
            == Answer::Value(b),
{
}

/// A comparison gives one where it holds and zero where not; the mask of one gives all
/// ones or none.
pub proof fn comparisons_give_one_or_ones(facts: Seq<FloatFact>, holds: Predicate, a: u128, b: u128)
    requires
        a <= u64::MAX,
        b <= u64::MAX,
    ensures
        ({
            let h = holds.holds_for(relation(a as u64, b as u64, true));
            &&& h ==> scalar_of(facts, ScalarOp::Test { holds, double: true }, seq![a, b]) == Answer::Value(1)
            &&& !h ==> scalar_of(facts, ScalarOp::Test { holds, double: true }, seq![a, b]) == Answer::Value(0)
            &&& h ==> scalar_of(facts, ScalarOp::Mask { holds, double: true }, seq![a, b]) == Answer::Value(
                0xffff_ffff_ffff_ffff,
            )
            &&& !h ==> scalar_of(facts, ScalarOp::Mask { holds, double: true }, seq![a, b]) == Answer::Value(0)
        }),
{
}

/// The result that is known for a call is the one that was stated first for it.
pub proof fn known_results_are_taken(facts: Seq<FloatFact>, i: int)
    requires
        0 <= i < facts.len(),
        forall|j: int| 0 <= j < i ==> (#[trigger] facts[j]).call != facts[i].call,
    ensures
        fact_of(facts, facts[i].call) == Some(facts[i].result),
{
    lemma_fact_found(facts, i, 0);
}

proof fn lemma_fact_found(facts: Seq<FloatFact>, i: int, k: int)
    requires
        0 <= k <= i < facts.len(),
        forall|j: int| k <= j < i ==> (#[trigger] facts[j]).call != facts[i].call,
    ensures
        fact_from(facts, facts[i].call, k) == Some(facts[i].result),
    decreases i - k,
{
    if k < i {
        lemma_fact_found(facts, i, k + 1);
    }
}

/// Integer operations: an address in a segment is its base and the offset; the sign of a
/// word is spread over another; bytes are taken in the opposite order; and a product has
/// an upper half.
pub proof fn integers_are_computed(a: u64, b: u64, fs: u64, gs: u64)
    ensures
        int_of(IntOp::SegFs, seq![a as u128], fs, gs) == Answer::Value(
            ((fs + a) % 0x1_0000_0000_0000_0000) as u128,
        ),
        int_of(IntOp::SegGs, seq![a as u128], fs, gs) == Answer::Value(
            ((gs + a) % 0x1_0000_0000_0000_0000) as u128,
        ),
        a < 0x8000_0000_0000_0000 ==> int_of(IntOp::SignQuad, seq![a as u128], fs, gs) == Answer::Value(0),
        a >= 0x8000_0000_0000_0000 ==> int_of(IntOp::SignQuad, seq![a as u128], fs, gs) == Answer::Value(
            0xffff_ffff_ffff_ffff,
        ),
        a % 0x1_0000_0000 < 0x8000_0000 ==> int_of(IntOp::SignDouble, seq![a as u128], fs, gs) == Answer::Value(0),
        a % 0x1_0000_0000 >= 0x8000_0000 ==> int_of(IntOp::SignDouble, seq![a as u128], fs, gs) == Answer::Value(
            0xffff_ffff,
        ),
        int_of(IntOp::MulHigh, seq![a as u128, b as u128, 64], fs, gs) == Answer::Value(
            ((a * b) / 0x1_0000_0000_0000_0000) as u128,
        ),
{
    lemma_pow2_values();
    let p = a as int * b as int;
    assert(0 <= p <= 0xffff_ffff_ffff_ffff * 0xffff_ffff_ffff_ffff) by (nonlinear_arith)
        requires
            p == a as int * b as int,
            0 <= a <= 0xffff_ffff_ffff_ffff,
            0 <= b <= 0xffff_ffff_ffff_ffff,
    ;
    assert(cut_of(a as u128, 64) == a as u128 && cut_of(b as u128, 64) == b as u128);
}

/// Bytes in the opposite order, twice, are as they were.
pub proof fn swapping_undoes_itself(v: u64)
    ensures
        swapped(v) as int / 0x100_0000_0000_0000 == v as int % 0x100,
        swapped(v) as int % 0x100 == v as int / 0x100_0000_0000_0000,
        swapped(swapped(v)) == v,
{
    let b0 = byte_of_weight(v, 1);
    let b1 = byte_of_weight(v, 0x100);
    let b2 = byte_of_weight(v, 0x1_0000);
    let b3 = byte_of_weight(v, 0x100_0000);
    let b4 = byte_of_weight(v, 0x1_0000_0000);
    let b5 = byte_of_weight(v, 0x100_0000_0000);
    let b6 = byte_of_weight(v, 0x1_0000_0000_0000);
    let b7 = byte_of_weight(v, 0x100_0000_0000_0000);
    lemma_bytes_of(v as int, b0, b1, b2, b3, b4, b5, b6, b7);
    let w = swapped(v);
    lemma_of_bytes(w as int, b7, b6, b5, b4, b3, b2, b1, b0);
}

proof fn lemma_bytes_of(v: int, b0: int, b1: int, b2: int, b3: int, b4: int, b5: int, b6: int, b7: int)
    requires
        0 <= v < 0x1_0000_0000_0000_0000,
        b0 == (v / 1) % 256,
        b1 == (v / 0x100) % 256,
        b2 == (v / 0x1_0000) % 256,
        b3 == (v / 0x100_0000) % 256,
        b4 == (v / 0x1_0000_0000) % 256,
        b5 == (v / 0x100_0000_0000) % 256,
        b6 == (v / 0x1_0000_0000_0000) % 256,
        b7 == (v / 0x100_0000_0000_0000) % 256,
    ensures
        v == b0 + 0x100 * b1 + 0x1_0000 * b2 + 0x100_0000 * b3 + 0x1_0000_0000 * b4 + 0x100_0000_0000 * b5
            + 0x1_0000_0000_0000 * b6 + 0x100_0000_0000_0000 * b7,
{
    let v1 = v / 0x100;
    let v2 = v1 / 0x100;
    let v3 = v2 / 0x100;
    let v4 = v3 / 0x100;
    let v5 = v4 / 0x100;
    let v6 = v5 / 0x100;
    let v7 = v6 / 0x100;
    assert(v2 == v / 0x1_0000 && v3 == v / 0x100_0000 && v4 == v / 0x1_0000_0000);
    assert(v5 == v / 0x100_0000_0000 && v6 == v / 0x1_0000_0000_0000 && v7 == v / 0x100_0000_0000_0000);
}

proof fn lemma_of_bytes(v: int, b0: int, b1: int, b2: int, b3: int, b4: int, b5: int, b6: int, b7: int)
    requires
        0 <= b0 < 256,
        0 <= b1 < 256,
        0 <= b2 < 256,
        0 <= b3 < 256,
        0 <= b4 < 256,
        0 <= b5 < 256,
        0 <= b6 < 256,
        0 <= b7 < 256,
        v == b0 + 0x100 * b1 + 0x1_0000 * b2 + 0x100_0000 * b3 + 0x1_0000_0000 * b4 + 0x100_0000_0000 * b5
            + 0x1_0000_0000_0000 * b6 + 0x100_0000_0000_0000 * b7,
    ensures
        b0 == (v / 1) % 256,
        b1 == (v / 0x100) % 256,
        b2 == (v / 0x1_0000) % 256,
        b3 == (v / 0x100_0000) % 256,
        b4 == (v / 0x1_0000_0000) % 256,
        b5 == (v / 0x100_0000_0000) % 256,
        b6 == (v / 0x1_0000_0000_0000) % 256,
        b7 == (v / 0x100_0000_0000_0000) % 256,
        v / 0x100_0000_0000_0000 == b7,
        v % 0x100 == b0,
{
    let t7 = b7;
    let t6 = b6 + 0x100 * t7;
    let t5 = b5 + 0x100 * t6;
    let t4 = b4 + 0x100 * t5;
    let t3 = b3 + 0x100 * t4;
    let t2 = b2 + 0x100 * t3;
    let t1 = b1 + 0x100 * t2;
    lemma_low_byte(v, b0, t1);
    lemma_low_byte(t1, b1, t2);
    lemma_low_byte(t2, b2, t3);
    lemma_low_byte(t3, b3, t4);
    lemma_low_byte(t4, b4, t5);
    lemma_low_byte(t5, b5, t6);
    lemma_low_byte(t6, b6, t7);
    lemma_next_byte(v, 0x100, t1);
    lemma_next_byte(v, 0x1_0000, t2);
    lemma_next_byte(v, 0x100_0000, t3);
    lemma_next_byte(v, 0x1_0000_0000, t4);
    lemma_next_byte(v, 0x100_0000_0000, t5);
    lemma_next_byte(v, 0x1_0000_0000_0000, t6);
}

proof fn lemma_low_byte(v: int, b: int, t: int)
    requires
        0 <= b < 256,
        v == b + 0x100 * t,
    ensures
        v % 256 == b,
        v / 256 == t,
{
}

proof fn lemma_next_byte(v: int, w: int, t: int)
    requires
        w > 0,
        v >= 0,
        v / w == t,
    ensures
        v / (w * 256) == t / 256,
{
    vstd::arithmetic::div_mod::lemma_div_denominator(v, w, 256);
}

/// A division takes its dividend from two words, the upper one first. The quotient is
/// rounded towards zero and fits the width, or the division traps; so does one by zero.
pub proof fn divisions_trap_where_the_quotient_does_not_fit(hi: u64, lo: u64, d: u64)
    requires
        hi <= 0xffff_ffff,
        lo <= 0xffff_ffff,
        d <= 0xffff_ffff,
    ensures
        ({
            let n = 0x1_0000_0000 * hi + lo;
            &&& d == 0 ==> division_of(hi, lo, d, 32, false, false) is Trap && division_of(hi, lo, d, 32, false, true) is Trap
                && division_of(hi, lo, d, 32, true, false) is Trap
            &&& d > 0 && n / (d as int) <= 0xffff_ffff ==> division_of(hi, lo, d, 32, false, false) == Answer::Value(
                (n / (d as int)) as u128,
            )
            &&& d > 0 && n / (d as int) > 0xffff_ffff ==> division_of(hi, lo, d, 32, false, false) is Trap
            &&& d > 0 ==> division_of(hi, lo, d, 32, false, true) == Answer::Value((n % (d as int)) as u128)
        }),
{
    lemma_pow2_values();
    let n = 0x1_0000_0000 * hi + lo;
    assert(cut_of(hi as u128, 32) == hi && cut_of(lo as u128, 32) == lo && cut_of(d as u128, 32) == d);
    assert(dividend_of(hi, lo, 32) as int == n);
    if d > 0 {
        assert(0 <= n % (d as int) < d) by (nonlinear_arith)
            requires
                d > 0,
        ;
        assert(0 <= n / (d as int)) by (nonlinear_arith)
            requires
                d > 0,
                n >= 0,
        ;
    }
    crate::bits::the_top_bit_is_the_sign(d as u128);
}

// ---------------------------------------------------------------------------
// What the operations are called
// ---------------------------------------------------------------------------

/// Operations on integers go by their names; a name of one is that operation whatever its
/// arguments are.
pub proof fn integer_operations_go_by_their_names(facts: Seq<FloatFact>, name: Seq<char>, args: Seq<u128>, fs: u64, gs: u64)
    ensures
        name == "__seg_fs"@ ==> intrinsic_of(facts, name, args, fs, gs) == int_of(IntOp::SegFs, args, fs, gs),
        name == "__seg_gs"@ ==> intrinsic_of(facts, name, args, fs, gs) == int_of(IntOp::SegGs, args, fs, gs),
        name == "__cqo"@ ==> intrinsic_of(facts, name, args, fs, gs) == int_of(IntOp::SignQuad, args, fs, gs),
        name == "__cdq"@ ==> intrinsic_of(facts, name, args, fs, gs) == int_of(IntOp::SignDouble, args, fs, gs),
        name == "__bswap"@ ==> intrinsic_of(facts, name, args, fs, gs) == int_of(IntOp::SwapBytes, args, fs, gs),
        name == "__umulh"@ ==> intrinsic_of(facts, name, args, fs, gs) == int_of(IntOp::MulHigh, args, fs, gs),
        name == "__udiv"@ ==> intrinsic_of(facts, name, args, fs, gs) == int_of((IntOp::Quotient { signed: false }), args, fs, gs),
        name == "__urem"@ ==> intrinsic_of(facts, name, args, fs, gs) == int_of((IntOp::Remainder { signed: false }), args, fs, gs),
        name == "__idiv"@ ==> intrinsic_of(facts, name, args, fs, gs) == int_of((IntOp::Quotient { signed: true }), args, fs, gs),
        name == "__irem"@ ==> intrinsic_of(facts, name, args, fs, gs) == int_of((IntOp::Remainder { signed: true }), args, fs, gs),
{
    reveal_strlit("__seg_fs");
    reveal_strlit("__seg_gs");
    reveal_strlit("__cqo");
    reveal_strlit("__cdq");
    reveal_strlit("__bswap");
    reveal_strlit("__umulh");
    reveal_strlit("__udiv");
    reveal_strlit("__urem");
    reveal_strlit("__idiv");
    reveal_strlit("__irem");
    assert("__seg_fs"@[0] == '_' && "__seg_fs"@[1] == '_' && "__seg_fs"@[2] == 's' && "__seg_fs"@[3] == 'e' && "__seg_fs"@[4] == 'g' && "__seg_fs"@[5] == '_' && "__seg_fs"@[6] == 'f' && "__seg_fs"@[7] == 's');
    assert("__seg_gs"@[0] == '_' && "__seg_gs"@[1] == '_' && "__seg_gs"@[2] == 's' && "__seg_gs"@[3] == 'e' && "__seg_gs"@[4] == 'g' && "__seg_gs"@[5] == '_' && "__seg_gs"@[6] == 'g' && "__seg_gs"@[7] == 's');
    assert("__cqo"@[0] == '_' && "__cqo"@[1] == '_' && "__cqo"@[2] == 'c' && "__cqo"@[3] == 'q' && "__cqo"@[4] == 'o');
    assert("__cdq"@[0] == '_' && "__cdq"@[1] == '_' && "__cdq"@[2] == 'c' && "__cdq"@[3] == 'd' && "__cdq"@[4] == 'q');
    assert("__bswap"@[0] == '_' && "__bswap"@[1] == '_' && "__bswap"@[2] == 'b' && "__bswap"@[3] == 's' && "__bswap"@[4] == 'w' && "__bswap"@[5] == 'a' && "__bswap"@[6] == 'p');
    assert("__umulh"@[0] == '_' && "__umulh"@[1] == '_' && "__umulh"@[2] == 'u' && "__umulh"@[3] == 'm' && "__umulh"@[4] == 'u' && "__umulh"@[5] == 'l' && "__umulh"@[6] == 'h');
    assert("__udiv"@[0] == '_' && "__udiv"@[1] == '_' && "__udiv"@[2] == 'u' && "__udiv"@[3] == 'd' && "__udiv"@[4] == 'i' && "__udiv"@[5] == 'v');
    assert("__urem"@[0] == '_' && "__urem"@[1] == '_' && "__urem"@[2] == 'u' && "__urem"@[3] == 'r' && "__urem"@[4] == 'e' && "__urem"@[5] == 'm');
    assert("__idiv"@[0] == '_' && "__idiv"@[1] == '_' && "__idiv"@[2] == 'i' && "__idiv"@[3] == 'd' && "__idiv"@[4] == 'i' && "__idiv"@[5] == 'v');
    assert("__irem"@[0] == '_' && "__irem"@[1] == '_' && "__irem"@[2] == 'i' && "__irem"@[3] == 'r' && "__irem"@[4] == 'e' && "__irem"@[5] == 'm');
}

/// Scalar operations go by their names: `sd` is double and `ss` single precision.
#[verifier::spinoff_prover]
#[verifier::rlimit(60)]
pub proof fn scalar_operations_go_by_their_names(name: Seq<char>)
    ensures
        name == "addsd"@ ==> scalar_op_of(name) == Some(ScalarOp::Two { float: FloatOp::AddD, double: true }),
        name == "subsd"@ ==> scalar_op_of(name) == Some(ScalarOp::Two { float: FloatOp::SubD, double: true }),
        name == "mulsd"@ ==> scalar_op_of(name) == Some(ScalarOp::Two { float: FloatOp::MulD, double: true }),
        name == "divsd"@ ==> scalar_op_of(name) == Some(ScalarOp::Two { float: FloatOp::DivD, double: true }),
        name == "minsd"@ ==> scalar_op_of(name) == Some(ScalarOp::Min { double: true }),
        name == "maxsd"@ ==> scalar_op_of(name) == Some(ScalarOp::Max { double: true }),
        name == "sqrtsd"@ ==> scalar_op_of(name) == Some(ScalarOp::Root { double: true }),
        name == "addss"@ ==> scalar_op_of(name) == Some(ScalarOp::Two { float: FloatOp::AddS, double: false }),
        name == "subss"@ ==> scalar_op_of(name) == Some(ScalarOp::Two { float: FloatOp::SubS, double: false }),
        name == "mulss"@ ==> scalar_op_of(name) == Some(ScalarOp::Two { float: FloatOp::MulS, double: false }),
        name == "divss"@ ==> scalar_op_of(name) == Some(ScalarOp::Two { float: FloatOp::DivS, double: false }),
        name == "minss"@ ==> scalar_op_of(name) == Some(ScalarOp::Min { double: false }),
        name == "maxss"@ ==> scalar_op_of(name) == Some(ScalarOp::Max { double: false }),
        name == "sqrtss"@ ==> scalar_op_of(name) == Some(ScalarOp::Root { double: false }),
{
    reveal_strlit("fcmpmask_");
    reveal_strlit("fcmp_");
    assert("fcmpmask_"@[0] == 'f' && "fcmp_"@[0] == 'f');
    reveal_strlit("addsd");
    reveal_strlit("subsd");
    reveal_strlit("mulsd");
    reveal_strlit("divsd");
    reveal_strlit("minsd");
    reveal_strlit("maxsd");
    reveal_strlit("sqrtsd");
    reveal_strlit("addss");
    reveal_strlit("subss");
    reveal_strlit("mulss");
    reveal_strlit("divss");
    reveal_strlit("minss");
    reveal_strlit("maxss");
    reveal_strlit("sqrtss");
    reveal_strlit("cvtsi2sd");
    reveal_strlit("cvtsi2ss");
    reveal_strlit("cvtsd2ss");
    reveal_strlit("cvtss2sd");
    reveal_strlit("cvttsd2si");
    reveal_strlit("cvtsd2si");
    reveal_strlit("cvttss2si");
    reveal_strlit("cvtss2si");
    assert("addsd"@[0] == 'a' && "addsd"@[1] == 'd' && "addsd"@[2] == 'd' && "addsd"@[3] == 's' && "addsd"@[4] == 'd');
    assert("subsd"@[0] == 's' && "subsd"@[1] == 'u' && "subsd"@[2] == 'b' && "subsd"@[3] == 's' && "subsd"@[4] == 'd');
    assert("mulsd"@[0] == 'm' && "mulsd"@[1] == 'u' && "mulsd"@[2] == 'l' && "mulsd"@[3] == 's' && "mulsd"@[4] == 'd');
    assert("divsd"@[0] == 'd' && "divsd"@[1] == 'i' && "divsd"@[2] == 'v' && "divsd"@[3] == 's' && "divsd"@[4] == 'd');
    assert("minsd"@[0] == 'm' && "minsd"@[1] == 'i' && "minsd"@[2] == 'n' && "minsd"@[3] == 's' && "minsd"@[4] == 'd');
    assert("maxsd"@[0] == 'm' && "maxsd"@[1] == 'a' && "maxsd"@[2] == 'x' && "maxsd"@[3] == 's' && "maxsd"@[4] == 'd');
    assert("sqrtsd"@[0] == 's' && "sqrtsd"@[1] == 'q' && "sqrtsd"@[2] == 'r' && "sqrtsd"@[3] == 't' && "sqrtsd"@[4] == 's' && "sqrtsd"@[5] == 'd');
    assert("addss"@[0] == 'a' && "addss"@[1] == 'd' && "addss"@[2] == 'd' && "addss"@[3] == 's' && "addss"@[4] == 's');
    assert("subss"@[0] == 's' && "subss"@[1] == 'u' && "subss"@[2] == 'b' && "subss"@[3] == 's' && "subss"@[4] == 's');
    assert("mulss"@[0] == 'm' && "mulss"@[1] == 'u' && "mulss"@[2] == 'l' && "mulss"@[3] == 's' && "mulss"@[4] == 's');
    assert("divss"@[0] == 'd' && "divss"@[1] == 'i' && "divss"@[2] == 'v' && "divss"@[3] == 's' && "divss"@[4] == 's');
    assert("minss"@[0] == 'm' && "minss"@[1] == 'i' && "minss"@[2] == 'n' && "minss"@[3] == 's' && "minss"@[4] == 's');
    assert("maxss"@[0] == 'm' && "maxss"@[1] == 'a' && "maxss"@[2] == 'x' && "maxss"@[3] == 's' && "maxss"@[4] == 's');
    assert("sqrtss"@[0] == 's' && "sqrtss"@[1] == 'q' && "sqrtss"@[2] == 'r' && "sqrtss"@[3] == 't' && "sqrtss"@[4] == 's' && "sqrtss"@[5] == 's');
    assert("cvtsi2sd"@[0] == 'c' && "cvtsi2sd"@[1] == 'v' && "cvtsi2sd"@[2] == 't' && "cvtsi2sd"@[3] == 's' && "cvtsi2sd"@[4] == 'i' && "cvtsi2sd"@[5] == '2' && "cvtsi2sd"@[6] == 's' && "cvtsi2sd"@[7] == 'd');
    assert("cvtsi2ss"@[0] == 'c' && "cvtsi2ss"@[1] == 'v' && "cvtsi2ss"@[2] == 't' && "cvtsi2ss"@[3] == 's' && "cvtsi2ss"@[4] == 'i' && "cvtsi2ss"@[5] == '2' && "cvtsi2ss"@[6] == 's' && "cvtsi2ss"@[7] == 's');
    assert("cvtsd2ss"@[0] == 'c' && "cvtsd2ss"@[1] == 'v' && "cvtsd2ss"@[2] == 't' && "cvtsd2ss"@[3] == 's' && "cvtsd2ss"@[4] == 'd' && "cvtsd2ss"@[5] == '2' && "cvtsd2ss"@[6] == 's' && "cvtsd2ss"@[7] == 's');
    assert("cvtss2sd"@[0] == 'c' && "cvtss2sd"@[1] == 'v' && "cvtss2sd"@[2] == 't' && "cvtss2sd"@[3] == 's' && "cvtss2sd"@[4] == 's' && "cvtss2sd"@[5] == '2' && "cvtss2sd"@[6] == 's' && "cvtss2sd"@[7] == 'd');
    assert("cvttsd2si"@[0] == 'c' && "cvttsd2si"@[1] == 'v' && "cvttsd2si"@[2] == 't' && "cvttsd2si"@[3] == 't' && "cvttsd2si"@[4] == 's' && "cvttsd2si"@[5] == 'd' && "cvttsd2si"@[6] == '2' && "cvttsd2si"@[7] == 's' && "cvttsd2si"@[8] == 'i');
    assert("cvtsd2si"@[0] == 'c' && "cvtsd2si"@[1] == 'v' && "cvtsd2si"@[2] == 't' && "cvtsd2si"@[3] == 's' && "cvtsd2si"@[4] == 'd' && "cvtsd2si"@[5] == '2' && "cvtsd2si"@[6] == 's' && "cvtsd2si"@[7] == 'i');
    assert("cvttss2si"@[0] == 'c' && "cvttss2si"@[1] == 'v' && "cvttss2si"@[2] == 't' && "cvttss2si"@[3] == 't' && "cvttss2si"@[4] == 's' && "cvttss2si"@[5] == 's' && "cvttss2si"@[6] == '2' && "cvttss2si"@[7] == 's' && "cvttss2si"@[8] == 'i');
    assert("cvtss2si"@[0] == 'c' && "cvtss2si"@[1] == 'v' && "cvtss2si"@[2] == 't' && "cvtss2si"@[3] == 's' && "cvtss2si"@[4] == 's' && "cvtss2si"@[5] == '2' && "cvtss2si"@[6] == 's' && "cvtss2si"@[7] == 'i');
    if name.len() > 0 && name[0] != 'f' {
        lemma_no_prefix(name, "fcmpmask_"@, 0);
        lemma_no_prefix(name, "fcmp_"@, 0);
    }
}

/// Conversions name what they take and what they give; those to an integer cut towards zero.
#[verifier::spinoff_prover]
#[verifier::rlimit(60)]
pub proof fn conversions_go_by_their_names(name: Seq<char>)
    ensures
        name == "cvtsi2sd"@ ==> scalar_op_of(name) == Some(ScalarOp::Convert { float: FloatOp::IntToD, wide: true }),
        name == "cvtsi2ss"@ ==> scalar_op_of(name) == Some(ScalarOp::Convert { float: FloatOp::IntToS, wide: true }),
        name == "cvtsd2ss"@ ==> scalar_op_of(name) == Some(ScalarOp::Convert { float: FloatOp::DToS, wide: true }),
        name == "cvtss2sd"@ ==> scalar_op_of(name) == Some(ScalarOp::Convert { float: FloatOp::SToD, wide: false }),
        name == "cvttsd2si"@ ==> scalar_op_of(name) == Some(ScalarOp::Truncate { double: true }),
        name == "cvtsd2si"@ ==> scalar_op_of(name) == Some(ScalarOp::Truncate { double: true }),
        name == "cvttss2si"@ ==> scalar_op_of(name) == Some(ScalarOp::Truncate { double: false }),
        name == "cvtss2si"@ ==> scalar_op_of(name) == Some(ScalarOp::Truncate { double: false }),
{
    reveal_strlit("fcmpmask_");
    reveal_strlit("fcmp_");
    assert("fcmpmask_"@[0] == 'f' && "fcmp_"@[0] == 'f');
    reveal_strlit("addsd");
    reveal_strlit("subsd");
    reveal_strlit("mulsd");
    reveal_strlit("divsd");
    reveal_strlit("minsd");
    reveal_strlit("maxsd");
    reveal_strlit("sqrtsd");
    reveal_strlit("addss");
    reveal_strlit("subss");
    reveal_strlit("mulss");
    reveal_strlit("divss");
    reveal_strlit("minss");
    reveal_strlit("maxss");
    reveal_strlit("sqrtss");
    reveal_strlit("cvtsi2sd");
    reveal_strlit("cvtsi2ss");
    reveal_strlit("cvtsd2ss");
    reveal_strlit("cvtss2sd");
    reveal_strlit("cvttsd2si");
    reveal_strlit("cvtsd2si");
    reveal_strlit("cvttss2si");
    reveal_strlit("cvtss2si");
    assert("addsd"@[0] == 'a' && "addsd"@[1] == 'd' && "addsd"@[2] == 'd' && "addsd"@[3] == 's' && "addsd"@[4] == 'd');
    assert("subsd"@[0] == 's' && "subsd"@[1] == 'u' && "subsd"@[2] == 'b' && "subsd"@[3] == 's' && "subsd"@[4] == 'd');
    assert("mulsd"@[0] == 'm' && "mulsd"@[1] == 'u' && "mulsd"@[2] == 'l' && "mulsd"@[3] == 's' && "mulsd"@[4] == 'd');
    assert("divsd"@[0] == 'd' && "divsd"@[1] == 'i' && "divsd"@[2] == 'v' && "divsd"@[3] == 's' && "divsd"@[4] == 'd');
    assert("minsd"@[0] == 'm' && "minsd"@[1] == 'i' && "minsd"@[2] == 'n' && "minsd"@[3] == 's' && "minsd"@[4] == 'd');
    assert("maxsd"@[0] == 'm' && "maxsd"@[1] == 'a' && "maxsd"@[2] == 'x' && "maxsd"@[3] == 's' && "maxsd"@[4] == 'd');
    assert("sqrtsd"@[0] == 's' && "sqrtsd"@[1] == 'q' && "sqrtsd"@[2] == 'r' && "sqrtsd"@[3] == 't' && "sqrtsd"@[4] == 's' && "sqrtsd"@[5] == 'd');
    assert("addss"@[0] == 'a' && "addss"@[1] == 'd' && "addss"@[2] == 'd' && "addss"@[3] == 's' && "addss"@[4] == 's');
    assert("subss"@[0] == 's' && "subss"@[1] == 'u' && "subss"@[2] == 'b' && "subss"@[3] == 's' && "subss"@[4] == 's');
    assert("mulss"@[0] == 'm' && "mulss"@[1] == 'u' && "mulss"@[2] == 'l' && "mulss"@[3] == 's' && "mulss"@[4] == 's');
    assert("divss"@[0] == 'd' && "divss"@[1] == 'i' && "divss"@[2] == 'v' && "divss"@[3] == 's' && "divss"@[4] == 's');
    assert("minss"@[0] == 'm' && "minss"@[1] == 'i' && "minss"@[2] == 'n' && "minss"@[3] == 's' && "minss"@[4] == 's');
    assert("maxss"@[0] == 'm' && "maxss"@[1] == 'a' && "maxss"@[2] == 'x' && "maxss"@[3] == 's' && "maxss"@[4] == 's');
    assert("sqrtss"@[0] == 's' && "sqrtss"@[1] == 'q' && "sqrtss"@[2] == 'r' && "sqrtss"@[3] == 't' && "sqrtss"@[4] == 's' && "sqrtss"@[5] == 's');
    assert("cvtsi2sd"@[0] == 'c' && "cvtsi2sd"@[1] == 'v' && "cvtsi2sd"@[2] == 't' && "cvtsi2sd"@[3] == 's' && "cvtsi2sd"@[4] == 'i' && "cvtsi2sd"@[5] == '2' && "cvtsi2sd"@[6] == 's' && "cvtsi2sd"@[7] == 'd');
    assert("cvtsi2ss"@[0] == 'c' && "cvtsi2ss"@[1] == 'v' && "cvtsi2ss"@[2] == 't' && "cvtsi2ss"@[3] == 's' && "cvtsi2ss"@[4] == 'i' && "cvtsi2ss"@[5] == '2' && "cvtsi2ss"@[6] == 's' && "cvtsi2ss"@[7] == 's');
    assert("cvtsd2ss"@[0] == 'c' && "cvtsd2ss"@[1] == 'v' && "cvtsd2ss"@[2] == 't' && "cvtsd2ss"@[3] == 's' && "cvtsd2ss"@[4] == 'd' && "cvtsd2ss"@[5] == '2' && "cvtsd2ss"@[6] == 's' && "cvtsd2ss"@[7] == 's');
    assert("cvtss2sd"@[0] == 'c' && "cvtss2sd"@[1] == 'v' && "cvtss2sd"@[2] == 't' && "cvtss2sd"@[3] == 's' && "cvtss2sd"@[4] == 's' && "cvtss2sd"@[5] == '2' && "cvtss2sd"@[6] == 's' && "cvtss2sd"@[7] == 'd');
    assert("cvttsd2si"@[0] == 'c' && "cvttsd2si"@[1] == 'v' && "cvttsd2si"@[2] == 't' && "cvttsd2si"@[3] == 't' && "cvttsd2si"@[4] == 's' && "cvttsd2si"@[5] == 'd' && "cvttsd2si"@[6] == '2' && "cvttsd2si"@[7] == 's' && "cvttsd2si"@[8] == 'i');
    assert("cvtsd2si"@[0] == 'c' && "cvtsd2si"@[1] == 'v' && "cvtsd2si"@[2] == 't' && "cvtsd2si"@[3] == 's' && "cvtsd2si"@[4] == 'd' && "cvtsd2si"@[5] == '2' && "cvtsd2si"@[6] == 's' && "cvtsd2si"@[7] == 'i');
    assert("cvttss2si"@[0] == 'c' && "cvttss2si"@[1] == 'v' && "cvttss2si"@[2] == 't' && "cvttss2si"@[3] == 't' && "cvttss2si"@[4] == 's' && "cvttss2si"@[5] == 's' && "cvttss2si"@[6] == '2' && "cvttss2si"@[7] == 's' && "cvttss2si"@[8] == 'i');
    assert("cvtss2si"@[0] == 'c' && "cvtss2si"@[1] == 'v' && "cvtss2si"@[2] == 't' && "cvtss2si"@[3] == 's' && "cvtss2si"@[4] == 's' && "cvtss2si"@[5] == '2' && "cvtss2si"@[6] == 's' && "cvtss2si"@[7] == 'i');
    if name.len() > 0 && name[0] != 'f' {
        lemma_no_prefix(name, "fcmpmask_"@, 0);
        lemma_no_prefix(name, "fcmp_"@, 0);
    }
}

/// Operations on lanes name what they do and end in the letter of the lane's width.
pub proof fn lane_operations_go_by_their_names(c: char, bits: u32, rest: Seq<char>)
    requires
        c == 'b' && bits == 8 || c == 'w' && bits == 16 || c == 'd' && bits == 32 || c == 'q' && bits == 64,
    ensures
        vec_op_of("padd"@ + seq![c]) == Some(VecOp::Lane { op: LaneOp::Sum, bits }),
        vec_op_of("psub"@ + seq![c]) == Some(VecOp::Lane { op: LaneOp::Difference, bits }),
        vec_op_of("pcmpeq"@ + seq![c]) == Some(VecOp::Lane { op: LaneOp::Same, bits }),
        vec_op_of("pcmpgt"@ + seq![c]) == Some(VecOp::Lane { op: LaneOp::Greater, bits }),
        vec_op_of("psll"@ + seq![c]) == Some(VecOp::Shift { shift: ShiftOp::Left, bits }),
        vec_op_of("psrl"@ + seq![c]) == Some(VecOp::Shift { shift: ShiftOp::Right, bits }),
        vec_op_of("psra"@ + seq![c]) == Some(VecOp::Shift { shift: ShiftOp::Arithmetic, bits }),
{
    reveal_strlit("punpckl");
    reveal_strlit("punpckh");
    reveal_strlit("unpckl");
    reveal_strlit("unpckh");
    reveal_strlit("padd");
    reveal_strlit("psub");
    reveal_strlit("pcmpeq");
    reveal_strlit("pcmpgt");
    reveal_strlit("psll");
    reveal_strlit("psrl");
    reveal_strlit("psra");
    reveal_strlit("fcmpmask_");
    reveal_strlit("pslldq");
    reveal_strlit("psrldq");
    let k = seq![c];
    let n_padd = "padd"@ + k;
    crate::text::prefixes_and_suffixes_come_off("padd"@, k);
    assert(n_padd[0] == 'p' && n_padd[1] == 'a' && n_padd[2] == 'd' && n_padd[3] == 'd');
    lemma_no_prefix(n_padd, "punpckl"@, 1);
    lemma_no_prefix(n_padd, "punpckh"@, 1);
    lemma_no_prefix(n_padd, "unpckl"@, 0);
    lemma_no_prefix(n_padd, "unpckh"@, 0);
    lemma_no_prefix(n_padd, "psub"@, 1);
    lemma_no_prefix(n_padd, "pcmpeq"@, 1);
    lemma_no_prefix(n_padd, "pcmpgt"@, 1);
    lemma_no_prefix(n_padd, "psll"@, 1);
    lemma_no_prefix(n_padd, "psrl"@, 1);
    lemma_no_prefix(n_padd, "psra"@, 1);
    lemma_no_prefix(n_padd, "fcmpmask_"@, 0);
    let n_psub = "psub"@ + k;
    crate::text::prefixes_and_suffixes_come_off("psub"@, k);
    assert(n_psub[0] == 'p' && n_psub[1] == 's' && n_psub[2] == 'u' && n_psub[3] == 'b');
    lemma_no_prefix(n_psub, "punpckl"@, 1);
    lemma_no_prefix(n_psub, "punpckh"@, 1);
    lemma_no_prefix(n_psub, "unpckl"@, 0);
    lemma_no_prefix(n_psub, "unpckh"@, 0);
    lemma_no_prefix(n_psub, "padd"@, 1);
    lemma_no_prefix(n_psub, "pcmpeq"@, 1);
    lemma_no_prefix(n_psub, "pcmpgt"@, 1);
    lemma_no_prefix(n_psub, "psll"@, 2);
    lemma_no_prefix(n_psub, "psrl"@, 2);
    lemma_no_prefix(n_psub, "psra"@, 2);
    lemma_no_prefix(n_psub, "fcmpmask_"@, 0);
    let n_pcmpeq = "pcmpeq"@ + k;
    crate::text::prefixes_and_suffixes_come_off("pcmpeq"@, k);
    assert(n_pcmpeq[0] == 'p' && n_pcmpeq[1] == 'c' && n_pcmpeq[2] == 'm' && n_pcmpeq[3] == 'p' && n_pcmpeq[4] == 'e' && n_pcmpeq[5] == 'q');
    lemma_no_prefix(n_pcmpeq, "punpckl"@, 1);
    lemma_no_prefix(n_pcmpeq, "punpckh"@, 1);
    lemma_no_prefix(n_pcmpeq, "unpckl"@, 0);
    lemma_no_prefix(n_pcmpeq, "unpckh"@, 0);
    lemma_no_prefix(n_pcmpeq, "padd"@, 1);
    lemma_no_prefix(n_pcmpeq, "psub"@, 1);
    lemma_no_prefix(n_pcmpeq, "pcmpgt"@, 4);
    lemma_no_prefix(n_pcmpeq, "psll"@, 1);
    lemma_no_prefix(n_pcmpeq, "psrl"@, 1);
    lemma_no_prefix(n_pcmpeq, "psra"@, 1);
    lemma_no_prefix(n_pcmpeq, "fcmpmask_"@, 0);
    let n_pcmpgt = "pcmpgt"@ + k;
    crate::text::prefixes_and_suffixes_come_off("pcmpgt"@, k);
    assert(n_pcmpgt[0] == 'p' && n_pcmpgt[1] == 'c' && n_pcmpgt[2] == 'm' && n_pcmpgt[3] == 'p' && n_pcmpgt[4] == 'g' && n_pcmpgt[5] == 't');
    lemma_no_prefix(n_pcmpgt, "punpckl"@, 1);
    lemma_no_prefix(n_pcmpgt, "punpckh"@, 1);
    lemma_no_prefix(n_pcmpgt, "unpckl"@, 0);
    lemma_no_prefix(n_pcmpgt, "unpckh"@, 0);
    lemma_no_prefix(n_pcmpgt, "padd"@, 1);
    lemma_no_prefix(n_pcmpgt, "psub"@, 1);
    lemma_no_prefix(n_pcmpgt, "pcmpeq"@, 4);
    lemma_no_prefix(n_pcmpgt, "psll"@, 1);
    lemma_no_prefix(n_pcmpgt, "psrl"@, 1);
    lemma_no_prefix(n_pcmpgt, "psra"@, 1);
    lemma_no_prefix(n_pcmpgt, "fcmpmask_"@, 0);
    let n_psll = "psll"@ + k;
    crate::text::prefixes_and_suffixes_come_off("psll"@, k);
    assert(n_psll[0] == 'p' && n_psll[1] == 's' && n_psll[2] == 'l' && n_psll[3] == 'l');
    lemma_no_prefix(n_psll, "punpckl"@, 1);
    lemma_no_prefix(n_psll, "punpckh"@, 1);
    lemma_no_prefix(n_psll, "unpckl"@, 0);
    lemma_no_prefix(n_psll, "unpckh"@, 0);
    lemma_no_prefix(n_psll, "padd"@, 1);
    lemma_no_prefix(n_psll, "psub"@, 2);
    lemma_no_prefix(n_psll, "pcmpeq"@, 1);
    lemma_no_prefix(n_psll, "pcmpgt"@, 1);
    lemma_no_prefix(n_psll, "psrl"@, 2);
    lemma_no_prefix(n_psll, "psra"@, 2);
    lemma_no_prefix(n_psll, "fcmpmask_"@, 0);
    let n_psrl = "psrl"@ + k;
    crate::text::prefixes_and_suffixes_come_off("psrl"@, k);
    assert(n_psrl[0] == 'p' && n_psrl[1] == 's' && n_psrl[2] == 'r' && n_psrl[3] == 'l');
    lemma_no_prefix(n_psrl, "punpckl"@, 1);
    lemma_no_prefix(n_psrl, "punpckh"@, 1);
    lemma_no_prefix(n_psrl, "unpckl"@, 0);
    lemma_no_prefix(n_psrl, "unpckh"@, 0);
    lemma_no_prefix(n_psrl, "padd"@, 1);
    lemma_no_prefix(n_psrl, "psub"@, 2);
    lemma_no_prefix(n_psrl, "pcmpeq"@, 1);
    lemma_no_prefix(n_psrl, "pcmpgt"@, 1);
    lemma_no_prefix(n_psrl, "psll"@, 2);
    lemma_no_prefix(n_psrl, "psra"@, 3);
    lemma_no_prefix(n_psrl, "fcmpmask_"@, 0);
    let n_psra = "psra"@ + k;
    crate::text::prefixes_and_suffixes_come_off("psra"@, k);
    assert(n_psra[0] == 'p' && n_psra[1] == 's' && n_psra[2] == 'r' && n_psra[3] == 'a');
    lemma_no_prefix(n_psra, "punpckl"@, 1);
    lemma_no_prefix(n_psra, "punpckh"@, 1);
    lemma_no_prefix(n_psra, "unpckl"@, 0);
    lemma_no_prefix(n_psra, "unpckh"@, 0);
    lemma_no_prefix(n_psra, "padd"@, 1);
    lemma_no_prefix(n_psra, "psub"@, 2);
    lemma_no_prefix(n_psra, "pcmpeq"@, 1);
    lemma_no_prefix(n_psra, "pcmpgt"@, 1);
    lemma_no_prefix(n_psra, "psll"@, 2);
    lemma_no_prefix(n_psra, "psrl"@, 3);
    lemma_no_prefix(n_psra, "fcmpmask_"@, 0);
    assert(k.len() == 1 && k[0] == c);
}

/// Interleaves name the half that they take and the width of their lanes.
pub proof fn interleaves_go_by_their_names()
    ensures
        vec_op_of("punpckl"@ + "bw"@) == Some(VecOp::Unpack { bits: 8, high: false }),
        vec_op_of("punpckl"@ + "wd"@) == Some(VecOp::Unpack { bits: 16, high: false }),
        vec_op_of("punpckl"@ + "dq"@) == Some(VecOp::Unpack { bits: 32, high: false }),
        vec_op_of("punpckl"@ + "qdq"@) == Some(VecOp::Unpack { bits: 64, high: false }),
        vec_op_of("punpckh"@ + "bw"@) == Some(VecOp::Unpack { bits: 8, high: true }),
        vec_op_of("punpckh"@ + "wd"@) == Some(VecOp::Unpack { bits: 16, high: true }),
        vec_op_of("punpckh"@ + "dq"@) == Some(VecOp::Unpack { bits: 32, high: true }),
        vec_op_of("punpckh"@ + "qdq"@) == Some(VecOp::Unpack { bits: 64, high: true }),
        vec_op_of("unpckl"@ + "ps"@) == Some(VecOp::Unpack { bits: 32, high: false }),
        vec_op_of("unpckl"@ + "pd"@) == Some(VecOp::Unpack { bits: 64, high: false }),
        vec_op_of("unpckh"@ + "ps"@) == Some(VecOp::Unpack { bits: 32, high: true }),
        vec_op_of("unpckh"@ + "pd"@) == Some(VecOp::Unpack { bits: 64, high: true }),
{
    reveal_strlit("punpckl");
    reveal_strlit("punpckh");
    reveal_strlit("unpckl");
    reveal_strlit("unpckh");
    reveal_strlit("bw");
    reveal_strlit("wd");
    reveal_strlit("dq");
    reveal_strlit("qdq");
    reveal_strlit("ps");
    reveal_strlit("pd");
    assert("bw"@[0] == 'b' && "bw"@[1] == 'w');
    assert("wd"@[0] == 'w' && "wd"@[1] == 'd');
    assert("dq"@[0] == 'd' && "dq"@[1] == 'q');
    assert("qdq"@[0] == 'q' && "qdq"@[1] == 'd' && "qdq"@[2] == 'q');
    assert("ps"@[0] == 'p' && "ps"@[1] == 's');
    assert("pd"@[0] == 'p' && "pd"@[1] == 'd');
    crate::text::prefixes_and_suffixes_come_off("punpckl"@, "bw"@);
    crate::text::prefixes_and_suffixes_come_off("punpckl"@, "wd"@);
    crate::text::prefixes_and_suffixes_come_off("punpckl"@, "dq"@);
    crate::text::prefixes_and_suffixes_come_off("punpckl"@, "qdq"@);
    crate::text::prefixes_and_suffixes_come_off("punpckh"@, "bw"@);
    assert(("punpckh"@ + "bw"@)[6] == 'h');
    lemma_no_prefix("punpckh"@ + "bw"@, "punpckl"@, 6);
    crate::text::prefixes_and_suffixes_come_off("punpckh"@, "wd"@);
    assert(("punpckh"@ + "wd"@)[6] == 'h');
    lemma_no_prefix("punpckh"@ + "wd"@, "punpckl"@, 6);
    crate::text::prefixes_and_suffixes_come_off("punpckh"@, "dq"@);
    assert(("punpckh"@ + "dq"@)[6] == 'h');
    lemma_no_prefix("punpckh"@ + "dq"@, "punpckl"@, 6);
    crate::text::prefixes_and_suffixes_come_off("punpckh"@, "qdq"@);
    assert(("punpckh"@ + "qdq"@)[6] == 'h');
    lemma_no_prefix("punpckh"@ + "qdq"@, "punpckl"@, 6);
    crate::text::prefixes_and_suffixes_come_off("unpckl"@, "ps"@);
    assert(("unpckl"@ + "ps"@)[0] == 'u');
    lemma_no_prefix("unpckl"@ + "ps"@, "punpckl"@, 0);
    assert(("unpckl"@ + "ps"@)[0] == 'u');
    lemma_no_prefix("unpckl"@ + "ps"@, "punpckh"@, 0);
    crate::text::prefixes_and_suffixes_come_off("unpckl"@, "pd"@);
    assert(("unpckl"@ + "pd"@)[0] == 'u');
    lemma_no_prefix("unpckl"@ + "pd"@, "punpckl"@, 0);
    assert(("unpckl"@ + "pd"@)[0] == 'u');
    lemma_no_prefix("unpckl"@ + "pd"@, "punpckh"@, 0);
    crate::text::prefixes_and_suffixes_come_off("unpckh"@, "ps"@);
    assert(("unpckh"@ + "ps"@)[0] == 'u');
    lemma_no_prefix("unpckh"@ + "ps"@, "punpckl"@, 0);
    assert(("unpckh"@ + "ps"@)[0] == 'u');
    lemma_no_prefix("unpckh"@ + "ps"@, "punpckh"@, 0);
    assert(("unpckh"@ + "ps"@)[5] == 'h');
    lemma_no_prefix("unpckh"@ + "ps"@, "unpckl"@, 5);
    crate::text::prefixes_and_suffixes_come_off("unpckh"@, "pd"@);
    assert(("unpckh"@ + "pd"@)[0] == 'u');
    lemma_no_prefix("unpckh"@ + "pd"@, "punpckl"@, 0);
    assert(("unpckh"@ + "pd"@)[0] == 'u');
    lemma_no_prefix("unpckh"@ + "pd"@, "punpckh"@, 0);
    assert(("unpckh"@ + "pd"@)[5] == 'h');
    lemma_no_prefix("unpckh"@ + "pd"@, "unpckl"@, 5);
}

/// Floating-point operations on lanes go by their names.
pub proof fn float_lanes_go_by_their_names(name: Seq<char>)
    ensures
        name == "addpd"@ ==> float_lanes_of(name) == Some(VecOp::Float { float: FloatOp::AddD, bits: 64 }),
        name == "subpd"@ ==> float_lanes_of(name) == Some(VecOp::Float { float: FloatOp::SubD, bits: 64 }),
        name == "mulpd"@ ==> float_lanes_of(name) == Some(VecOp::Float { float: FloatOp::MulD, bits: 64 }),
        name == "divpd"@ ==> float_lanes_of(name) == Some(VecOp::Float { float: FloatOp::DivD, bits: 64 }),
        name == "addps"@ ==> float_lanes_of(name) == Some(VecOp::Float { float: FloatOp::AddS, bits: 32 }),
        name == "subps"@ ==> float_lanes_of(name) == Some(VecOp::Float { float: FloatOp::SubS, bits: 32 }),
        name == "mulps"@ ==> float_lanes_of(name) == Some(VecOp::Float { float: FloatOp::MulS, bits: 32 }),
        name == "divps"@ ==> float_lanes_of(name) == Some(VecOp::Float { float: FloatOp::DivS, bits: 32 }),
{
    reveal_strlit("addpd");
    reveal_strlit("subpd");
    reveal_strlit("mulpd");
    reveal_strlit("divpd");
    reveal_strlit("addps");
    reveal_strlit("subps");
    reveal_strlit("mulps");
    reveal_strlit("divps");
    assert("addpd"@[0] == 'a' && "addpd"@[1] == 'd' && "addpd"@[2] == 'd' && "addpd"@[3] == 'p' && "addpd"@[4] == 'd');
    assert("subpd"@[0] == 's' && "subpd"@[1] == 'u' && "subpd"@[2] == 'b' && "subpd"@[3] == 'p' && "subpd"@[4] == 'd');
    assert("mulpd"@[0] == 'm' && "mulpd"@[1] == 'u' && "mulpd"@[2] == 'l' && "mulpd"@[3] == 'p' && "mulpd"@[4] == 'd');
    assert("divpd"@[0] == 'd' && "divpd"@[1] == 'i' && "divpd"@[2] == 'v' && "divpd"@[3] == 'p' && "divpd"@[4] == 'd');
    assert("addps"@[0] == 'a' && "addps"@[1] == 'd' && "addps"@[2] == 'd' && "addps"@[3] == 'p' && "addps"@[4] == 's');
    assert("subps"@[0] == 's' && "subps"@[1] == 'u' && "subps"@[2] == 'b' && "subps"@[3] == 'p' && "subps"@[4] == 's');
    assert("mulps"@[0] == 'm' && "mulps"@[1] == 'u' && "mulps"@[2] == 'l' && "mulps"@[3] == 'p' && "mulps"@[4] == 's');
    assert("divps"@[0] == 'd' && "divps"@[1] == 'i' && "divps"@[2] == 'v' && "divps"@[3] == 'p' && "divps"@[4] == 's');
}

/// The name is taken without its leading underscores, and without the `v` of the form
/// with three operands.
pub proof fn names_lose_their_underscores(n: Seq<char>)
    ensures
        bare_name("__v"@ + n) == Some(n),
        n.len() > 0 && n[0] != 'v' ==> bare_name("__"@ + n) == Some(n),
{
    crate::text::prefixes_and_suffixes_come_off("__v"@, n);
    crate::text::prefixes_and_suffixes_come_off("__"@, n);
    reveal_strlit("__v");
    reveal_strlit("__");
    if n.len() > 0 && n[0] != 'v' {
        assert(("__"@ + n)[2] == n[0]);
        lemma_no_prefix("__"@ + n, "__v"@, 2);
    }
}

/// The whole register is moved by whole bytes: to the left it is multiplied, to the right
/// divided, and a count of sixteen or more leaves nothing.
pub proof fn registers_are_shifted_by_bytes(facts: Seq<FloatFact>, v: u128)
    ensures
        binary_of(facts, VecOp::ShiftBytes { left: true }, v, 1) == Answer::Value(
            ((v as int * 256) % (u128::MAX + 1)) as u128,
        ),
        binary_of(facts, VecOp::ShiftBytes { left: false }, v, 1) == Answer::Value((v / 256) as u128),
        binary_of(facts, VecOp::ShiftBytes { left: true }, v, 16) == Answer::Value(0),
        binary_of(facts, VecOp::ShiftBytes { left: false }, v, 16) == Answer::Value(0),
        binary_of(facts, VecOp::ShiftBytes { left: false }, v, 8) == Answer::Value((v / 0x1_0000_0000_0000_0000) as u128),
        binary_of(facts, VecOp::ShiftBytes { left: false }, v, 0) == Answer::Value(v),
{
    lemma_pow2_values();
    vstd::arithmetic::power2::lemma2_to64();
    assert(v as nat / 1 == v as nat);
}

/// An arithmetic shift of a lane keeps its sign: it divides towards minus infinity.
pub proof fn arithmetic_shifts_keep_the_sign(x: u128, n: nat)
    requires
        x < 0x1_0000,
        n < 16,
    ensures
        x < 0x8000 ==> shift_right_signed(x, n, 16) as int == x as int / pow2(n) as int,
        x >= 0x8000 ==> shift_right_signed(x, n, 16) as int == 0xffff - (0xffff - x) / pow2(n) as int,
{
    lemma_pow2_values();
    let d = pow2(n) as int;
    vstd::arithmetic::power2::lemma_pow2_pos(n);
    assert(0 <= x as int / d <= x) by (nonlinear_arith)
        requires
            d > 0,
            x >= 0,
    ;
    let y = 0xffff - x;
    if x >= 0x8000 {
        assert(0 <= y / d <= y) by (nonlinear_arith)
            requires
                d > 0,
                y >= 0,
        ;
    }
}

/// A square root and a conversion are asked of one operand; a conversion gives a value of
/// its own, which takes no bits of the operand over.
pub proof fn conversions_take_one_operand(facts: Seq<FloatFact>, a: u128, r: u64)
    requires
        a <= u64::MAX,
    ensures
        fact_of(facts, FloatCall { op: FloatOp::SqrtD, a: a as u64, b: 0 }) == Some(r) ==> scalar_of(
            facts,
            ScalarOp::Root { double: true },
            seq![a],
        ) == Answer::Value(r as u128),
        fact_of(facts, FloatCall { op: FloatOp::IntToD, a: a as u64, b: 0 }) == Some(r) ==> scalar_of(
            facts,
            ScalarOp::Convert { float: FloatOp::IntToD, wide: true },
            seq![a],
        ) == Answer::Value(r as u128),
        fact_of(facts, FloatCall { op: FloatOp::DToS, a: a as u64, b: 0 }) == Some(r) ==> scalar_of(
            facts,
            ScalarOp::Convert { float: FloatOp::DToS, wide: true },
            seq![a],
        ) == Answer::Value((r % 0x1_0000_0000) as u128),
        fact_of(facts, FloatCall { op: FloatOp::SToD, a: (a % 0x1_0000_0000) as u64, b: 0 }) == Some(r) ==> scalar_of(
            facts,
            ScalarOp::Convert { float: FloatOp::SToD, wide: false },
            seq![a],
        ) == Answer::Value(r as u128),
{
}

} // verus!
