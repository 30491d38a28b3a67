//! Linear decoding of a window of code.
//!
//! The pass reads the window and sums up what a decoder made of it.

use vstd::prelude::*;

use crate::arch::DecodedInsn;
use crate::ctx::Ctx;
use crate::decomp::at_most_word;
use crate::source::{CoreError, CoreFault, SourceError};
use crate::va::Va;

verus! {

/// What to decode.
#[derive(Clone, Copy, Debug, PartialEq, Eq, Structural)]
pub struct DecodeInput {
    pub start: Va,
    /// The most bytes that are read.
    pub max_bytes: usize,
    /// The most instructions that are decoded.
    pub max_insns: usize,
}

impl DecodeInput {
    /// Decodes `count` instructions, from a window with room for them: sixteen
    /// bytes for each, and at least sixteen.
    pub fn count(start: Va, count: usize) -> (r: DecodeInput)
        ensures
            r.start == start,
            r.max_insns == count,
            r.max_bytes == if count == 0 {
                16
            } else {
                at_most_word(16 * count as nat)
            },
    {
        let bytes: usize = match count.checked_mul(16) {
            Some(n) => n,
            None => usize::MAX,
        };
        DecodeInput {
            start,
            max_bytes: if bytes < 16 {
                16
            } else {
                bytes
            },
            max_insns: count,
        }
    }
}

/// What was decoded.
#[derive(Clone, Debug, PartialEq, Eq)]
pub struct DecodeOutput {
    pub start: Va,
    pub count: usize,
    pub bytes_consumed: usize,
    pub insns: Vec<DecodedInsn>,
}

/// The number of bytes of the first `k` instructions.
pub open spec fn length_of(s: Seq<DecodedInsn>, k: int) -> nat
    decreases k,
{
    if k <= 0 {
        0
    } else {
        length_of(s, k - 1) + s[k - 1].len as nat
    }
}

/// Decodes a window of code from start to end.
#[derive(Clone, Copy, Debug, Default)]
pub struct DecodePass;

impl DecodePass {
    pub fn name(&self) -> (r: &'static str)
        ensures
            r@ == "decode"@,
    {
        "decode"
    }

    /// The code that is to be decoded.
    pub fn code(&self, ctx: &Ctx, input: DecodeInput) -> (r: Result<Vec<u8>, CoreError>)
        ensures
            match r {
                Ok(b) => ctx.source.read_of(input.start.0, input.max_bytes as nat) == Some(b@),
                Err(e) => ctx.source.read_of(input.start.0, input.max_bytes as nat) is None && e.fault()
                    == CoreFault::Source(SourceError::Unmapped(input.start)),
            },
    {
        match ctx.source.read(input.start, input.max_bytes) {
            Ok(b) => Ok(b),
            Err(e) => Err(CoreError::Source(e)),
        }
    }

    /// Sums up the instructions that a decoder found in the code.
    pub fn run(&self, input: DecodeInput, insns: Vec<DecodedInsn>) -> (r: DecodeOutput)
        ensures
            r.start == input.start,
            r.count == insns@.len(),
            r.bytes_consumed == at_most_word(length_of(insns@, insns@.len() as int)),
            r.insns == insns,
    {
        let mut n: usize = 0;
        let mut k: usize = 0;
        while k < insns.len()
            invariant
                k <= insns@.len(),
                n == at_most_word(length_of(insns@, k as int)),
            decreases insns@.len() - k,
        {
            let l: usize = insns[k].len as usize;
            n = if n <= usize::MAX - l {
                n + l
            } else {
                usize::MAX
            };
            k = k + 1;
        }
        DecodeOutput { start: input.start, count: insns.len(), bytes_consumed: n, insns }
    }
}

/// The bytes that were consumed are those of all instructions.
pub proof fn instructions_consume_their_bytes(s: Seq<DecodedInsn>, k: int)
    requires
        0 <= k < s.len(),
    ensures
        length_of(s, 0) == 0,
        length_of(s, k + 1) == length_of(s, k) + s[k].len,
{
}

} // verus!
