//! What a decoder says about instructions, as plain values.

use vstd::prelude::*;

use crate::sorted::SortedMap;
use crate::text::same;
use crate::va::Va;

verus! {

/// How an instruction affects control flow.
#[derive(Clone, Copy, Debug, PartialEq, Eq, Structural)]
pub enum InsnKind {
    /// Control goes on to the next instruction.
    Plain,
    Call,
    Jump,
    CondJump,
    Ret,
    Int,
}

/// One decoded instruction.
#[derive(Clone, Debug, PartialEq, Eq)]
pub struct DecodedInsn {
    pub va: Va,
    pub len: u8,
    pub mnemonic: String,
    pub text: String,
    pub kind: InsnKind,
    /// The operand of a direct branch or call.
    pub target: Option<Va>,
    /// The address that an instruction-relative memory operand names.
    pub rip_target: Option<Va>,
    /// The condition under which the instruction executes, where it has one.
    pub cond: Option<String>,
    /// On a return, the argument bytes that the callee pops.
    pub stack_adjust: Option<u16>,
}

/// The registers that an instruction reads and writes.
#[derive(Clone, Debug, PartialEq, Eq)]
pub struct RegAccess {
    pub reads: Vec<String>,
    pub writes: Vec<String>,
}

/// What the prolog reveals about the stack frame.
#[derive(Clone, Debug, PartialEq, Eq)]
pub struct FrameInfo {
    pub frame_size: u64,
    pub uses_rbp: bool,
    pub spilled_regs: Vec<String>,
    pub prolog: Vec<Va>,
}

/// A jump-table dispatch, with the cases that memory gave for it.
#[derive(Clone, Debug, PartialEq, Eq)]
pub struct ResolvedSwitch {
    pub at: Va,
    pub kind: String,
    pub table: Option<Va>,
    pub index_reg: Option<String>,
    pub scale: u32,
    pub bound: Option<u64>,
    pub entry_size: u32,
    pub cases: Vec<Va>,
    pub resolved: bool,
}

/// Alignment filler rather than a function's instruction.
pub open spec fn is_filler_insn(x: DecodedInsn) -> bool {
    x.mnemonic@ == "nop"@ || x.mnemonic@ == "int3"@
}

/// Is this alignment filler rather than a function's instruction?
pub fn is_filler(x: &DecodedInsn) -> (r: bool)
    ensures
        r == is_filler_insn(*x),
{
    same(x.mnemonic.as_str(), "nop") || same(x.mnemonic.as_str(), "int3")
}

/// What a decoder says about a range of code: the instruction that starts at
/// each address where one does, and those of one sweep from start to end.
pub struct CodeView {
    pub insns: SortedMap<u64, DecodedInsn>,
    pub sweep: Vec<DecodedInsn>,
}

impl CodeView {
    /// Every instruction has a length.
    pub open spec fn wf(&self) -> bool {
        &&& self.insns.wf()
        &&& forall|va: u64| #[trigger] self.insns.map().contains_key(va) ==> self.insns.map()[va].len > 0
    }

    /// The instruction that starts at an address.
    pub open spec fn at(&self, va: u64) -> Option<DecodedInsn> {
        if self.insns.map().contains_key(va) {
            Some(self.insns.map()[va])
        } else {
            None
        }
    }

    /// The instruction that starts at an address.
    pub fn insn_at(&self, va: u64) -> (r: Option<&DecodedInsn>)
        requires
            self.wf(),
        ensures
            match (r, self.at(va)) {
                (Some(a), Some(b)) => *a == b && b.len > 0,
                (None, None) => true,
                _ => false,
            },
    {
        self.insns.get(&va)
    }
}

} // verus!
