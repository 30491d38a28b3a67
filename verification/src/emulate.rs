//! An emulator of micro-code, so that what was recovered can be held against
//! what a processor does.
//!
//! It performs exactly what the micro-code says and derives nothing that was
//! not recorded. Wherever the micro-code is silent, the run ends with an error
//! that names what was missing.
//!
//! The meaning of a run is the function `run_of` and those below it: from the
//! state of the machine to a result and the state after it.

use vstd::arithmetic::power2::pow2;
use vstd::prelude::*;
use vstd::string::{StrSliceExecFns, StringExecFns};
use vstd::utf8::encode_utf8;

use crate::bits::{
    bits_of_signed, cut64, divide, extend, extend_of, low64, quotient, read_signed, remainder, sar, shift_left,
    shift_right_signed, shl, signed_bits, signed_of, to_word, word_of, WORD,
};
use crate::intrinsics::{intrinsic, intrinsic_of, Answer, FloatCall, FloatFact};
use crate::ir::{text_list, Successor};
use crate::memory::{image, loaded, span, stored, touching, Memory};
use crate::micro::{BinOp, CallTarget, CmpKind, MicroExpr, MicroStmt, UnOp, CALL_CLOBBER, FLAGS_VAR, JUMP_TARGET_VAR};
use crate::sorted::{ascending, holds, lemma_map_at, lemma_map_len, NameMap, NameSet, SortedMap, SortedSet};
use crate::source::Snapshot;
use crate::ssa::{Phi, PhiInput, SsaBlock, SsaStmt};
use crate::text::{before_dot, decimal, dec, ends, last_index, root_name, same, split_at_last, split_last};
use crate::va::Va;

verus! {

/// The widest value that is held: a vector register. A wider one is an error.
pub const WORD_BITS: u32 = 128;

/// Where the stack pointer starts, far from any image.
pub const DEFAULT_STACK_TOP: u64 = 0x7fff_0000_0000;

/// The return address that the caller stands for. It is never executed.
pub const RETURN_SENTINEL: u64 = 0xdead_0000_0000_0000;

/// The caller's frame pointer.
pub const CALLER_FRAME: u64 = 0x7fff_0000_0100;

/// Where the segments lie.
pub const DEFAULT_FS_BASE: u64 = 0x7f00_0000_0000;

pub const DEFAULT_GS_BASE: u64 = 0x7e00_0000_0000;

/// What happens at a call.
#[derive(Clone, Copy, Debug, PartialEq, Eq, Structural)]
pub enum CallPolicy {
    /// A call is an error.
    Refuse,
    /// The callee runs where there is a body for it, and a stated value stands
    /// for it where there is one. Calls nest no deeper than the bound.
    Execute { max_depth: usize },
}

/// How a run is set up.
#[derive(Clone, Copy, Debug, PartialEq, Eq, Structural)]
pub struct EmuConfig {
    /// How many statements are executed at most.
    pub max_steps: usize,
    pub stack_top: u64,
    pub fs_base: u64,
    pub gs_base: u64,
    /// Whether a register that is undefined at the entry may hold any value. It
    /// is then given one, and listed in the result.
    pub entry_scratch: bool,
    pub calls: CallPolicy,
    /// The width of a return address.
    pub word_bits: u32,
}

impl Default for EmuConfig {
    fn default() -> (r: EmuConfig)
        ensures
            r == (EmuConfig {
                max_steps: 2_000_000,
                stack_top: DEFAULT_STACK_TOP,
                fs_base: DEFAULT_FS_BASE,
                gs_base: DEFAULT_GS_BASE,
                entry_scratch: false,
                calls: CallPolicy::Refuse,
                word_bits: 64,
            }),
    {
        EmuConfig {
            max_steps: 2_000_000,
            stack_top: DEFAULT_STACK_TOP,
            fs_base: DEFAULT_FS_BASE,
            gs_base: DEFAULT_GS_BASE,
            entry_scratch: false,
            calls: CallPolicy::Refuse,
            word_bits: 64,
        }
    }
}

/// Why a run ended without a value.
#[derive(Clone, Debug, PartialEq, Eq)]
pub enum EmuError {
    /// A variable was read that nothing defined.
    UndefinedVar(String),
    /// The instruction was not lifted.
    Unlifted { va: Va, text: String },
    /// The operand was not lifted.
    UnknownExpr(String),
    /// Flags that are not modelled were used as a value.
    OpaqueFlags(String),
    /// Nothing supplies the callee.
    CallNotModelled(String),
    /// The call would nest too deep.
    CallDepthExceeded { limit: usize, va: Va },
    IntrinsicNotModelled(String),
    /// Neither written memory nor the image has the bytes.
    UnreadableMemory { addr: u64, bytes: u32 },
    /// The value is wider than a vector register.
    WidthNotModelled { bits: u32 },
    DivideByZero(Va),
    /// The block's edges do not say how execution goes on.
    NoSuccessor { block: usize, terminator: String },
    /// A conditional jump without a condition.
    NoCondition { block: usize },
    /// An indirect jump went where no edge of the block leads.
    UnrecordedJump { block: usize, to: u64 },
    /// An indirect jump in a block without edges.
    UnresolvedJump { block: usize, to: u64 },
    /// An edge leads to where no block begins.
    JumpToNonLeader { block: usize, to: u64 },
    StepLimit(usize),
    /// There is no entry block.
    NoEntry,
    /// The result of a floating-point operation is needed and was not given.
    FloatNotGiven(FloatCall),
}

/// Why a run ended without a value, by contents.
pub ghost enum Fault {
    UndefinedVar(Seq<char>),
    Unlifted(Va, Seq<char>),
    UnknownExpr(Seq<char>),
    OpaqueFlags(Seq<char>),
    CallNotModelled(Seq<char>),
    CallDepthExceeded(usize, Va),
    IntrinsicNotModelled(Seq<char>),
    UnreadableMemory(u64, u32),
    WidthNotModelled(u32),
    DivideByZero(Va),
    NoSuccessor(usize, Seq<char>),
    NoCondition(usize),
    UnrecordedJump(usize, u64),
    UnresolvedJump(usize, u64),
    JumpToNonLeader(usize, u64),
    StepLimit(usize),
    NoEntry,
    FloatNotGiven(FloatCall),
}

impl EmuError {
    pub open spec fn fault(self) -> Fault {
        match self {
            EmuError::UndefinedVar(v) => Fault::UndefinedVar(v@),
            EmuError::Unlifted { va, text } => Fault::Unlifted(va, text@),
            EmuError::UnknownExpr(s) => Fault::UnknownExpr(s@),
            EmuError::OpaqueFlags(m) => Fault::OpaqueFlags(m@),
            EmuError::CallNotModelled(t) => Fault::CallNotModelled(t@),
            EmuError::CallDepthExceeded { limit, va } => Fault::CallDepthExceeded(limit, va),
            EmuError::IntrinsicNotModelled(n) => Fault::IntrinsicNotModelled(n@),
            EmuError::UnreadableMemory { addr, bytes } => Fault::UnreadableMemory(addr, bytes),
            EmuError::WidthNotModelled { bits } => Fault::WidthNotModelled(bits),
            EmuError::DivideByZero(va) => Fault::DivideByZero(va),
            EmuError::NoSuccessor { block, terminator } => Fault::NoSuccessor(block, terminator@),
            EmuError::NoCondition { block } => Fault::NoCondition(block),
            EmuError::UnrecordedJump { block, to } => Fault::UnrecordedJump(block, to),
            EmuError::UnresolvedJump { block, to } => Fault::UnresolvedJump(block, to),
            EmuError::JumpToNonLeader { block, to } => Fault::JumpToNonLeader(block, to),
            EmuError::StepLimit(n) => Fault::StepLimit(n),
            EmuError::NoEntry => Fault::NoEntry,
            EmuError::FloatNotGiven(c) => Fault::FloatNotGiven(c),
        }
    }
}

impl Fault {
    /// How the fault is put in words.
    pub open spec fn message(self) -> Seq<char> {
        match self {
            Fault::UndefinedVar(v) => "read of undefined variable `"@ + v + "`"@,
            Fault::Unlifted(va, text) => "unlifted instruction at "@ + va.text() + ": "@ + text,
            Fault::UnknownExpr(s) => "unlowered operand: "@ + s,
            Fault::OpaqueFlags(m) => "opaque flags from `"@ + m + "` used as a value"@,
            Fault::CallNotModelled(t) => "call to "@ + t + " is not modelled"@,
            Fault::CallDepthExceeded(limit, va) => "call to "@ + va.text() + " would nest deeper than the limit of "@
                + dec(limit as nat),
            Fault::IntrinsicNotModelled(n) => "intrinsic `"@ + n + "` is not modelled"@,
            Fault::UnreadableMemory(addr, bytes) => "read of "@ + dec(bytes as nat) + " unreadable bits at "@ + Va(
                addr,
            ).text(),
            Fault::WidthNotModelled(bits) => "a "@ + dec(bits as nat) + "-bit value is wider than this emulator's word"@,
            Fault::DivideByZero(va) => "divide by zero at "@ + va.text(),
            Fault::NoSuccessor(block, t) => "block "@ + dec(block as nat) + " terminates as `"@ + t
                + "` with no usable successor"@,
            Fault::NoCondition(block) => "block "@ + dec(block as nat) + " is a cjmp with no synthesized condition"@,
            Fault::UnrecordedJump(block, to) => "block "@ + dec(block as nat) + " jumps to "@ + Va(to).text()
                + ", which is not one of the edges the CFG recorded"@,
            Fault::UnresolvedJump(block, to) => "block "@ + dec(block as nat) + " jumps to "@ + Va(to).text()
                + "; the CFG resolved no edges for this dispatch"@,
            Fault::JumpToNonLeader(block, to) => "block "@ + dec(block as nat) + " jumps to "@ + Va(to).text()
                + ", a recorded edge that no block begins at"@,
            Fault::StepLimit(n) => "step limit of "@ + dec(n as nat) + " reached"@,
            Fault::NoEntry => "no entry block"@,
            Fault::FloatNotGiven(_) => "a floating-point result was not given"@,
        }
    }
}

fn say(a: &str, b: &str, c: &str) -> (r: String)
    ensures
        r@ == a@ + b@ + c@,
{
    String::from_str(a).concat(b).concat(c)
}

impl EmuError {
    /// The error in words.
    pub fn text(&self) -> (r: String)
        ensures
            r@ == self.fault().message(),
    {
        match self {
            EmuError::UndefinedVar(v) => say("read of undefined variable `", v.as_str(), "`"),
            EmuError::Unlifted { va, text } => say("unlifted instruction at ", va.to_text().as_str(), ": ").concat(
                text.as_str(),
            ),
            EmuError::UnknownExpr(s) => String::from_str("unlowered operand: ").concat(s.as_str()),
            EmuError::OpaqueFlags(m) => say("opaque flags from `", m.as_str(), "` used as a value"),
            EmuError::CallNotModelled(t) => say("call to ", t.as_str(), " is not modelled"),
            EmuError::CallDepthExceeded { limit, va } => say(
                "call to ",
                va.to_text().as_str(),
                " would nest deeper than the limit of ",
            ).concat(decimal(*limit as u64).as_str()),
            EmuError::IntrinsicNotModelled(n) => say("intrinsic `", n.as_str(), "` is not modelled"),
            EmuError::UnreadableMemory { addr, bytes } => say(
                "read of ",
                decimal(*bytes as u64).as_str(),
                " unreadable bits at ",
            ).concat(Va(*addr).to_text().as_str()),
            EmuError::WidthNotModelled { bits } => say(
                "a ",
                decimal(*bits as u64).as_str(),
                "-bit value is wider than this emulator's word",
            ),
            EmuError::DivideByZero(va) => String::from_str("divide by zero at ").concat(va.to_text().as_str()),
            EmuError::NoSuccessor { block, terminator } => say(
                "block ",
                decimal(*block as u64).as_str(),
                " terminates as `",
            ).concat(terminator.as_str()).concat("` with no usable successor"),
            EmuError::NoCondition { block } => say(
                "block ",
                decimal(*block as u64).as_str(),
                " is a cjmp with no synthesized condition",
            ),
            EmuError::UnrecordedJump { block, to } => say(
                "block ",
                decimal(*block as u64).as_str(),
                " jumps to ",
            ).concat(Va(*to).to_text().as_str()).concat(", which is not one of the edges the CFG recorded"),
            EmuError::UnresolvedJump { block, to } => say(
                "block ",
                decimal(*block as u64).as_str(),
                " jumps to ",
            ).concat(Va(*to).to_text().as_str()).concat("; the CFG resolved no edges for this dispatch"),
            EmuError::JumpToNonLeader { block, to } => say(
                "block ",
                decimal(*block as u64).as_str(),
                " jumps to ",
            ).concat(Va(*to).to_text().as_str()).concat(", a recorded edge that no block begins at"),
            EmuError::StepLimit(n) => say("step limit of ", decimal(*n as u64).as_str(), " reached"),
            EmuError::NoEntry => String::from_str("no entry block"),
            EmuError::FloatNotGiven(_) => String::from_str("a floating-point result was not given"),
        }
    }
}

/// A result with its error by contents.
pub open spec fn seen<T>(r: Result<T, EmuError>) -> Result<T, Fault> {
    match r {
        Ok(v) => Ok(v),
        Err(e) => Err(e.fault()),
    }
}

// ---------------------------------------------------------------------------
// Callees
// ---------------------------------------------------------------------------

/// Where the body of a callee comes from, and what one without a body returns.
pub trait CodeProvider {
    /// The provider is well formed.
    spec fn wf(&self) -> bool;

    /// The body of the function at `va`.
    spec fn body_of(&self, va: Va) -> Option<Seq<SsaBlock>>;

    /// What the function at `va` returns for these arguments. An argument
    /// register without a value is `None`.
    spec fn stub_of(&self, va: Va, args: Seq<Option<u64>>) -> Option<u64>;

    fn body(&self, va: Va) -> (r: Option<&[SsaBlock]>)
        requires
            self.wf(),
        ensures
            match (r, self.body_of(va)) {
                (Some(b), Some(s)) => b@ == s,
                (None, None) => true,
                _ => false,
            },
    ;

    fn stub(&self, va: Va, args: &[Option<u64>]) -> (r: Option<u64>)
        requires
            self.wf(),
        ensures
            r == self.stub_of(va, args@),
    ;
}

/// Bodies to run and values to hand back, by address.
pub struct BodyMap {
    pub bodies: SortedMap<u64, Vec<SsaBlock>>,
    pub stubs: SortedMap<u64, u64>,
}

impl BodyMap {
    pub fn new() -> (r: BodyMap)
        ensures
            r.wf(),
            r.bodies.map() == Map::<u64, Vec<SsaBlock>>::empty(),
            r.stubs.map() == Map::<u64, u64>::empty(),
    {
        BodyMap { bodies: SortedMap::new(), stubs: SortedMap::new() }
    }

    /// States the body of the function at `va`.
    pub fn insert(&mut self, va: Va, blocks: Vec<SsaBlock>) -> (r: &mut Self)
        requires
            old(self).wf(),
        ensures
            (*r).wf(),
            (*r).bodies.map() == old(self).bodies.map().insert(va.0, blocks),
            (*r).stubs == old(self).stubs,
            *final(self) == *final(r),
    {
        self.bodies.insert(va.0, blocks);
        self
    }

    /// States what the function at `va` returns, whatever its arguments.
    pub fn stub(&mut self, va: Va, value: u64) -> (r: &mut Self)
        requires
            old(self).wf(),
        ensures
            (*r).wf(),
            (*r).bodies == old(self).bodies,
            (*r).stubs.map() == old(self).stubs.map().insert(va.0, value),
            *final(self) == *final(r),
    {
        self.stubs.insert(va.0, value);
        self
    }

    /// Leaves the callees that have neither a body nor a stated value to a function
    /// of their address and arguments.
    pub fn stub_with<F: Fn(u64, Vec<Option<u64>>) -> Option<u64>>(self, answer: F) -> (r: Callees<F>)
        requires
            self.wf(),
            answers(answer),
        ensures
            r.wf(),
            r == (Callees { map: self, answer }),
    {
        Callees { map: self, answer }
    }

    /// How many bodies there are.
    pub fn len(&self) -> (n: usize)
        requires
            self.wf(),
        ensures
            n == self.bodies.map().dom().len(),
    {
        proof {
            lemma_map_len(&self.bodies);
        }
        self.bodies.keys.len()
    }

    /// Is there no body?
    pub fn is_empty(&self) -> (r: bool)
        requires
            self.wf(),
        ensures
            r == (self.bodies.map().dom().len() == 0),
    {
        self.len() == 0
    }
}

impl Default for BodyMap {
    fn default() -> (r: BodyMap)
        ensures
            r.wf(),
            r.bodies.map() == Map::<u64, Vec<SsaBlock>>::empty(),
            r.stubs.map() == Map::<u64, u64>::empty(),
    {
        BodyMap::new()
    }
}

impl CodeProvider for BodyMap {
    open spec fn wf(&self) -> bool {
        self.bodies.wf() && self.stubs.wf()
    }

    open spec fn body_of(&self, va: Va) -> Option<Seq<SsaBlock>> {
        if self.bodies.map().contains_key(va.0) {
            Some(self.bodies.map()[va.0]@)
        } else {
            None
        }
    }

    open spec fn stub_of(&self, va: Va, args: Seq<Option<u64>>) -> Option<u64> {
        if self.stubs.map().contains_key(va.0) {
            Some(self.stubs.map()[va.0])
        } else {
            None
        }
    }

    fn body(&self, va: Va) -> (r: Option<&[SsaBlock]>) {
        match self.bodies.get(&va.0) {
            Some(b) => Some(b.as_slice()),
            None => None,
        }
    }

    fn stub(&self, va: Va, args: &[Option<u64>]) -> (r: Option<u64>) {
        match self.stubs.get(&va.0) {
            Some(v) => Some(*v),
            None => None,
        }
    }
}

/// Bodies and stated values, and a function that answers for the callees which
/// have neither.
pub struct Callees<F> {
    pub map: BodyMap,
    /// What the callee at an address returns for its arguments.
    pub answer: F,
}

/// The function answers every call, and equal calls alike.
pub open spec fn answers<F: Fn(u64, Vec<Option<u64>>) -> Option<u64>>(f: F) -> bool {
    &&& forall|va: u64, v: Vec<Option<u64>>| #[trigger] f.requires((va, v))
    &&& forall|va: u64, v: Vec<Option<u64>>, w: Vec<Option<u64>>, r: Option<u64>, s: Option<u64>|
        v@ == w@ && #[trigger] f.ensures((va, v), r) && #[trigger] f.ensures((va, w), s) ==> r == s
}

/// The function may answer a call with `r`.
pub open spec fn may_answer<F: Fn(u64, Vec<Option<u64>>) -> Option<u64>>(
    f: F,
    va: u64,
    args: Seq<Option<u64>>,
    r: Option<u64>,
) -> bool {
    exists|v: Vec<Option<u64>>| v@ == args && #[trigger] f.ensures((va, v), r)
}

/// What the function answers.
pub open spec fn given_answer<F: Fn(u64, Vec<Option<u64>>) -> Option<u64>>(
    f: F,
    va: u64,
    args: Seq<Option<u64>>,
) -> Option<u64> {
    choose|r: Option<u64>| may_answer(f, va, args, r)
}

impl<F: Fn(u64, Vec<Option<u64>>) -> Option<u64>> CodeProvider for Callees<F> {
    open spec fn wf(&self) -> bool {
        self.map.wf() && answers(self.answer)
    }

    open spec fn body_of(&self, va: Va) -> Option<Seq<SsaBlock>> {
        self.map.body_of(va)
    }

    open spec fn stub_of(&self, va: Va, args: Seq<Option<u64>>) -> Option<u64> {
        match self.map.stub_of(va, args) {
            Some(v) => Some(v),
            None => given_answer(self.answer, va.0, args),
        }
    }

    fn body(&self, va: Va) -> (r: Option<&[SsaBlock]>) {
        self.map.body(va)
    }

    fn stub(&self, va: Va, args: &[Option<u64>]) -> (r: Option<u64>) {
        match CodeProvider::stub(&self.map, va, args) {
            Some(v) => Some(v),
            None => {
                let v = vstd::slice::slice_to_vec(args);
                let r = (self.answer)(va.0, v);
                proof {
                    assert(may_answer(self.answer, va.0, args@, r));
                    let s = given_answer(self.answer, va.0, args@);
                    assert(may_answer(self.answer, va.0, args@, s));
                }
                r
            },
        }
    }
}

// ---------------------------------------------------------------------------
// The state of the machine
// ---------------------------------------------------------------------------

/// The registers of one activation, as versions of names and as registers.
pub ghost struct Regs {
    pub vars: Map<Seq<char>, u128>,
    pub arch: Map<Seq<char>, u128>,
}

impl Regs {
    /// The name holds the value, and so does its register.
    pub open spec fn set(self, name: Seq<char>, v: u128) -> Regs {
        Regs { vars: self.vars.insert(name, v), arch: self.arch.insert(root_name(name), v) }
    }

    /// Neither the name nor its register holds a value.
    pub open spec fn clear(self, name: Seq<char>) -> Regs {
        Regs { vars: self.vars.remove(name), arch: self.arch.remove(root_name(name)) }
    }

    /// The name, its register and its entry version hold the value, where they
    /// hold none yet.
    pub open spec fn seed(self, name: Seq<char>, v: u128) -> Regs {
        let r = if self.vars.contains_key(name) {
            self
        } else {
            self.set(name, v)
        };
        if r.vars.contains_key(entry_name(name)) {
            r
        } else {
            Regs { vars: r.vars.insert(entry_name(name), v), arch: r.arch }
        }
    }

    /// The name, its register and its entry version hold the value.
    pub open spec fn enter(self, name: Seq<char>, v: u128) -> Regs {
        let r = self.set(name, v);
        Regs { vars: r.vars.insert(entry_name(name), v), arch: r.arch }
    }
}

/// The version of a name with which a function is entered.
pub open spec fn entry_name(name: Seq<char>) -> Seq<char> {
    name + ".0"@
}

/// The state of a run.
pub ghost struct Machine {
    pub regs: Regs,
    pub written: Map<u64, u8>,
    pub touched: Set<u64>,
    pub invented: Seq<Seq<char>>,
    pub steps: usize,
    pub blocks: usize,
    pub calls: usize,
    pub stubbed: usize,
    /// The registers that the last callee left behind.
    pub after_call: Option<Map<Seq<char>, u128>>,
}

/// What a run can look at and does not change.
pub ghost struct World<C> {
    pub cfg: EmuConfig,
    pub backing: Option<Snapshot>,
    pub code: Option<C>,
    pub arg_regs: Seq<Seq<char>>,
    pub facts: Seq<FloatFact>,
}

impl<C> World<C> {
    /// How deep calls may nest.
    pub open spec fn limit(self) -> nat {
        match self.cfg.calls {
            CallPolicy::Refuse => 0,
            CallPolicy::Execute { max_depth } => max_depth as nat,
        }
    }
}

/// One more, up to the largest count.
pub open spec fn bump(n: usize) -> usize {
    if n < usize::MAX {
        (n + 1) as usize
    } else {
        n
    }
}

// ---------------------------------------------------------------------------
// The meaning of expressions
// ---------------------------------------------------------------------------

/// Is this the version with which the function was entered? Names without a
/// version are.
pub open spec fn is_entry(name: Seq<char>) -> bool {
    match split_at_last(name, '.') {
        Some((_, v)) => v == "0"@,
        None => true,
    }
}

/// The hash of the first `k` bytes.
pub open spec fn hash_of(b: Seq<u8>, k: int) -> u64
    decreases k,
{
    if k <= 0 {
        0xcbf2_9ce4_8422_2325
    } else {
        (((hash_of(b, k - 1) ^ (b[k - 1] as u64)) * 0x1000_0000_01b3) % (WORD as int)) as u64
    }
}

/// The value that stands for a register that holds just anything.
pub open spec fn scratch_of(name: Seq<char>) -> u128 {
    let h = hash_of(encode_utf8(name), encode_utf8(name).len() as int);
    (0xA5A5_0000_0000_0000 + h % 0x1_0000_0000_0000) as u128
}

/// Reads a variable. An undefined one may be given a value at the entry.
pub open spec fn var_of<C>(w: World<C>, name: Seq<char>, m: Machine) -> (Result<u128, Fault>, Machine) {
    if m.regs.vars.contains_key(name) {
        (Ok(m.regs.vars[name]), m)
    } else if w.cfg.entry_scratch && is_entry(name) {
        (
            Ok(scratch_of(name)),
            Machine { regs: m.regs.set(name, scratch_of(name)), invented: m.invented.push(name), ..m },
        )
    } else {
        (Err(Fault::UndefinedVar(name)), m)
    }
}

/// Reads memory.
pub open spec fn load_of<C>(w: World<C>, addr: u64, bits: u32, m: Machine) -> (Result<u128, Fault>, Machine) {
    if bits > WORD_BITS {
        (Err(Fault::WidthNotModelled(bits)), m)
    } else {
        (
            match loaded(w.backing, m.written, addr, bits) {
                Some(v) => Ok(v),
                None => Err(Fault::UnreadableMemory(addr, bits)),
            },
            Machine { touched: touching(m.touched, addr, span(bits)), ..m },
        )
    }
}

/// Writes memory.
pub open spec fn store_of(addr: u64, v: u128, bits: u32, m: Machine) -> Machine {
    Machine {
        written: stored(m.written, addr, v, span(bits)),
        touched: touching(m.touched, addr, span(bits)),
        ..m
    }
}

/// The value is negative as a signed 64-bit number, and so on.
pub open spec fn sgn(a: u64) -> int {
    signed_of(a as u128, 64)
}

pub open spec fn truth(b: bool) -> u64 {
    if b {
        1
    } else {
        0
    }
}

/// An operation on two 64-bit words; `None` where it divides by zero.
pub open spec fn binop_of(op: BinOp, a: u64, b: u64) -> Option<u64> {
    match op {
        BinOp::Add => Some(word_of(a + b)),
        BinOp::Sub => Some(word_of(a - b)),
        BinOp::Mul => Some(word_of(a * b)),
        BinOp::UDiv => if b == 0 {
            None
        } else {
            Some((a / b) as u64)
        },
        BinOp::SDiv => if b == 0 {
            None
        } else {
            Some(word_of(quotient(sgn(a), sgn(b))))
        },
        BinOp::UMod => if b == 0 {
            None
        } else {
            Some((a % b) as u64)
        },
        BinOp::SMod => if b == 0 {
            None
        } else {
            Some(word_of(remainder(sgn(a), sgn(b))))
        },
        BinOp::And => Some(a & b),
        BinOp::Or => Some(a | b),
        BinOp::Xor => Some(a ^ b),
        BinOp::Shl => Some(
            if b >= 64 {
                0
            } else {
                shift_left(a as u128, b as nat, 64) as u64
            },
        ),
        BinOp::Shr => Some(
            if b >= 64 {
                0
            } else {
                (a as nat / pow2(b as nat)) as u64
            },
        ),
        BinOp::Sar => Some(
            shift_right_signed(
                a as u128,
                if b < 63 {
                    b as nat
                } else {
                    63
                },
                64,
            ) as u64,
        ),
        BinOp::Eq => Some(truth(a == b)),
        BinOp::Ne => Some(truth(a != b)),
        BinOp::Ult => Some(truth(a < b)),
        BinOp::Ule => Some(truth(a <= b)),
        BinOp::Ugt => Some(truth(a > b)),
        BinOp::Uge => Some(truth(a >= b)),
        BinOp::Slt => Some(truth(sgn(a) < sgn(b))),
        BinOp::Sle => Some(truth(sgn(a) <= sgn(b))),
        BinOp::Sgt => Some(truth(sgn(a) > sgn(b))),
        BinOp::Sge => Some(truth(sgn(a) >= sgn(b))),
    }
}

/// An operation on two values: bit by bit on all of them, and otherwise on
/// their low 64 bits.
pub open spec fn binary_value(op: BinOp, a: u128, b: u128, va: Va) -> Result<u128, Fault> {
    match op {
        BinOp::And => Ok(a & b),
        BinOp::Or => Ok(a | b),
        BinOp::Xor => Ok(a ^ b),
        _ => match binop_of(op, low64(a), low64(b)) {
            Some(v) => Ok(v as u128),
            None => Err(Fault::DivideByZero(va)),
        },
    }
}

pub open spec fn unary_value(op: UnOp, v: u128) -> u128 {
    match op {
        UnOp::Neg => ((u128::MAX - v + 1) % (u128::MAX + 1)) as u128,
        UnOp::Not => (u128::MAX - v) as u128,
    }
}

pub open spec fn compare_value(kind: CmpKind, a: u128, b: u128) -> u128 {
    match kind {
        CmpKind::Cmp | CmpKind::Result => truth(a != b) as u128,
        CmpKind::Test | CmpKind::LogicalResult => truth(a & b != 0) as u128,
    }
}

/// How the callee of a call is described.
pub open spec fn target_text(t: CallTarget) -> Seq<char> {
    match t {
        CallTarget::Direct { va } => va.text(),
        CallTarget::Indirect(_) => "an indirect target"@,
        CallTarget::Intrinsic(n) => "intrinsic `"@ + n@ + "`"@,
    }
}

/// The size of an expression, a target and the first `k` arguments.
pub open spec fn weight(e: MicroExpr) -> nat
    decreases e, 0nat,
{
    match e {
        MicroExpr::Load { addr, .. } => 1 + weight(*addr),
        MicroExpr::Unary(_, v) => 1 + weight(*v),
        MicroExpr::Binary(_, l, r) => 1 + weight(*l) + weight(*r),
        MicroExpr::Cast { expr, .. } => 1 + weight(*expr),
        MicroExpr::AddrOf(v) => 1 + weight(*v),
        MicroExpr::Compare { lhs, rhs, .. } => 1 + weight(*lhs) + weight(*rhs),
        MicroExpr::Call { target, args } => 2 + target_weight(target) + list_weight(args, args@.len()),
        MicroExpr::Select { cond, a, b } => 1 + weight(*cond) + weight(*a) + weight(*b),
        _ => 1,
    }
}

pub open spec fn target_weight(t: CallTarget) -> nat
    decreases t, 0nat,
{
    match t {
        CallTarget::Indirect(e) => 1 + weight(*e),
        _ => 1,
    }
}

pub open spec fn list_weight(args: Vec<MicroExpr>, k: nat) -> nat
    decreases args, k,
{
    if k == 0 || k > args@.len() {
        0
    } else {
        1 + list_weight(args, (k - 1) as nat) + weight(args[k - 1])
    }
}

/// The value of an expression.
pub open spec fn eval_of<C: CodeProvider>(
    w: World<C>,
    e: MicroExpr,
    va: Va,
    depth: nat,
    m: Machine,
) -> (Result<u128, Fault>, Machine)
    decreases w.limit() - depth, 0nat, weight(e),
{
    match e {
        MicroExpr::Const { value, bits } => (Ok(extend_of(bits_of_signed(value as int), bits, false)), m),
        MicroExpr::Var(name) => var_of(w, name@, m),
        MicroExpr::Load { addr, bits, signed } => match eval_of(w, *addr, va, depth, m) {
            (Ok(a), m1) => match load_of(w, low64(a), bits, m1) {
                (Ok(v), m2) => (Ok(extend_of(v, bits, signed)), m2),
                (Err(f), m2) => (Err(f), m2),
            },
            (Err(f), m1) => (Err(f), m1),
        },
        MicroExpr::Unary(op, v) => match eval_of(w, *v, va, depth, m) {
            (Ok(a), m1) => (Ok(unary_value(op, a)), m1),
            (Err(f), m1) => (Err(f), m1),
        },
        MicroExpr::Binary(op, l, r) => match eval_of(w, *l, va, depth, m) {
            (Ok(a), m1) => match eval_of(w, *r, va, depth, m1) {
                (Ok(b), m2) => (binary_value(op, a, b, va), m2),
                (Err(f), m2) => (Err(f), m2),
            },
            (Err(f), m1) => (Err(f), m1),
        },
        MicroExpr::Cast { signed, bits, expr } => match eval_of(w, *expr, va, depth, m) {
            (Ok(a), m1) => (Ok(extend_of(a, bits, signed)), m1),
            (Err(f), m1) => (Err(f), m1),
        },
        MicroExpr::AddrOf(v) => eval_of(w, *v, va, depth, m),
        MicroExpr::Compare { kind, lhs, rhs } => match eval_of(w, *lhs, va, depth, m) {
            (Ok(a), m1) => match eval_of(w, *rhs, va, depth, m1) {
                (Ok(b), m2) => (Ok(compare_value(kind, a, b)), m2),
                (Err(f), m2) => (Err(f), m2),
            },
            (Err(f), m1) => (Err(f), m1),
        },
        MicroExpr::OpaqueFlags { mnemonic } => (Err(Fault::OpaqueFlags(mnemonic@)), m),
        MicroExpr::Call { target, args } => match target {
            CallTarget::Intrinsic(name) => match args_of(w, args, args@.len(), va, depth, m) {
                (Ok(vals), m1) => (
                    answer_of(intrinsic_of(w.facts, name@, vals, w.cfg.fs_base, w.cfg.gs_base), name@, va),
                    m1,
                ),
                (Err(f), m1) => (Err(f), m1),
            },
            _ => match call_of(w, target, args, va, None, depth, m) {
                (Ok(Some(v)), m1) => (Ok(v as u128), m1),
                (Ok(None), m1) => (Err(Fault::CallNotModelled(target_text(target))), m1),
                (Err(f), m1) => (Err(f), m1),
            },
        },
        MicroExpr::Select { cond, a, b } => match eval_of(w, *cond, va, depth, m) {
            (Ok(c), m1) => if c != 0 {
                eval_of(w, *a, va, depth, m1)
            } else {
                eval_of(w, *b, va, depth, m1)
            },
            (Err(f), m1) => (Err(f), m1),
        },
        MicroExpr::Unknown(s) => (Err(Fault::UnknownExpr(s@)), m),
    }
}

/// The answer of a named operation as a value.
pub open spec fn answer_of(a: Answer, name: Seq<char>, va: Va) -> Result<u128, Fault> {
    match a {
        Answer::Value(v) => Ok(v),
        Answer::Gap => Err(Fault::IntrinsicNotModelled(name)),
        Answer::Trap => Err(Fault::DivideByZero(va)),
        Answer::Unknown(c) => Err(Fault::FloatNotGiven(c)),
    }
}

/// The values of the first `k` arguments.
pub open spec fn args_of<C: CodeProvider>(
    w: World<C>,
    args: Vec<MicroExpr>,
    k: nat,
    va: Va,
    depth: nat,
    m: Machine,
) -> (Result<Seq<u128>, Fault>, Machine)
    decreases w.limit() - depth, 0nat, list_weight(args, k),
{
    if k == 0 || k > args@.len() {
        (Ok(Seq::empty()), m)
    } else {
        match args_of(w, args, (k - 1) as nat, va, depth, m) {
            (Ok(vals), m1) => match eval_of(w, args[k - 1], va, depth, m1) {
                (Ok(v), m2) => (Ok(vals.push(v)), m2),
                (Err(f), m2) => (Err(f), m2),
            },
            (Err(f), m1) => (Err(f), m1),
        }
    }
}

/// A fault that no argument may hide: a result that was asked for.
pub open spec fn asks(f: Fault) -> bool {
    f is FloatNotGiven
}

/// The first `k` arguments for a stub. One without a value is `None`.
pub open spec fn argv_of<C: CodeProvider>(
    w: World<C>,
    args: Vec<MicroExpr>,
    k: nat,
    va: Va,
    depth: nat,
    m: Machine,
) -> (Result<Seq<Option<u64>>, Fault>, Machine)
    decreases w.limit() - depth, 0nat, list_weight(args, k),
{
    if k == 0 || k > args@.len() {
        (Ok(Seq::empty()), m)
    } else {
        match argv_of(w, args, (k - 1) as nat, va, depth, m) {
            (Ok(vals), m1) => match eval_of(w, args[k - 1], va, depth, m1) {
                (Ok(v), m2) => (Ok(vals.push(Some(low64(v)))), m2),
                (Err(f), m2) => if asks(f) {
                    (Err(f), m2)
                } else {
                    (Ok(vals.push(None)), m2)
                },
            },
            (Err(f), m1) => (Err(f), m1),
        }
    }
}

/// The registers of a callee after the first `k` arguments have been laid onto
/// them, as far as there are argument registers. A register whose argument has
/// no value stays as it was.
pub open spec fn passed<C: CodeProvider>(
    w: World<C>,
    args: Vec<MicroExpr>,
    k: nat,
    va: Va,
    depth: nat,
    callee: Regs,
    m: Machine,
) -> (Result<Regs, Fault>, Machine)
    decreases w.limit() - depth, 0nat, list_weight(args, k),
{
    if k == 0 || k > args@.len() {
        (Ok(callee), m)
    } else if k > w.arg_regs.len() {
        passed(w, args, (k - 1) as nat, va, depth, callee, m)
    } else {
        match passed(w, args, (k - 1) as nat, va, depth, callee, m) {
            (Ok(regs), m1) => match eval_of(w, args[k - 1], va, depth, m1) {
                (Ok(v), m2) => (Ok(regs.enter(w.arg_regs[k - 1], v)), m2),
                (Err(f), m2) => if asks(f) {
                    (Err(f), m2)
                } else {
                    (Ok(regs), m2)
                },
            },
            (Err(f), m1) => (Err(f), m1),
        }
    }
}

/// The registers with which a callee is entered: those of its caller, under
/// their own names and as entry versions.
pub open spec fn entry_regs(arch: Map<Seq<char>, u128>) -> Regs {
    Regs {
        vars: Map::new(
            |k: Seq<char>| arch.contains_key(k) || (ends(k, ".0"@) && arch.contains_key(k.take(k.len() - 2))),
            |k: Seq<char>|
                if arch.contains_key(k) {
                    arch[k]
                } else {
                    arch[k.take(k.len() - 2)]
                },
        ),
        arch,
    }
}

/// The stack pointer, under each of its names.
pub open spec fn with_stack(r: Regs, sp: u64) -> Regs {
    r.enter("rsp"@, sp as u128).enter("esp"@, sp as u128).enter("sp"@, sp as u128)
}

/// The stack pointer after a return address has been pushed.
pub open spec fn pushed(sp: u128, word_bits: u32) -> u64 {
    word_of(low64(sp) - word_bits / 8)
}

/// The return address that a call pushes.
pub open spec fn return_address(return_to: Option<Va>, calls: usize) -> u64 {
    match return_to {
        Some(v) => v.0,
        None => RETURN_SENTINEL | (bump(calls) as u64),
    }
}

/// Whom a call goes to.
pub open spec fn callee_of<C: CodeProvider>(
    w: World<C>,
    target: CallTarget,
    va: Va,
    depth: nat,
    m: Machine,
) -> (Result<Va, Fault>, Machine)
    decreases w.limit() - depth, 0nat, target_weight(target),
{
    match target {
        CallTarget::Direct { va } => (Ok(va), m),
        CallTarget::Indirect(e) => match eval_of(w, *e, va, depth, m) {
            (Ok(v), m1) => (Ok(Va(low64(v))), m1),
            (Err(f), m1) => (Err(f), m1),
        },
        CallTarget::Intrinsic(n) => (Err(Fault::IntrinsicNotModelled(n@)), m),
    }
}

/// A call: its callee runs on the caller's registers, with the return address
/// pushed and the arguments laid onto their registers.
pub open spec fn call_of<C: CodeProvider>(
    w: World<C>,
    target: CallTarget,
    args: Vec<MicroExpr>,
    va: Va,
    return_to: Option<Va>,
    depth: nat,
    m: Machine,
) -> (Result<Option<u64>, Fault>, Machine)
    decreases w.limit() - depth, 0nat, 1 + target_weight(target) + list_weight(args, args@.len()),
{
    if w.cfg.calls == CallPolicy::Refuse {
        (Err(Fault::CallNotModelled(target_text(target))), m)
    } else {
        match callee_of(w, target, va, depth, m) {
            (Err(f), m1) => (Err(f), m1),
            (Ok(callee), m1) => {
                let body = match w.code {
                    Some(c) => c.body_of(callee),
                    None => None,
                };
                match body {
                    None => match argv_of(w, args, args@.len(), va, depth, m1) {
                        (Err(f), m2) => (Err(f), m2),
                        (Ok(argv), m2) => {
                            let stub = match w.code {
                                Some(c) => c.stub_of(callee, argv),
                                None => None,
                            };
                            match stub {
                                Some(v) => (
                                    Ok(Some(v)),
                                    Machine { stubbed: bump(m2.stubbed), after_call: None, ..m2 },
                                ),
                                None => (Err(Fault::CallNotModelled(target_text(target))), m2),
                            }
                        },
                    },
                    Some(blocks) => if depth + 1 > w.limit() {
                        (Err(Fault::CallDepthExceeded(w.limit() as usize, callee)), m1)
                    } else if !m1.regs.arch.contains_key("rsp"@) {
                        (Err(Fault::UndefinedVar("rsp"@)), m1)
                    } else {
                        let sp = pushed(m1.regs.arch["rsp"@], w.cfg.word_bits);
                        let entered = with_stack(entry_regs(m1.regs.arch), sp);
                        let m2 = store_of(
                            sp,
                            return_address(return_to, m1.calls) as u128,
                            w.cfg.word_bits,
                            m1,
                        );
                        match passed(w, args, args@.len(), va, depth, entered, m2) {
                            (Err(f), m3) => (Err(f), m3),
                            (Ok(regs), m3) => {
                                let (out, m4) = run_of(
                                    w,
                                    blocks,
                                    depth + 1,
                                    Machine { regs, calls: bump(m3.calls), ..m3 },
                                );
                                (out, Machine { regs: m3.regs, after_call: Some(m4.regs.arch), ..m4 })
                            },
                        }
                    },
                }
            },
        }
    }
}

// ---------------------------------------------------------------------------
// The meaning of blocks
// ---------------------------------------------------------------------------

/// How execution goes on after a statement.
pub ghost enum Flow {
    Next,
    Returned(Option<u64>),
    Failed(Fault),
}

/// The last block with this id.
pub open spec fn block_with_id(blocks: Seq<SsaBlock>, id: usize, k: int) -> Option<int>
    decreases k,
{
    if k <= 0 || k > blocks.len() {
        None
    } else if blocks[k - 1].id == id {
        Some(k - 1)
    } else {
        block_with_id(blocks, id, k - 1)
    }
}

/// The first block from index `k` on that starts at this address, by its id.
pub open spec fn id_at(blocks: Seq<SsaBlock>, va: Va, k: int) -> Option<usize>
    decreases blocks.len() - k,
{
    if k < 0 || k >= blocks.len() {
        None
    } else if blocks[k].start == va {
        Some(blocks[k].id)
    } else {
        id_at(blocks, va, k + 1)
    }
}

/// Where the first edge from index `k` on of one of two kinds leads.
pub open spec fn edge_of(edges: Seq<Successor>, a: Seq<char>, b: Seq<char>, k: int) -> Option<Va>
    decreases edges.len() - k,
{
    if k < 0 || k >= edges.len() {
        None
    } else if edges[k].kind@ == a || edges[k].kind@ == b {
        Some(edges[k].to)
    } else {
        edge_of(edges, a, b, k + 1)
    }
}

/// What a phi takes on the way from a block.
pub open spec fn input_of(inputs: Seq<PhiInput>, from: usize, k: int) -> Option<Seq<char>>
    decreases inputs.len() - k,
{
    if k < 0 || k >= inputs.len() {
        None
    } else if inputs[k].from_block == from {
        Some(inputs[k].value@)
    } else {
        input_of(inputs, from, k + 1)
    }
}

/// What the first `k` phis take, all read before any is written. One that takes
/// an undefined variable takes nothing.
pub open spec fn phis_read<C>(
    w: World<C>,
    phis: Seq<Phi>,
    k: int,
    from: usize,
    m: Machine,
) -> (Result<Seq<Option<u128>>, Fault>, Machine)
    decreases k,
{
    if k <= 0 {
        (Ok(Seq::empty()), m)
    } else {
        match phis_read(w, phis, k - 1, from, m) {
            (Ok(done), m1) => match input_of(phis[k - 1].inputs@, from, 0) {
                None => (Err(Fault::UndefinedVar(phis[k - 1].dst@)), m1),
                Some(name) => match var_of(w, name, m1) {
                    (Ok(v), m2) => (Ok(done.push(Some(v))), m2),
                    (Err(_), m2) => (Ok(done.push(None)), m2),
                },
            },
            (Err(f), m1) => (Err(f), m1),
        }
    }
}

/// The registers after the first `k` phis have been written.
pub open spec fn phis_written(phis: Seq<Phi>, vals: Seq<Option<u128>>, k: int, r: Regs) -> Regs
    decreases k,
{
    if k <= 0 {
        r
    } else {
        let done = phis_written(phis, vals, k - 1, r);
        match vals[k - 1] {
            Some(v) => done.set(phis[k - 1].dst@, v),
            None => done.clear(phis[k - 1].dst@),
        }
    }
}

/// The entry into a block.
pub open spec fn enter_of<C>(
    w: World<C>,
    b: SsaBlock,
    prev: Option<usize>,
    m: Machine,
) -> (Result<(), Fault>, Machine) {
    if b.phis@.len() == 0 {
        (Ok(()), m)
    } else {
        match prev {
            None => (Err(Fault::NoEntry), m),
            Some(from) => match phis_read(w, b.phis@, b.phis@.len() as int, from, m) {
                (Err(f), m1) => (Err(f), m1),
                (Ok(vals), m1) => (
                    Ok(()),
                    Machine { regs: phis_written(b.phis@, vals, b.phis@.len() as int, m1.regs), ..m1 },
                ),
            },
        }
    }
}

/// The first address above `va` of a statement from index `k` on.
pub open spec fn later_va(stmts: Seq<SsaStmt>, va: Va, k: int) -> Option<Va>
    decreases stmts.len() - k,
{
    if k < 0 || k >= stmts.len() {
        None
    } else if stmts[k].va.0 > va.0 {
        Some(stmts[k].va)
    } else {
        later_va(stmts, va, k + 1)
    }
}

/// Where a call at statement `i` returns to: the next instruction, or where the
/// block falls through to.
pub open spec fn return_of(b: SsaBlock, i: int) -> Option<Va> {
    match later_va(b.stmts@, b.stmts@[i].va, i + 1) {
        Some(v) => Some(v),
        None => edge_of(b.successors@, "fall"@, "fall"@, 0),
    }
}

/// The marker that a call leaves in a register it may destroy.
pub open spec fn is_clobber(e: MicroExpr) -> bool {
    e matches MicroExpr::Unknown(s) && s@ == CALL_CLOBBER@
}

/// An assignment. A clobbered register holds what the last callee left in it.
/// Flags are no number: what they are assigned to is left undefined.
pub open spec fn assign_of<C: CodeProvider>(
    w: World<C>,
    dst: Seq<char>,
    value: MicroExpr,
    va: Va,
    depth: nat,
    m: Machine,
) -> (Flow, Machine)
    decreases w.limit() - depth, 1nat, 0nat,
{
    if is_clobber(value) {
        let left = match m.after_call {
            Some(r) => if r.contains_key(root_name(dst)) {
                Some(r[root_name(dst)])
            } else {
                None
            },
            None => None,
        };
        match left {
            Some(v) => (Flow::Next, Machine { regs: m.regs.set(dst, v), ..m }),
            None => (Flow::Next, Machine { regs: m.regs.clear(dst), ..m }),
        }
    } else if root_name(dst) == FLAGS_VAR@ {
        (Flow::Next, Machine { regs: m.regs.clear(dst), ..m })
    } else {
        match eval_of(w, value, va, depth, m) {
            (Ok(v), m1) => (Flow::Next, Machine { regs: m1.regs.set(dst, v), ..m1 }),
            (Err(f), m1) => if f is OpaqueFlags {
                (Flow::Next, Machine { regs: m1.regs.clear(dst), ..m1 })
            } else {
                (Flow::Failed(f), m1)
            },
        }
    }
}

/// One statement.
pub open spec fn stmt_of<C: CodeProvider>(
    w: World<C>,
    b: SsaBlock,
    i: int,
    depth: nat,
    m: Machine,
) -> (Flow, Machine)
    decreases w.limit() - depth, 1nat, 1nat,
{
    let va = b.stmts@[i].va;
    match b.stmts@[i].stmt {
        MicroStmt::Assign { dst, value } => assign_of(w, dst@, value, va, depth, m),
        MicroStmt::Store { addr, value, bits } => if bits > WORD_BITS {
            (Flow::Failed(Fault::WidthNotModelled(bits)), m)
        } else {
            match eval_of(w, addr, va, depth, m) {
                (Err(f), m1) => (Flow::Failed(f), m1),
                (Ok(a), m1) => match eval_of(w, value, va, depth, m1) {
                    (Err(f), m2) => (Flow::Failed(f), m2),
                    (Ok(v), m2) => (Flow::Next, store_of(low64(a), v, bits, m2)),
                },
            }
        },
        MicroStmt::Call { target, args, ret } => match call_of(w, target, args, va, return_of(b, i), depth, m) {
            (Err(f), m1) => (Flow::Failed(f), m1),
            (Ok(out), m1) => match ret {
                None => (Flow::Next, m1),
                Some(name) => match out {
                    Some(v) => (Flow::Next, Machine { regs: m1.regs.set(name@, v as u128), ..m1 }),
                    None => (Flow::Next, Machine { regs: m1.regs.clear(name@), ..m1 }),
                },
            },
        },
        MicroStmt::Return(None) => (Flow::Returned(None), m),
        MicroStmt::Return(Some(e)) => match eval_of(w, e, va, depth, m) {
            (Err(f), m1) => (Flow::Failed(f), m1),
            (Ok(v), m1) => (Flow::Returned(Some(low64(v))), m1),
        },
        MicroStmt::Nop => (Flow::Next, m),
        MicroStmt::Unlifted { va, text } => (Flow::Failed(Fault::Unlifted(va, text@)), m),
    }
}

/// The statements of a block from index `i` on. Each counts as a step.
pub open spec fn stmts_of<C: CodeProvider>(
    w: World<C>,
    b: SsaBlock,
    i: int,
    depth: nat,
    m: Machine,
) -> (Flow, Machine)
    decreases w.limit() - depth, 1nat, 2 + b.stmts@.len() - i,
{
    if i < 0 || i >= b.stmts@.len() {
        (Flow::Next, m)
    } else {
        let m1 = Machine { steps: bump(m.steps), ..m };
        if m.steps >= w.cfg.max_steps {
            (Flow::Failed(Fault::StepLimit(w.cfg.max_steps)), m1)
        } else {
            match stmt_of(w, b, i, depth, m1) {
                (Flow::Next, m2) => stmts_of(w, b, i + 1, depth, m2),
                (flow, m2) => (flow, m2),
            }
        }
    }
}

pub open spec fn stuck(b: SsaBlock) -> Fault {
    Fault::NoSuccessor(b.id, b.terminator@)
}

/// The block at the end of an edge.
pub open spec fn follow(blocks: Seq<SsaBlock>, b: SsaBlock, edge: Option<Va>) -> Result<usize, Fault> {
    match edge {
        None => Err(stuck(b)),
        Some(va) => match id_at(blocks, va, 0) {
            Some(id) => Ok(id),
            None => Err(stuck(b)),
        },
    }
}

/// What the last of the first `k` statements that sets the target of an
/// indirect jump sets it to.
pub open spec fn jump_value(stmts: Seq<SsaStmt>, k: int) -> Option<MicroExpr>
    decreases k,
{
    if k <= 0 {
        None
    } else {
        match stmts[k - 1].stmt {
            MicroStmt::Assign { dst, value } => if root_name(dst@) == JUMP_TARGET_VAR@ {
                Some(value)
            } else {
                jump_value(stmts, k - 1)
            },
            _ => jump_value(stmts, k - 1),
        }
    }
}

/// Some edge leads to the address.
pub open spec fn recorded(edges: Seq<Successor>, to: u64) -> bool {
    exists|k: int| 0 <= k < edges.len() && (#[trigger] edges[k]).to.0 == to
}

/// Where an indirect jump to `to` goes. The address that the machine computes
/// is held against the edges.
pub open spec fn jump_of(blocks: Seq<SsaBlock>, b: SsaBlock, to: u64) -> Result<usize, Fault> {
    if b.successors@.len() == 0 {
        Err(Fault::UnresolvedJump(b.id, to))
    } else if !recorded(b.successors@, to) {
        Err(Fault::UnrecordedJump(b.id, to))
    } else {
        match id_at(blocks, Va(to), 0) {
            Some(id) => Ok(id),
            None => Err(Fault::JumpToNonLeader(b.id, to)),
        }
    }
}

/// The block that runs next.
pub open spec fn successor_of<C: CodeProvider>(
    w: World<C>,
    blocks: Seq<SsaBlock>,
    b: SsaBlock,
    depth: nat,
    m: Machine,
) -> (Result<usize, Fault>, Machine)
    decreases w.limit() - depth, 1nat, 0nat,
{
    if b.terminator@ == "cjmp"@ {
        match b.condition {
            None => (Err(Fault::NoCondition(b.id)), m),
            Some(c) => match eval_of(w, c, b.end, depth, m) {
                (Err(f), m1) => (Err(f), m1),
                (Ok(v), m1) => if v != 0 {
                    (follow(blocks, b, edge_of(b.successors@, "cjmp-true"@, "cjmp-true"@, 0)), m1)
                } else {
                    (follow(blocks, b, edge_of(b.successors@, "cjmp-false"@, "cjmp-false"@, 0)), m1)
                },
            },
        }
    } else if b.terminator@ == "ijmp"@ {
        match jump_value(b.stmts@, b.stmts@.len() as int) {
            None => (Err(stuck(b)), m),
            Some(e) => match eval_of(w, e, b.end, depth, m) {
                (Err(f), m1) => (Err(f), m1),
                (Ok(v), m1) => (jump_of(blocks, b, low64(v)), m1),
            },
        }
    } else if b.terminator@ == "fall"@ || b.terminator@ == "jmp"@ {
        (follow(blocks, b, edge_of(b.successors@, "fall"@, "jmp"@, 0)), m)
    } else {
        (Err(stuck(b)), m)
    }
}

/// Runs from the block at index `idx`, which is entered from the block `prev`,
/// through at most `fuel` blocks.
pub open spec fn run_from<C: CodeProvider>(
    w: World<C>,
    blocks: Seq<SsaBlock>,
    idx: int,
    prev: Option<usize>,
    depth: nat,
    fuel: nat,
    m: Machine,
) -> (Result<Option<u64>, Fault>, Machine)
    decreases w.limit() - depth, 2nat, fuel,
{
    if fuel == 0 {
        (Err(Fault::StepLimit(w.cfg.max_steps)), m)
    } else {
        let b = blocks[idx];
        match enter_of(w, b, prev, Machine { blocks: bump(m.blocks), ..m }) {
            (Err(f), m1) => (Err(f), m1),
            (Ok(_), m1) => match stmts_of(w, b, 0, depth, m1) {
                (Flow::Failed(f), m2) => (Err(f), m2),
                (Flow::Returned(v), m2) => (Ok(v), m2),
                (Flow::Next, m2) => match successor_of(w, blocks, b, depth, m2) {
                    (Err(f), m3) => (Err(f), m3),
                    (Ok(id), m3) => match block_with_id(blocks, id, blocks.len() as int) {
                        None => (Err(stuck(b)), m3),
                        Some(next) => run_from(w, blocks, next, Some(b.id), depth, (fuel - 1) as nat, m3),
                    },
                },
            },
        }
    }
}

/// How many blocks one activation enters at most. Only statements count as steps,
/// so a loop of blocks that hold none may run on for as long as it likes; this is
/// a number that no run reaches.
pub const MAX_ENTRIES: u128 = 340282366920938463463374607431768211455;

/// One activation: runs the blocks from the one with the id 0.
pub open spec fn run_of<C: CodeProvider>(
    w: World<C>,
    blocks: Seq<SsaBlock>,
    depth: nat,
    m: Machine,
) -> (Result<Option<u64>, Fault>, Machine)
    decreases w.limit() - depth, 3nat, 0nat,
{
    match block_with_id(blocks, 0, blocks.len() as int) {
        None => (Err(Fault::NoEntry), m),
        Some(idx) => run_from(w, blocks, idx, None, depth, MAX_ENTRIES as nat, m),
    }
}

// ---------------------------------------------------------------------------
// Registers
// ---------------------------------------------------------------------------

/// The registers of one activation.
pub struct Frame {
    pub vars: NameMap<u128>,
    pub arch: NameMap<u128>,
}

/// A register's name has no version.
pub open spec fn bare_names(m: Map<Seq<char>, u128>) -> bool {
    forall|k: Seq<char>| #[trigger] m.contains_key(k) ==> root_name(k) == k
}

proof fn lemma_root_root(n: Seq<char>)
    ensures
        root_name(root_name(n)) == root_name(n),
{
    lemma_first_take(n, '.', 0);
}

/// A text up to the first `c` holds no `c`.
proof fn lemma_first_take(s: Seq<char>, c: char, k: int)
    requires
        0 <= k <= s.len(),
    ensures
        match crate::text::first_from(s, c, k) {
            Some(i) => k <= i < s.len() && crate::text::first_from(s.take(i), c, k) is None,
            None => true,
        },
    decreases s.len() - k,
{
    if k < s.len() && s[k] != c {
        lemma_first_take(s, c, k + 1);
        match crate::text::first_from(s, c, k + 1) {
            Some(i) => {
                assert(s.take(i)[k] == s[k]);
            },
            None => {},
        }
    }
}

fn entry_of(name: &str) -> (r: String)
    ensures
        r@ == entry_name(name@),
{
    String::from_str(name).concat(".0")
}

impl Frame {
    pub open spec fn wf(&self) -> bool {
        self.vars.wf() && self.arch.wf() && bare_names(self.arch.map())
    }

    pub open spec fn regs(&self) -> Regs {
        Regs { vars: self.vars.map(), arch: self.arch.map() }
    }

    pub fn new() -> (r: Frame)
        ensures
            r.wf(),
            r.regs() == (Regs { vars: Map::empty(), arch: Map::empty() }),
    {
        Frame { vars: SortedMap::new(), arch: SortedMap::new() }
    }

    /// The name and its register take the value.
    pub fn set(&mut self, name: &str, value: u128)
        requires
            old(self).wf(),
        ensures
            final(self).wf(),
            final(self).regs() == old(self).regs().set(name@, value),
    {
        let base = before_dot(name);
        self.arch.insert(String::from_str(base), value);
        self.vars.insert(String::from_str(name), value);
        proof {
            lemma_root_root(name@);
        }
    }

    /// The name and its register lose their value.
    pub fn clear(&mut self, name: &str)
        requires
            old(self).wf(),
        ensures
            final(self).wf(),
            final(self).regs() == old(self).regs().clear(name@),
    {
        let base = String::from_str(before_dot(name));
        self.arch.remove(&base);
        let key = String::from_str(name);
        self.vars.remove(&key);
    }

    pub fn get(&self, name: &String) -> (r: Option<u128>)
        requires
            self.wf(),
        ensures
            match r {
                Some(v) => self.regs().vars.contains_key(name@) && self.regs().vars[name@] == v,
                None => !self.regs().vars.contains_key(name@),
            },
    {
        match self.vars.get(name) {
            Some(v) => Some(*v),
            None => None,
        }
    }

    /// The name, its register and its entry version take the value where they
    /// hold none.
    pub fn seed(&mut self, name: &str, value: u128)
        requires
            old(self).wf(),
        ensures
            final(self).wf(),
            final(self).regs() == old(self).regs().seed(name@, value),
    {
        let key = String::from_str(name);
        if self.get(&key).is_none() {
            self.set(name, value);
        }
        let entry = entry_of(name);
        if self.get(&entry).is_none() {
            self.vars.insert(entry, value);
        }
    }

    /// The name, its register and its entry version take the value.
    pub fn enter(&mut self, name: &str, value: u128)
        requires
            old(self).wf(),
        ensures
            final(self).wf(),
            final(self).regs() == old(self).regs().enter(name@, value),
    {
        self.set(name, value);
        let entry = entry_of(name);
        self.vars.insert(entry, value);
    }

    /// The registers with which a callee of this activation is entered.
    fn for_callee(&self) -> (r: Frame)
        requires
            self.wf(),
        ensures
            r.wf(),
            r.regs() == entry_regs(self.regs().arch),
    {
        let mut out = Frame::new();
        let mut k: usize = 0;
        let ghost arch = self.arch.map();
        let keys = &self.arch.keys;
        let vals = &self.arch.vals;
        let ghost done = Set::<Seq<char>>::empty();
        proof {
            reveal_strlit(".0");
        }
        while k < keys.len()
            invariant
                self.wf(),
                keys@ == self.arch.keys@,
                vals@ == self.arch.vals@,
                arch == self.arch.map(),
                k <= keys@.len(),
                out.wf(),
                ".0"@.len() == 2,
                forall|i: int| 0 <= i < k ==> done.contains((#[trigger] keys@[i])@),
                forall|n: Seq<char>| #[trigger] done.contains(n) ==> arch.contains_key(n),
                forall|n: Seq<char>| #[trigger] out.regs().arch.contains_key(n) <==> done.contains(n),
                forall|n: Seq<char>| #[trigger] done.contains(n) ==> out.regs().arch[n] == arch[n],
                forall|n: Seq<char>| #[trigger]
                    out.regs().vars.contains_key(n) <==> done.contains(n) || (ends(n, ".0"@) && done.contains(
                        n.take(n.len() - 2),
                    )),
                forall|n: Seq<char>| #[trigger] done.contains(n) ==> out.regs().vars[n] == arch[n],
                forall|n: Seq<char>|
                    ends(n, ".0"@) && done.contains(#[trigger] n.take(n.len() - 2)) ==> out.regs().vars[n]
                        == arch[n.take(n.len() - 2)],
            decreases keys@.len() - k,
        {
            let v: u128 = vals[k];
            let name = keys[k].as_str();
            let ghost before = out.regs();
            let ghost done0 = done;
            out.enter(name, v);
            proof {
                lemma_map_at(&self.arch, k as int);
                let n = keys@[k as int]@;
                assert(arch.contains_key(n));
                assert(root_name(n) == n);
                done = done.insert(n);
                let entry = entry_name(n);
                assert(entry.take(entry.len() - 2) =~= n);
                assert(ends(entry, ".0"@)) by {
                    assert(entry.subrange(entry.len() - 2, entry.len() as int) =~= ".0"@);
                }
                lemma_entry_is_versioned(n);
                assert forall|x: Seq<char>| #[trigger]
                    out.regs().vars.contains_key(x) <==> done.contains(x) || (ends(x, ".0"@) && done.contains(
                        x.take(x.len() - 2),
                    )) by {
                    lemma_entry_shape(x, n);
                    assert(out.regs().vars.contains_key(x) <==> before.vars.contains_key(x) || x == n || x == entry);
                }
                assert forall|x: Seq<char>| #[trigger] done.contains(x) implies out.regs().vars[x] == arch[x] by {
                    if x == entry {
                        assert(arch.contains_key(entry));
                        assert(root_name(entry) == entry);
                    }
                }
                assert forall|x: Seq<char>|
                    ends(x, ".0"@) && done.contains(#[trigger] x.take(x.len() - 2)) implies out.regs().vars[x]
                    == arch[x.take(x.len() - 2)] by {
                    lemma_entry_shape(x, n);
                    if x.take(x.len() - 2) == n {
                        assert(x == entry);
                    } else {
                        assert(x != entry);
                        if x == n {
                            lemma_entry_shape(x, x.take(x.len() - 2));
                            lemma_entry_is_versioned(x.take(x.len() - 2));
                            assert(arch.contains_key(x));
                        }
                        assert(done0.contains(x.take(x.len() - 2)));
                    }
                }
            }
            k = k + 1;
        }
        proof {
            let want = entry_regs(arch);
            assert forall|n: Seq<char>| arch.contains_key(n) implies done.contains(n) by {
                let i = crate::sorted::index_of_model(self.arch.keys@, n);
                assert(self.arch.keys@[i]@ == n);
                assert(done.contains(keys@[i]@));
            }
            assert(out.regs().arch =~= arch);
            assert forall|x: Seq<char>| #[trigger] want.vars.contains_key(x) implies out.regs().vars[x] == want.vars[x] by {
                if arch.contains_key(x) {
                    assert(done.contains(x));
                } else {
                    assert(done.contains(x.take(x.len() - 2)));
                }
            }
            assert(out.regs().vars =~= want.vars);
        }
        out
    }
}

/// The entry version of a name is not the name of a register.
proof fn lemma_entry_is_versioned(n: Seq<char>)
    requires
        root_name(n) == n,
    ensures
        root_name(entry_name(n)) != entry_name(n),
{
    reveal_strlit(".0");
    let e = entry_name(n);
    assert(e[n.len() as int] == '.');
    lemma_first_exists(e, '.', n.len() as int, 0);
}

proof fn lemma_first_exists(s: Seq<char>, c: char, at: int, k: int)
    requires
        0 <= k <= at < s.len(),
        s[at] == c,
    ensures
        crate::text::first_from(s, c, k) matches Some(i) && k <= i <= at,
    decreases at - k,
{
    if s[k] != c {
        lemma_first_exists(s, c, at, k + 1);
    }
}

/// A text is the entry version of `n` exactly if it ends so and starts so.
proof fn lemma_entry_shape(x: Seq<char>, n: Seq<char>)
    ensures
        (ends(x, ".0"@) && x.take(x.len() - 2) == n) <==> x == entry_name(n),
{
    reveal_strlit(".0");
    let e = entry_name(n);
    assert(e.take(e.len() - 2) =~= n);
    assert(e.subrange(e.len() - 2, e.len() as int) =~= ".0"@);
    if ends(x, ".0"@) && x.take(x.len() - 2) == n {
        assert(x =~= x.take(x.len() - 2) + x.subrange(x.len() - 2, x.len() as int));
    }
}

// ---------------------------------------------------------------------------
// The run
// ---------------------------------------------------------------------------

/// What a run can look at and does not change.
pub struct Setup<'a, C> {
    pub cfg: EmuConfig,
    pub backing: Option<&'a Snapshot>,
    pub code: Option<&'a C>,
    /// The registers that carry integer arguments, in order.
    pub arg_regs: Vec<String>,
    /// The known results of floating-point operations.
    pub facts: Vec<FloatFact>,
}

impl<'a, C: CodeProvider> Setup<'a, C> {
    pub open spec fn wf(&self) -> bool {
        self.code matches Some(c) ==> c.wf()
    }

    pub open spec fn world(&self) -> World<C> {
        World {
            cfg: self.cfg,
            backing: image(self.backing),
            code: match self.code {
                Some(c) => Some(*c),
                None => None,
            },
            arg_regs: text_list(self.arg_regs@),
            facts: self.facts@,
        }
    }
}

/// What a run changes, besides registers.
pub struct State {
    pub mem: Memory,
    pub invented: Vec<String>,
    pub steps: usize,
    pub blocks_entered: usize,
    pub calls: usize,
    pub stubbed: usize,
    pub after_call: Option<NameMap<u128>>,
}

impl State {
    pub open spec fn wf(&self) -> bool {
        self.after_call matches Some(m) ==> m.wf()
    }
}

pub open spec fn machine(st: State, fr: Frame) -> Machine {
    Machine {
        regs: fr.regs(),
        written: st.mem.written@,
        touched: st.mem.touched@,
        invented: text_list(st.invented@),
        steps: st.steps,
        blocks: st.blocks_entered,
        calls: st.calls,
        stubbed: st.stubbed,
        after_call: match st.after_call {
            Some(m) => Some(m.map()),
            None => None,
        },
    }
}

fn count(n: usize) -> (r: usize)
    ensures
        r == bump(n),
{
    if n < usize::MAX {
        n + 1
    } else {
        n
    }
}

/// Is this the version with which the function was entered?
pub fn is_entry_version(name: &str) -> (r: bool)
    ensures
        r == is_entry(name@),
{
    match split_last(name, '.') {
        Some((_, v)) => same(v, "0"),
        None => true,
    }
}

/// The value that stands for a register that holds just anything. It follows
/// from the name, and is too large to be taken for an ordinary result.
pub fn scratch_value(name: &str) -> (r: u128)
    ensures
        r == scratch_of(name@),
{
    let b = name.as_bytes();
    let mut h: u64 = 0xcbf2_9ce4_8422_2325;
    let mut k: usize = 0;
    while k < b.len()
        invariant
            k <= b@.len(),
            h == hash_of(b@, k as int),
        decreases b@.len() - k,
    {
        let x: u64 = h ^ (b[k] as u64);
        proof {
            assert(x * 0x1000_0000_01b3 <= u128::MAX) by (nonlinear_arith)
                requires
                    0 <= x <= u64::MAX,
            ;
        }
        h = ((x as u128 * 0x1000_0000_01b3) % WORD) as u64;
        k = k + 1;
    }
    (0xA5A5_0000_0000_0000 + h % 0x1_0000_0000_0000) as u128
}

/// How the callee of a call is described.
pub fn describe_target(t: &CallTarget) -> (r: String)
    ensures
        r@ == target_text(*t),
{
    match t {
        CallTarget::Direct { va } => va.to_text(),
        CallTarget::Indirect(_) => String::from_str("an indirect target"),
        CallTarget::Intrinsic(n) => String::from_str("intrinsic `").concat(n.as_str()).concat("`"),
    }
}

fn flag(b: bool) -> (r: u64)
    ensures
        r == truth(b),
{
    if b {
        1
    } else {
        0
    }
}

/// Orders two words as signed numbers.
fn signed_less(a: u64, b: u64) -> (r: bool)
    ensures
        r == (sgn(a) < sgn(b)),
{
    proof {
        crate::bits::lemma_pow2_values();
        vstd::arithmetic::div_mod::lemma_small_mod(a as nat, WORD as nat);
        vstd::arithmetic::div_mod::lemma_small_mod(b as nat, WORD as nat);
    }
    let na: bool = a >= 0x8000_0000_0000_0000;
    let nb: bool = b >= 0x8000_0000_0000_0000;
    if na == nb {
        a < b
    } else {
        na
    }
}

proof fn lemma_sgn(a: u64)
    ensures
        sgn(a) == if a >= 0x8000_0000_0000_0000 {
            a - WORD
        } else {
            a as int
        },
{
    crate::bits::lemma_pow2_values();
    vstd::arithmetic::div_mod::lemma_small_mod(a as nat, WORD as nat);
}

fn divide_signed(a: u64, b: u64) -> (r: (u64, u64))
    requires
        b != 0,
    ensures
        r.0 == word_of(quotient(sgn(a), sgn(b))),
        r.1 == word_of(remainder(sgn(a), sgn(b))),
{
    let x = read_signed(a as u128, 64);
    let y = read_signed(b as u128, 64);
    proof {
        lemma_sgn(b);
    }
    let (q, m) = divide(x, y);
    (to_word(q), to_word(m))
}

/// An operation on two words; `None` where it divides by zero.
pub fn binop(op: BinOp, a: u64, b: u64) -> (r: Option<u64>)
    ensures
        r == binop_of(op, a, b),
{
    proof {
        crate::bits::lemma_pow2_values();
    }
    match op {
        BinOp::Add => Some(((a as u128 + b as u128) % WORD) as u64),
        BinOp::Sub => {
            proof {
                if a < b {
                    vstd::arithmetic::div_mod::lemma_fundamental_div_mod_converse(
                        a - b,
                        WORD as int,
                        -1,
                        a - b + WORD,
                    );
                } else {
                    vstd::arithmetic::div_mod::lemma_small_mod((a - b) as nat, WORD as nat);
                }
            }
            if a >= b {
                Some(a - b)
            } else {
                Some((a as u128 + (WORD - b as u128)) as u64)
            }
        },
        BinOp::Mul => {
            proof {
                assert(a * b <= (WORD - 1) * (WORD - 1)) by (nonlinear_arith)
                    requires
                        0 <= a <= WORD - 1,
                        0 <= b <= WORD - 1,
                ;
            }
            Some(((a as u128 * b as u128) % WORD) as u64)
        },
        BinOp::UDiv => {
            if b == 0 {
                None
            } else {
                Some(a / b)
            }
        },
        BinOp::SDiv => {
            if b == 0 {
                None
            } else {
                Some(divide_signed(a, b).0)
            }
        },
        BinOp::UMod => {
            if b == 0 {
                None
            } else {
                Some(a % b)
            }
        },
        BinOp::SMod => {
            if b == 0 {
                None
            } else {
                Some(divide_signed(a, b).1)
            }
        },
        BinOp::And => Some(a & b),
        BinOp::Or => Some(a | b),
        BinOp::Xor => Some(a ^ b),
        BinOp::Shl => {
            if b >= 64 {
                Some(0)
            } else {
                Some(shl(a as u128, b as u32, 64) as u64)
            }
        },
        BinOp::Shr => {
            if b >= 64 {
                Some(0)
            } else {
                proof {
                    vstd::arithmetic::power2::lemma_pow2_pos(b as nat);
                    crate::bits::lemma_quotient_le(a as int, pow2(b as nat) as int);
                }
                Some((a as u128 / crate::bits::two_to(b as u32)) as u64)
            }
        },
        BinOp::Sar => {
            let n: u32 = if b < 63 {
                b as u32
            } else {
                63
            };
            Some(sar(a as u128, n, 64) as u64)
        },
        BinOp::Eq => Some(flag(a == b)),
        BinOp::Ne => Some(flag(a != b)),
        BinOp::Ult => Some(flag(a < b)),
        BinOp::Ule => Some(flag(a <= b)),
        BinOp::Ugt => Some(flag(a > b)),
        BinOp::Uge => Some(flag(a >= b)),
        BinOp::Slt => Some(flag(signed_less(a, b))),
        BinOp::Sle => Some(flag(!signed_less(b, a))),
        BinOp::Sgt => Some(flag(signed_less(b, a))),
        BinOp::Sge => Some(flag(!signed_less(a, b))),
    }
}

fn binary(op: BinOp, a: u128, b: u128, va: Va) -> (r: Result<u128, EmuError>)
    ensures
        seen(r) == binary_value(op, a, b, va),
{
    match op {
        BinOp::And => Ok(a & b),
        BinOp::Or => Ok(a | b),
        BinOp::Xor => Ok(a ^ b),
        _ => match binop(op, cut64(a), cut64(b)) {
            Some(v) => Ok(v as u128),
            None => Err(EmuError::DivideByZero(va)),
        },
    }
}

fn unary(op: UnOp, v: u128) -> (r: u128)
    ensures
        r == unary_value(op, v),
{
    match op {
        UnOp::Neg => {
            if v == 0 {
                assert((u128::MAX + 1) % (u128::MAX + 1) == 0);
                0
            } else {
                (u128::MAX - v) + 1
            }
        },
        UnOp::Not => u128::MAX - v,
    }
}

fn compare(kind: CmpKind, a: u128, b: u128) -> (r: u128)
    ensures
        r == compare_value(kind, a, b),
{
    match kind {
        CmpKind::Cmp => flag(a != b) as u128,
        CmpKind::Result => flag(a != b) as u128,
        CmpKind::Test => flag(a & b != 0) as u128,
        CmpKind::LogicalResult => flag(a & b != 0) as u128,
    }
}

proof fn lemma_text_push(v: Seq<String>, s: String)
    ensures
        text_list(v.push(s)) == text_list(v).push(s@),
{
    assert(text_list(v.push(s)) =~= text_list(v).push(s@));
}

fn read_var<'a, C: CodeProvider>(w: &Setup<'a, C>, name: &String, st: &mut State, fr: &mut Frame) -> (r: Result<
    u128,
    EmuError,
>)
    requires
        old(st).wf(),
        old(fr).wf(),
    ensures
        final(st).wf(),
        final(fr).wf(),
        (seen(r), machine(*final(st), *final(fr))) == var_of(w.world(), name@, machine(*old(st), *old(fr))),
{
    match fr.get(name) {
        Some(v) => Ok(v),
        None => {
            if w.cfg.entry_scratch && is_entry_version(name.as_str()) {
                let v: u128 = scratch_value(name.as_str());
                fr.set(name.as_str(), v);
                proof {
                    lemma_text_push(st.invented@, *name);
                }
                st.invented.push(name.clone());
                Ok(v)
            } else {
                Err(EmuError::UndefinedVar(name.clone()))
            }
        },
    }
}

fn load<'a, C: CodeProvider>(w: &Setup<'a, C>, addr: u64, bits: u32, st: &mut State, fr: &Frame) -> (r: Result<
    u128,
    EmuError,
>)
    requires
        old(st).wf(),
    ensures
        final(st).wf(),
        (seen(r), machine(*final(st), *fr)) == load_of(w.world(), addr, bits, machine(*old(st), *fr)),
{
    if bits > WORD_BITS {
        return Err(EmuError::WidthNotModelled { bits });
    }
    match st.mem.read(w.backing, addr, bits) {
        Some(v) => Ok(v),
        None => Err(EmuError::UnreadableMemory { addr, bytes: bits }),
    }
}

fn store(addr: u64, v: u128, bits: u32, st: &mut State, fr: &Frame)
    requires
        old(st).wf(),
    ensures
        final(st).wf(),
        machine(*final(st), *fr) == store_of(addr, v, bits, machine(*old(st), *fr)),
{
    st.mem.write(addr, v, bits);
}

fn to_value(a: Answer, name: &String, va: Va) -> (r: Result<u128, EmuError>)
    ensures
        seen(r) == answer_of(a, name@, va),
{
    match a {
        Answer::Value(v) => Ok(v),
        Answer::Gap => Err(EmuError::IntrinsicNotModelled(name.clone())),
        Answer::Trap => Err(EmuError::DivideByZero(va)),
        Answer::Unknown(c) => Err(EmuError::FloatNotGiven(c)),
    }
}

/// The value of an expression.
fn eval<'a, C: CodeProvider>(
    w: &Setup<'a, C>,
    e: &MicroExpr,
    va: Va,
    depth: usize,
    st: &mut State,
    fr: &mut Frame,
) -> (r: Result<u128, EmuError>)
    requires
        w.wf(),
        old(st).wf(),
        old(fr).wf(),
    ensures
        final(st).wf(),
        final(fr).wf(),
        (seen(r), machine(*final(st), *final(fr))) == eval_of(
            w.world(),
            *e,
            va,
            depth as nat,
            machine(*old(st), *old(fr)),
        ),
    decreases w.world().limit() - depth, 0nat, weight(*e),
{
    match e {
        MicroExpr::Const { value, bits } => Ok(extend(signed_bits(*value), *bits, false)),
        MicroExpr::Var(name) => read_var(w, name, st, fr),
        MicroExpr::Load { addr, bits, signed } => match eval(w, addr, va, depth, st, fr) {
            Ok(a) => match load(w, cut64(a), *bits, st, fr) {
                Ok(v) => Ok(extend(v, *bits, *signed)),
                Err(x) => Err(x),
            },
            Err(x) => Err(x),
        },
        MicroExpr::Unary(op, v) => match eval(w, v, va, depth, st, fr) {
            Ok(a) => Ok(unary(*op, a)),
            Err(x) => Err(x),
        },
        MicroExpr::Binary(op, l, r) => match eval(w, l, va, depth, st, fr) {
            Ok(a) => match eval(w, r, va, depth, st, fr) {
                Ok(b) => binary(*op, a, b, va),
                Err(x) => Err(x),
            },
            Err(x) => Err(x),
        },
        MicroExpr::Cast { signed, bits, expr } => match eval(w, expr, va, depth, st, fr) {
            Ok(a) => Ok(extend(a, *bits, *signed)),
            Err(x) => Err(x),
        },
        MicroExpr::AddrOf(v) => eval(w, v, va, depth, st, fr),
        MicroExpr::Compare { kind, lhs, rhs } => match eval(w, lhs, va, depth, st, fr) {
            Ok(a) => match eval(w, rhs, va, depth, st, fr) {
                Ok(b) => Ok(compare(*kind, a, b)),
                Err(x) => Err(x),
            },
            Err(x) => Err(x),
        },
        MicroExpr::OpaqueFlags { mnemonic } => Err(EmuError::OpaqueFlags(mnemonic.clone())),
        MicroExpr::Call { target, args } => match target {
            CallTarget::Intrinsic(name) => match eval_args(w, args, args.len(), va, depth, st, fr) {
                Ok(vals) => to_value(
                    intrinsic(&w.facts, name.as_str(), &vals, w.cfg.fs_base, w.cfg.gs_base),
                    name,
                    va,
                ),
                Err(x) => Err(x),
            },
            _ => match call(w, target, args, va, None, depth, st, fr) {
                Ok(Some(v)) => Ok(v as u128),
                Ok(None) => Err(EmuError::CallNotModelled(describe_target(target))),
                Err(x) => Err(x),
            },
        },
        MicroExpr::Select { cond, a, b } => match eval(w, cond, va, depth, st, fr) {
            Ok(c) => {
                if c != 0 {
                    eval(w, a, va, depth, st, fr)
                } else {
                    eval(w, b, va, depth, st, fr)
                }
            },
            Err(x) => Err(x),
        },
        MicroExpr::Unknown(s) => Err(EmuError::UnknownExpr(s.clone())),
    }
}

pub open spec fn seen_vec<T>(r: Result<Vec<T>, EmuError>) -> Result<Seq<T>, Fault> {
    match r {
        Ok(v) => Ok(v@),
        Err(e) => Err(e.fault()),
    }
}

fn eval_args<'a, C: CodeProvider>(
    w: &Setup<'a, C>,
    args: &Vec<MicroExpr>,
    k: usize,
    va: Va,
    depth: usize,
    st: &mut State,
    fr: &mut Frame,
) -> (r: Result<Vec<u128>, EmuError>)
    requires
        w.wf(),
        k <= args@.len(),
        old(st).wf(),
        old(fr).wf(),
    ensures
        final(st).wf(),
        final(fr).wf(),
        (seen_vec(r), machine(*final(st), *final(fr))) == args_of(
            w.world(),
            *args,
            k as nat,
            va,
            depth as nat,
            machine(*old(st), *old(fr)),
        ),
    decreases w.world().limit() - depth, 0nat, list_weight(*args, k as nat),
{
    if k == 0 {
        let none: Vec<u128> = Vec::new();
        assert(none@ =~= Seq::<u128>::empty());
        return Ok(none);
    }
    match eval_args(w, args, k - 1, va, depth, st, fr) {
        Ok(mut vals) => match eval(w, &args[k - 1], va, depth, st, fr) {
            Ok(v) => {
                vals.push(v);
                Ok(vals)
            },
            Err(x) => Err(x),
        },
        Err(x) => Err(x),
    }
}

fn is_asking(e: &EmuError) -> (r: bool)
    ensures
        r == asks(e.fault()),
{
    match e {
        EmuError::FloatNotGiven(_) => true,
        _ => false,
    }
}

fn stub_args<'a, C: CodeProvider>(
    w: &Setup<'a, C>,
    args: &Vec<MicroExpr>,
    k: usize,
    va: Va,
    depth: usize,
    st: &mut State,
    fr: &mut Frame,
) -> (r: Result<Vec<Option<u64>>, EmuError>)
    requires
        w.wf(),
        k <= args@.len(),
        old(st).wf(),
        old(fr).wf(),
    ensures
        final(st).wf(),
        final(fr).wf(),
        (seen_vec(r), machine(*final(st), *final(fr))) == argv_of(
            w.world(),
            *args,
            k as nat,
            va,
            depth as nat,
            machine(*old(st), *old(fr)),
        ),
    decreases w.world().limit() - depth, 0nat, list_weight(*args, k as nat),
{
    if k == 0 {
        let none: Vec<Option<u64>> = Vec::new();
        assert(none@ =~= Seq::<Option<u64>>::empty());
        return Ok(none);
    }
    match stub_args(w, args, k - 1, va, depth, st, fr) {
        Ok(mut vals) => match eval(w, &args[k - 1], va, depth, st, fr) {
            Ok(v) => {
                vals.push(Some(cut64(v)));
                Ok(vals)
            },
            Err(x) => {
                if is_asking(&x) {
                    Err(x)
                } else {
                    vals.push(None);
                    Ok(vals)
                }
            },
        },
        Err(x) => Err(x),
    }
}

fn pass_args<'a, C: CodeProvider>(
    w: &Setup<'a, C>,
    args: &Vec<MicroExpr>,
    k: usize,
    va: Va,
    depth: usize,
    callee: &mut Frame,
    st: &mut State,
    fr: &mut Frame,
) -> (r: Result<(), EmuError>)
    requires
        w.wf(),
        k <= args@.len(),
        old(callee).wf(),
        old(st).wf(),
        old(fr).wf(),
    ensures
        final(callee).wf(),
        final(st).wf(),
        final(fr).wf(),
        ({
            let (out, m) = passed(
                w.world(),
                *args,
                k as nat,
                va,
                depth as nat,
                old(callee).regs(),
                machine(*old(st), *old(fr)),
            );
            &&& machine(*final(st), *final(fr)) == m
            &&& match r {
                Ok(_) => out == Ok::<Regs, Fault>(final(callee).regs()),
                Err(x) => out == Err::<Regs, Fault>(x.fault()),
            }
        }),
    decreases w.world().limit() - depth, 0nat, list_weight(*args, k as nat),
{
    if k == 0 {
        return Ok(());
    }
    match pass_args(w, args, k - 1, va, depth, callee, st, fr) {
        Ok(_) => {
            if k > w.arg_regs.len() {
                return Ok(());
            }
            match eval(w, &args[k - 1], va, depth, st, fr) {
                Ok(v) => {
                    callee.enter(w.arg_regs[k - 1].as_str(), v);
                    Ok(())
                },
                Err(x) => {
                    if is_asking(&x) {
                        Err(x)
                    } else {
                        Ok(())
                    }
                },
            }
        },
        Err(x) => Err(x),
    }
}

fn find_callee<'a, C: CodeProvider>(
    w: &Setup<'a, C>,
    target: &CallTarget,
    va: Va,
    depth: usize,
    st: &mut State,
    fr: &mut Frame,
) -> (r: Result<Va, EmuError>)
    requires
        w.wf(),
        old(st).wf(),
        old(fr).wf(),
    ensures
        final(st).wf(),
        final(fr).wf(),
        (seen(r), machine(*final(st), *final(fr))) == callee_of(
            w.world(),
            *target,
            va,
            depth as nat,
            machine(*old(st), *old(fr)),
        ),
    decreases w.world().limit() - depth, 0nat, target_weight(*target),
{
    match target {
        CallTarget::Direct { va } => Ok(*va),
        CallTarget::Indirect(e) => match eval(w, e, va, depth, st, fr) {
            Ok(v) => Ok(Va(cut64(v))),
            Err(x) => Err(x),
        },
        CallTarget::Intrinsic(n) => Err(EmuError::IntrinsicNotModelled(n.clone())),
    }
}

/// Performs a call: finds the callee, sets up its registers and runs it.
fn call<'a, C: CodeProvider>(
    w: &Setup<'a, C>,
    target: &CallTarget,
    args: &Vec<MicroExpr>,
    va: Va,
    return_to: Option<Va>,
    depth: usize,
    st: &mut State,
    fr: &mut Frame,
) -> (r: Result<Option<u64>, EmuError>)
    requires
        w.wf(),
        old(st).wf(),
        old(fr).wf(),
    ensures
        final(st).wf(),
        final(fr).wf(),
        (seen(r), machine(*final(st), *final(fr))) == call_of(
            w.world(),
            *target,
            *args,
            va,
            return_to,
            depth as nat,
            machine(*old(st), *old(fr)),
        ),
    decreases
            w.world().limit() - depth,
            0nat,
            1 + target_weight(*target) + list_weight(*args, args@.len()),
{
    let max_depth: usize = match w.cfg.calls {
        CallPolicy::Refuse => {
            return Err(EmuError::CallNotModelled(describe_target(target)));
        },
        CallPolicy::Execute { max_depth } => max_depth,
    };
    let callee = match find_callee(w, target, va, depth, st, fr) {
        Ok(v) => v,
        Err(x) => {
            return Err(x);
        },
    };
    let body: Option<&[SsaBlock]> = match w.code {
        Some(c) => c.body(callee),
        None => None,
    };
    let blocks: &[SsaBlock] = match body {
        Some(b) => b,
        None => {
            let argv = match stub_args(w, args, args.len(), va, depth, st, fr) {
                Ok(v) => v,
                Err(x) => {
                    return Err(x);
                },
            };
            let stub: Option<u64> = match w.code {
                Some(c) => c.stub(callee, argv.as_slice()),
                None => None,
            };
            return match stub {
                Some(v) => {
                    st.stubbed = count(st.stubbed);
                    st.after_call = None;
                    Ok(Some(v))
                },
                None => Err(EmuError::CallNotModelled(describe_target(target))),
            };
        },
    };
    if depth >= max_depth {
        return Err(EmuError::CallDepthExceeded { limit: max_depth, va: callee });
    }
    let key = String::from_str("rsp");
    let old_sp: u128 = match fr.arch.get(&key) {
        Some(v) => *v,
        None => {
            return Err(EmuError::UndefinedVar(key));
        },
    };
    let mut inner = fr.for_callee();
    let size: u64 = (w.cfg.word_bits / 8) as u64;
    let low: u64 = cut64(old_sp);
    let sp: u64 = match binop(BinOp::Sub, low, size) {
        Some(v) => v,
        None => 0,
    };
    let ret: u64 = match return_to {
        Some(v) => v.0,
        None => RETURN_SENTINEL | (count(st.calls) as u64),
    };
    store(sp, ret as u128, w.cfg.word_bits, st, fr);
    inner.enter("rsp", sp as u128);
    inner.enter("esp", sp as u128);
    inner.enter("sp", sp as u128);
    match pass_args(w, args, args.len(), va, depth, &mut inner, st, fr) {
        Ok(_) => {},
        Err(x) => {
            return Err(x);
        },
    }
    st.calls = count(st.calls);
    let out = run_body(w, blocks, depth + 1, st, &mut inner);
    st.after_call = Some(inner.arch);
    out
}

fn find_block(blocks: &[SsaBlock], id: usize) -> (r: Option<usize>)
    ensures
        match (r, block_with_id(blocks@, id, blocks@.len() as int)) {
            (Some(i), Some(j)) => i == j && i < blocks@.len(),
            (None, None) => true,
            _ => false,
        },
{
    let mut k: usize = blocks.len();
    while k > 0
        invariant
            k <= blocks@.len(),
            block_with_id(blocks@, id, blocks@.len() as int) == block_with_id(blocks@, id, k as int),
        decreases k,
    {
        if blocks[k - 1].id == id {
            return Some(k - 1);
        }
        k = k - 1;
    }
    None
}

fn find_start(blocks: &[SsaBlock], va: Va) -> (r: Option<usize>)
    ensures
        r == id_at(blocks@, va, 0),
{
    let mut k: usize = 0;
    while k < blocks.len()
        invariant
            k <= blocks@.len(),
            id_at(blocks@, va, 0) == id_at(blocks@, va, k as int),
        decreases blocks@.len() - k,
    {
        if blocks[k].start == va {
            return Some(blocks[k].id);
        }
        k = k + 1;
    }
    None
}

fn find_edge(edges: &Vec<Successor>, a: &str, b: &str) -> (r: Option<Va>)
    ensures
        r == edge_of(edges@, a@, b@, 0),
{
    let mut k: usize = 0;
    while k < edges.len()
        invariant
            k <= edges@.len(),
            edge_of(edges@, a@, b@, 0) == edge_of(edges@, a@, b@, k as int),
        decreases edges@.len() - k,
    {
        let kind = edges[k].kind.as_str();
        if same(kind, a) || same(kind, b) {
            return Some(edges[k].to);
        }
        k = k + 1;
    }
    None
}

fn find_input(inputs: &Vec<PhiInput>, from: usize) -> (r: Option<usize>)
    ensures
        match (r, input_of(inputs@, from, 0)) {
            (Some(i), Some(name)) => i < inputs@.len() && inputs@[i as int].value@ == name,
            (None, None) => true,
            _ => false,
        },
{
    let mut k: usize = 0;
    while k < inputs.len()
        invariant
            k <= inputs@.len(),
            input_of(inputs@, from, 0) == input_of(inputs@, from, k as int),
        decreases inputs@.len() - k,
    {
        if inputs[k].from_block == from {
            return Some(k);
        }
        k = k + 1;
    }
    None
}

fn read_phis<'a, C: CodeProvider>(
    w: &Setup<'a, C>,
    phis: &Vec<Phi>,
    from: usize,
    st: &mut State,
    fr: &mut Frame,
) -> (r: Result<Vec<Option<u128>>, EmuError>)
    requires
        old(st).wf(),
        old(fr).wf(),
    ensures
        final(st).wf(),
        final(fr).wf(),
        r matches Ok(v) ==> v@.len() == phis@.len(),
        (seen_vec(r), machine(*final(st), *final(fr))) == phis_read(
            w.world(),
            phis@,
            phis@.len() as int,
            from,
            machine(*old(st), *old(fr)),
        ),
{
    let mut vals: Vec<Option<u128>> = Vec::new();
    let mut k: usize = 0;
    let ghost m0 = machine(*st, *fr);
    assert(vals@ =~= Seq::<Option<u128>>::empty());
    while k < phis.len()
        invariant
            k <= phis@.len(),
            st.wf(),
            fr.wf(),
            m0 == machine(*old(st), *old(fr)),
            vals@.len() == k,
            phis_read(w.world(), phis@, k as int, from, m0) == (
                Ok::<Seq<Option<u128>>, Fault>(vals@),
                machine(*st, *fr),
            ),
        decreases phis@.len() - k,
    {
        let phi = &phis[k];
        match find_input(&phi.inputs, from) {
            None => {
                proof {
                    lemma_phis_fail(w.world(), phis@, k + 1, phis@.len() as int, from, m0);
                }
                return Err(EmuError::UndefinedVar(phi.dst.clone()));
            },
            Some(i) => match read_var(w, &phi.inputs[i].value, st, fr) {
                Ok(v) => {
                    vals.push(Some(v));
                },
                Err(_) => {
                    vals.push(None);
                },
            },
        }
        k = k + 1;
    }
    Ok(vals)
}

proof fn lemma_phis_fail<C>(w: World<C>, phis: Seq<Phi>, i: int, k: int, from: usize, m: Machine)
    requires
        0 < i <= k,
        phis_read(w, phis, i, from, m).0 is Err,
    ensures
        phis_read(w, phis, k, from, m) == phis_read(w, phis, i, from, m),
    decreases k - i,
{
    if i < k {
        lemma_phis_fail(w, phis, i, k - 1, from, m);
    }
}

fn write_phis(phis: &Vec<Phi>, vals: &Vec<Option<u128>>, fr: &mut Frame)
    requires
        old(fr).wf(),
        vals@.len() == phis@.len(),
    ensures
        final(fr).wf(),
        final(fr).regs() == phis_written(phis@, vals@, phis@.len() as int, old(fr).regs()),
{
    let mut k: usize = 0;
    while k < phis.len()
        invariant
            k <= phis@.len(),
            fr.wf(),
            vals@.len() == phis@.len(),
            fr.regs() == phis_written(phis@, vals@, k as int, old(fr).regs()),
        decreases phis@.len() - k,
    {
        match vals[k] {
            Some(v) => fr.set(phis[k].dst.as_str(), v),
            None => fr.clear(phis[k].dst.as_str()),
        }
        k = k + 1;
    }
}

fn enter_block<'a, C: CodeProvider>(
    w: &Setup<'a, C>,
    b: &SsaBlock,
    prev: Option<usize>,
    st: &mut State,
    fr: &mut Frame,
) -> (r: Result<(), EmuError>)
    requires
        old(st).wf(),
        old(fr).wf(),
    ensures
        final(st).wf(),
        final(fr).wf(),
        (seen(r), machine(*final(st), *final(fr))) == enter_of(
            w.world(),
            *b,
            prev,
            machine(*old(st), *old(fr)),
        ),
{
    if b.phis.len() == 0 {
        return Ok(());
    }
    match prev {
        None => Err(EmuError::NoEntry),
        Some(from) => match read_phis(w, &b.phis, from, st, fr) {
            Err(x) => Err(x),
            Ok(vals) => {
                write_phis(&b.phis, &vals, fr);
                Ok(())
            },
        },
    }
}

fn find_return(b: &SsaBlock, i: usize) -> (r: Option<Va>)
    requires
        i < b.stmts@.len(),
    ensures
        r == return_of(*b, i as int),
{
    let va = b.stmts[i].va;
    let n: usize = b.stmts.len();
    let mut k: usize = i + 1;
    while k < n
        invariant
            n == b.stmts@.len(),
            i < k <= b.stmts@.len(),
            va == b.stmts@[i as int].va,
            later_va(b.stmts@, va, i + 1) == later_va(b.stmts@, va, k as int),
        decreases b.stmts@.len() - k,
    {
        if b.stmts[k].va.0 > va.0 {
            return Some(b.stmts[k].va);
        }
        k = k + 1;
    }
    find_edge(&b.successors, "fall", "fall")
}

/// How execution goes on after a statement.
pub enum Step {
    Next,
    Returned(Option<u64>),
    Failed(EmuError),
}

impl Step {
    pub open spec fn flow(self) -> Flow {
        match self {
            Step::Next => Flow::Next,
            Step::Returned(v) => Flow::Returned(v),
            Step::Failed(e) => Flow::Failed(e.fault()),
        }
    }
}

fn assign<'a, C: CodeProvider>(
    w: &Setup<'a, C>,
    dst: &String,
    value: &MicroExpr,
    va: Va,
    depth: usize,
    st: &mut State,
    fr: &mut Frame,
) -> (r: Step)
    requires
        w.wf(),
        old(st).wf(),
        old(fr).wf(),
    ensures
        final(st).wf(),
        final(fr).wf(),
        (r.flow(), machine(*final(st), *final(fr))) == assign_of(
            w.world(),
            dst@,
            *value,
            va,
            depth as nat,
            machine(*old(st), *old(fr)),
        ),
    decreases w.world().limit() - depth, 1nat, 0nat,
{
    let clobber = match value {
        MicroExpr::Unknown(s) => same(s.as_str(), CALL_CLOBBER),
        _ => false,
    };
    if clobber {
        let base = String::from_str(before_dot(dst.as_str()));
        let left: Option<u128> = match &st.after_call {
            Some(regs) => match regs.get(&base) {
                Some(v) => Some(*v),
                None => None,
            },
            None => None,
        };
        match left {
            Some(v) => fr.set(dst.as_str(), v),
            None => fr.clear(dst.as_str()),
        }
        return Step::Next;
    }
    if same(before_dot(dst.as_str()), FLAGS_VAR) {
        fr.clear(dst.as_str());
        return Step::Next;
    }
    match eval(w, value, va, depth, st, fr) {
        Ok(v) => {
            fr.set(dst.as_str(), v);
            Step::Next
        },
        Err(EmuError::OpaqueFlags(_)) => {
            fr.clear(dst.as_str());
            Step::Next
        },
        Err(x) => Step::Failed(x),
    }
}

fn step<'a, C: CodeProvider>(
    w: &Setup<'a, C>,
    b: &SsaBlock,
    i: usize,
    depth: usize,
    st: &mut State,
    fr: &mut Frame,
) -> (r: Step)
    requires
        w.wf(),
        i < b.stmts@.len(),
        old(st).wf(),
        old(fr).wf(),
    ensures
        final(st).wf(),
        final(fr).wf(),
        (r.flow(), machine(*final(st), *final(fr))) == stmt_of(
            w.world(),
            *b,
            i as int,
            depth as nat,
            machine(*old(st), *old(fr)),
        ),
    decreases w.world().limit() - depth, 1nat, 1nat,
{
    let va = b.stmts[i].va;
    match &b.stmts[i].stmt {
        MicroStmt::Assign { dst, value } => assign(w, dst, value, va, depth, st, fr),
        MicroStmt::Store { addr, value, bits } => {
            if *bits > WORD_BITS {
                return Step::Failed(EmuError::WidthNotModelled { bits: *bits });
            }
            match eval(w, addr, va, depth, st, fr) {
                Err(x) => Step::Failed(x),
                Ok(a) => match eval(w, value, va, depth, st, fr) {
                    Err(x) => Step::Failed(x),
                    Ok(v) => {
                        store(cut64(a), v, *bits, st, fr);
                        Step::Next
                    },
                },
            }
        },
        MicroStmt::Call { target, args, ret } => {
            let return_to = find_return(b, i);
            match call(w, target, args, va, return_to, depth, st, fr) {
                Err(x) => Step::Failed(x),
                Ok(out) => {
                    match ret {
                        None => {},
                        Some(name) => match out {
                            Some(v) => fr.set(name.as_str(), v as u128),
                            None => fr.clear(name.as_str()),
                        },
                    }
                    Step::Next
                },
            }
        },
        MicroStmt::Return(None) => Step::Returned(None),
        MicroStmt::Return(Some(e)) => match eval(w, e, va, depth, st, fr) {
            Err(x) => Step::Failed(x),
            Ok(v) => Step::Returned(Some(cut64(v))),
        },
        MicroStmt::Nop => Step::Next,
        MicroStmt::Unlifted { va, text } => Step::Failed(EmuError::Unlifted { va: *va, text: text.clone() }),
    }
}

fn run_stmts<'a, C: CodeProvider>(
    w: &Setup<'a, C>,
    b: &SsaBlock,
    depth: usize,
    st: &mut State,
    fr: &mut Frame,
) -> (r: Step)
    requires
        w.wf(),
        old(st).wf(),
        old(fr).wf(),
    ensures
        final(st).wf(),
        final(fr).wf(),
        (r.flow(), machine(*final(st), *final(fr))) == stmts_of(
            w.world(),
            *b,
            0,
            depth as nat,
            machine(*old(st), *old(fr)),
        ),
    decreases w.world().limit() - depth, 1nat, 2 + b.stmts@.len(),
{
    let mut i: usize = 0;
    let ghost all = stmts_of(w.world(), *b, 0, depth as nat, machine(*st, *fr));
    while i < b.stmts.len()
        invariant
            w.wf(),
            i <= b.stmts@.len(),
            st.wf(),
            fr.wf(),
            all == stmts_of(w.world(), *b, 0, depth as nat, machine(*old(st), *old(fr))),
            stmts_of(w.world(), *b, i as int, depth as nat, machine(*st, *fr)) == all,
        decreases b.stmts@.len() - i,
    {
        let over = st.steps >= w.cfg.max_steps;
        st.steps = count(st.steps);
        if over {
            return Step::Failed(EmuError::StepLimit(w.cfg.max_steps));
        }
        match step(w, b, i, depth, st, fr) {
            Step::Next => {},
            other => {
                return other;
            },
        }
        i = i + 1;
    }
    Step::Next
}

fn no_successor(b: &SsaBlock) -> (r: EmuError)
    ensures
        r.fault() == stuck(*b),
{
    EmuError::NoSuccessor { block: b.id, terminator: b.terminator.clone() }
}

fn follow_edge(blocks: &[SsaBlock], b: &SsaBlock, edge: Option<Va>) -> (r: Result<usize, EmuError>)
    ensures
        seen(r) == follow(blocks@, *b, edge),
{
    match edge {
        None => Err(no_successor(b)),
        Some(va) => match find_start(blocks, va) {
            Some(id) => Ok(id),
            None => Err(no_successor(b)),
        },
    }
}

fn find_jump(stmts: &Vec<SsaStmt>) -> (r: Option<usize>)
    ensures
        match (r, jump_value(stmts@, stmts@.len() as int)) {
            (Some(i), Some(e)) => i < stmts@.len() && (stmts@[i as int].stmt matches MicroStmt::Assign { value, .. }
                && value == e),
            (None, None) => true,
            _ => false,
        },
{
    let mut k: usize = stmts.len();
    while k > 0
        invariant
            k <= stmts@.len(),
            jump_value(stmts@, stmts@.len() as int) == jump_value(stmts@, k as int),
        decreases k,
    {
        match &stmts[k - 1].stmt {
            MicroStmt::Assign { dst, .. } => {
                if same(before_dot(dst.as_str()), JUMP_TARGET_VAR) {
                    return Some(k - 1);
                }
            },
            _ => {},
        }
        k = k - 1;
    }
    None
}

fn is_recorded(edges: &Vec<Successor>, to: u64) -> (r: bool)
    ensures
        r == recorded(edges@, to),
{
    let mut k: usize = 0;
    while k < edges.len()
        invariant
            k <= edges@.len(),
            forall|j: int| 0 <= j < k ==> (#[trigger] edges@[j]).to.0 != to,
        decreases edges@.len() - k,
    {
        if edges[k].to.0 == to {
            return true;
        }
        k = k + 1;
    }
    false
}

fn jump(blocks: &[SsaBlock], b: &SsaBlock, to: u64) -> (r: Result<usize, EmuError>)
    ensures
        seen(r) == jump_of(blocks@, *b, to),
{
    if b.successors.len() == 0 {
        return Err(EmuError::UnresolvedJump { block: b.id, to });
    }
    if !is_recorded(&b.successors, to) {
        return Err(EmuError::UnrecordedJump { block: b.id, to });
    }
    match find_start(blocks, Va(to)) {
        Some(id) => Ok(id),
        None => Err(EmuError::JumpToNonLeader { block: b.id, to }),
    }
}

/// The block that runs next.
fn successor<'a, C: CodeProvider>(
    w: &Setup<'a, C>,
    blocks: &[SsaBlock],
    b: &SsaBlock,
    depth: usize,
    st: &mut State,
    fr: &mut Frame,
) -> (r: Result<usize, EmuError>)
    requires
        w.wf(),
        old(st).wf(),
        old(fr).wf(),
    ensures
        final(st).wf(),
        final(fr).wf(),
        (seen(r), machine(*final(st), *final(fr))) == successor_of(
            w.world(),
            blocks@,
            *b,
            depth as nat,
            machine(*old(st), *old(fr)),
        ),
    decreases w.world().limit() - depth, 1nat, 0nat,
{
    let t = b.terminator.as_str();
    if same(t, "cjmp") {
        match &b.condition {
            None => Err(EmuError::NoCondition { block: b.id }),
            Some(c) => match eval(w, c, b.end, depth, st, fr) {
                Err(x) => Err(x),
                Ok(v) => {
                    let edge = if v != 0 {
                        find_edge(&b.successors, "cjmp-true", "cjmp-true")
                    } else {
                        find_edge(&b.successors, "cjmp-false", "cjmp-false")
                    };
                    follow_edge(blocks, b, edge)
                },
            },
        }
    } else if same(t, "ijmp") {
        match find_jump(&b.stmts) {
            None => Err(no_successor(b)),
            Some(i) => match &b.stmts[i].stmt {
                MicroStmt::Assign { value, .. } => match eval(w, value, b.end, depth, st, fr) {
                    Err(x) => Err(x),
                    Ok(v) => jump(blocks, b, cut64(v)),
                },
                _ => Err(no_successor(b)),
            },
        }
    } else if same(t, "fall") || same(t, "jmp") {
        follow_edge(blocks, b, find_edge(&b.successors, "fall", "jmp"))
    } else {
        Err(no_successor(b))
    }
}

/// One activation: runs the blocks until one returns.
fn run_body<'a, C: CodeProvider>(
    w: &Setup<'a, C>,
    blocks: &[SsaBlock],
    depth: usize,
    st: &mut State,
    fr: &mut Frame,
) -> (r: Result<Option<u64>, EmuError>)
    requires
        w.wf(),
        old(st).wf(),
        old(fr).wf(),
    ensures
        final(st).wf(),
        final(fr).wf(),
        (seen(r), machine(*final(st), *final(fr))) == run_of(
            w.world(),
            blocks@,
            depth as nat,
            machine(*old(st), *old(fr)),
        ),
    decreases w.world().limit() - depth, 3nat, 0nat,
{
    let mut idx: usize = match find_block(blocks, 0) {
        Some(i) => i,
        None => {
            return Err(EmuError::NoEntry);
        },
    };
    let mut prev: Option<usize> = None;
    let mut fuel: u128 = MAX_ENTRIES;
    let ghost all = run_of(w.world(), blocks@, depth as nat, machine(*st, *fr));
    while fuel > 0
        invariant
            w.wf(),
            idx < blocks@.len(),
            st.wf(),
            fr.wf(),
            all == run_of(w.world(), blocks@, depth as nat, machine(*old(st), *old(fr))),
            run_from(w.world(), blocks@, idx as int, prev, depth as nat, fuel as nat, machine(*st, *fr)) == all,
        decreases fuel,
    {
        let b = &blocks[idx];
        st.blocks_entered = count(st.blocks_entered);
        match enter_block(w, b, prev, st, fr) {
            Ok(_) => {},
            Err(x) => {
                return Err(x);
            },
        }
        match run_stmts(w, b, depth, st, fr) {
            Step::Next => {},
            Step::Returned(v) => {
                return Ok(v);
            },
            Step::Failed(x) => {
                return Err(x);
            },
        }
        let id: usize = match successor(w, blocks, b, depth, st, fr) {
            Ok(id) => id,
            Err(x) => {
                return Err(x);
            },
        };
        prev = Some(b.id);
        idx = match find_block(blocks, id) {
            Some(i) => i,
            None => {
                return Err(no_successor(b));
            },
        };
        fuel = fuel - 1;
    }
    Err(EmuError::StepLimit(w.cfg.max_steps))
}

// ---------------------------------------------------------------------------
// The emulator
// ---------------------------------------------------------------------------

/// What a run gave.
#[derive(Clone, Debug, PartialEq, Eq)]
pub struct EmuResult {
    /// The value that the function returned.
    pub ret: Option<u64>,
    pub steps: usize,
    pub blocks_entered: usize,
    /// The entry registers that were given a value, in order.
    pub invented: Vec<String>,
    /// How many bodies of callees were run.
    pub calls: usize,
    /// How many calls were answered by a stated value.
    pub stubbed: usize,
}

/// Executes the micro-code of one function, and of those that it calls.
pub struct Emulator<'a, C> {
    pub blocks: &'a [SsaBlock],
    /// The variables given, and after a run those of the entry activation.
    pub vars: NameMap<u128>,
    pub setup: Setup<'a, C>,
    pub state: State,
}

/// The registers after the first `k` variables have been given, in their order.
pub open spec fn given(vars: NameMap<u128>, k: int) -> Regs
    decreases k,
{
    if k <= 0 {
        Regs { vars: Map::empty(), arch: Map::empty() }
    } else {
        given(vars, k - 1).set(vars.keys@[k - 1]@, vars.vals@[k - 1])
    }
}

/// The registers at the entry: the variables given, the stack pointer and the
/// caller's frame pointer.
pub open spec fn first_regs(vars: NameMap<u128>, stack_top: u64) -> Regs {
    given(vars, vars.keys@.len() as int).seed("rsp"@, stack_top as u128).seed("esp"@, stack_top as u128).seed(
        "sp"@,
        stack_top as u128,
    ).seed("rbp"@, CALLER_FRAME as u128).seed("ebp"@, CALLER_FRAME as u128).seed("bp"@, CALLER_FRAME as u128)
}

/// The names, in order and without repetition.
pub open spec fn lists(v: Seq<String>, names: Seq<Seq<char>>) -> bool {
    &&& ascending(v)
    &&& forall|n: Seq<char>| #[trigger] holds(v, n) <==> names.contains(n)
}

impl<'a> Emulator<'a, BodyMap> {
    /// An emulator with the default configuration.
    pub fn new(blocks: &'a [SsaBlock], backing: Option<&'a Snapshot>) -> (r: Self)
        ensures
            r.wf(),
            r.blocks@ == blocks@,
            r.vars.map() == Map::<Seq<char>, u128>::empty(),
            r.setup.world() == (World::<BodyMap> {
                cfg: EmuConfig {
                    max_steps: 2_000_000,
                    stack_top: DEFAULT_STACK_TOP,
                    fs_base: DEFAULT_FS_BASE,
                    gs_base: DEFAULT_GS_BASE,
                    entry_scratch: false,
                    calls: CallPolicy::Refuse,
                    word_bits: 64,
                },
                backing: image(backing),
                code: None,
                arg_regs: Seq::empty(),
                facts: Seq::empty(),
            }),
            r.is_fresh(),
    {
        Self::with_config(blocks, backing, EmuConfig::default())
    }

    /// An emulator with the given configuration.
    pub fn with_config(blocks: &'a [SsaBlock], backing: Option<&'a Snapshot>, cfg: EmuConfig) -> (r: Self)
        ensures
            r.wf(),
            r.blocks@ == blocks@,
            r.vars.map() == Map::<Seq<char>, u128>::empty(),
            r.setup.world() == (World::<BodyMap> {
                cfg,
                backing: image(backing),
                code: None,
                arg_regs: Seq::empty(),
                facts: Seq::empty(),
            }),
            r.is_fresh(),
    {
        let setup: Setup<'a, BodyMap> = Setup { cfg, backing, code: None, arg_regs: Vec::new(), facts: Vec::new() };
        let state = State {
            mem: Memory::new(),
            invented: Vec::new(),
            steps: 0,
            blocks_entered: 0,
            calls: 0,
            stubbed: 0,
            after_call: None,
        };
        proof {
            assert(text_list(setup.arg_regs@) =~= Seq::<Seq<char>>::empty());
            assert(setup.facts@ =~= Seq::<FloatFact>::empty());
            assert(text_list(state.invented@) =~= Seq::<Seq<char>>::empty());
        }
        Emulator { blocks, vars: SortedMap::new(), setup, state }
    }
}

impl<'a, C: CodeProvider> Emulator<'a, C> {
    pub open spec fn wf(&self) -> bool {
        &&& self.vars.wf()
        &&& self.setup.wf()
        &&& self.state.wf()
    }

    /// Nothing has been written, invented or called yet.
    pub open spec fn is_fresh(&self) -> bool {
        &&& self.state.mem.written@ == Map::<u64, u8>::empty()
        &&& self.state.mem.touched@ == Set::<u64>::empty()
        &&& text_list(self.state.invented@) == Seq::<Seq<char>>::empty()
        &&& self.state.after_call is None
    }

    /// The state in which a run starts: counts at zero, nothing touched or
    /// invented, the registers of the entry, and the return address on the stack.
    pub open spec fn start(&self) -> Machine {
        store_of(
            self.setup.cfg.stack_top,
            RETURN_SENTINEL as u128,
            self.setup.cfg.word_bits,
            Machine {
                regs: first_regs(self.vars, self.setup.cfg.stack_top),
                written: self.state.mem.written@,
                touched: Set::<u64>::empty(),
                invented: Seq::<Seq<char>>::empty(),
                steps: 0,
                blocks: 0,
                calls: 0,
                stubbed: 0,
                after_call: match self.state.after_call {
                    Some(m) => Some(m.map()),
                    None => None,
                },
            },
        )
    }

    /// Supplies the callees.
    pub fn with_code<D: CodeProvider>(self, code: &'a D) -> (r: Emulator<'a, D>)
        requires
            self.wf(),
            code.wf(),
        ensures
            r.wf(),
            r.blocks == self.blocks,
            r.vars == self.vars,
            r.state == self.state,
            r.setup == (Setup {
                cfg: self.setup.cfg,
                backing: self.setup.backing,
                code: Some(code),
                arg_regs: self.setup.arg_regs,
                facts: self.setup.facts,
            }),
    {
        Emulator {
            blocks: self.blocks,
            vars: self.vars,
            setup: Setup {
                cfg: self.setup.cfg,
                backing: self.setup.backing,
                code: Some(code),
                arg_regs: self.setup.arg_regs,
                facts: self.setup.facts,
            },
            state: self.state,
        }
    }

    /// States which registers carry integer arguments, in order.
    pub fn with_arg_regs(self, regs: Vec<String>) -> (r: Self)
        requires
            self.wf(),
        ensures
            r.wf(),
            r.blocks == self.blocks,
            r.vars == self.vars,
            r.state == self.state,
            r.setup == (Setup { arg_regs: regs, ..self.setup }),
    {
        Emulator {
            blocks: self.blocks,
            vars: self.vars,
            setup: Setup {
                cfg: self.setup.cfg,
                backing: self.setup.backing,
                code: self.setup.code,
                arg_regs: regs,
                facts: self.setup.facts,
            },
            state: self.state,
        }
    }

    /// States the known results of floating-point operations.
    pub fn with_float_facts(self, facts: Vec<FloatFact>) -> (r: Self)
        requires
            self.wf(),
        ensures
            r.wf(),
            r.blocks == self.blocks,
            r.vars == self.vars,
            r.state == self.state,
            r.setup == (Setup { facts, ..self.setup }),
    {
        Emulator {
            blocks: self.blocks,
            vars: self.vars,
            setup: Setup {
                cfg: self.setup.cfg,
                backing: self.setup.backing,
                code: self.setup.code,
                arg_regs: self.setup.arg_regs,
                facts,
            },
            state: self.state,
        }
    }

    /// Gives a variable a value, under its own name and as an entry version.
    pub fn set_var(&mut self, name: &str, value: u64) -> (r: &mut Self)
        requires
            old(self).wf(),
        ensures
            (*r).wf(),
            (*r).vars.map() == old(self).vars.map().insert(name@, value as u128).insert(
                entry_name(name@),
                value as u128,
            ),
            (*r).blocks == old(self).blocks,
            (*r).setup == old(self).setup,
            (*r).state == old(self).state,
            *final(self) == *final(r),
    {
        self.set_var_wide(name, value as u128)
    }

    /// Gives a variable a value as wide as a vector register.
    pub fn set_var_wide(&mut self, name: &str, value: u128) -> (r: &mut Self)
        requires
            old(self).wf(),
        ensures
            (*r).wf(),
            (*r).vars.map() == old(self).vars.map().insert(name@, value).insert(entry_name(name@), value),
            (*r).blocks == old(self).blocks,
            (*r).setup == old(self).setup,
            (*r).state == old(self).state,
            *final(self) == *final(r),
    {
        self.vars.insert(String::from_str(name), value);
        let entry = entry_of(name);
        self.vars.insert(entry, value);
        self
    }

    /// The low 64 bits of a variable.
    pub fn var(&self, name: &str) -> (r: Option<u64>)
        requires
            self.wf(),
        ensures
            r == if self.vars.map().contains_key(name@) {
                Some(low64(self.vars.map()[name@]))
            } else {
                None
            },
    {
        match self.vars.get(&String::from_str(name)) {
            Some(v) => Some(cut64(*v)),
            None => None,
        }
    }

    /// Every address that the run read or wrote.
    pub fn touched(&self) -> (r: &std::collections::BTreeSet<u64>)
        ensures
            r@ == self.state.mem.touched@,
    {
        &self.state.mem.touched
    }

    /// Writes memory before a run.
    pub fn write_mem(&mut self, addr: u64, value: u64, bits: u32) -> (r: &mut Self)
        requires
            old(self).wf(),
        ensures
            (*r).wf(),
            (*r).blocks == old(self).blocks,
            (*r).setup == old(self).setup,
            (*r).vars == old(self).vars,
            (*r).state.mem.written@ == stored(
                old(self).state.mem.written@,
                addr,
                value as u128,
                span(bits),
            ),
            (*r).state.mem.touched@ == old(self).state.mem.touched@,
            (*r).state.invented == old(self).state.invented,
            (*r).state.after_call == old(self).state.after_call,
            *final(self) == *final(r),
    {
        self.write_mem_wide(addr, value as u128, bits)
    }

    /// Writes a value as wide as a vector register before a run.
    pub fn write_mem_wide(&mut self, addr: u64, value: u128, bits: u32) -> (r: &mut Self)
        requires
            old(self).wf(),
        ensures
            (*r).wf(),
            (*r).blocks == old(self).blocks,
            (*r).setup == old(self).setup,
            (*r).vars == old(self).vars,
            (*r).state.mem.written@ == stored(old(self).state.mem.written@, addr, value, span(bits)),
            (*r).state.mem.touched@ == old(self).state.mem.touched@,
            (*r).state.invented == old(self).state.invented,
            (*r).state.after_call == old(self).state.after_call,
            *final(self) == *final(r),
    {
        self.state.mem.plant(addr, value, bits);
        self
    }

    /// Runs from the first block until it returns, an error, or the step limit.
    pub fn run(&mut self) -> (r: Result<EmuResult, EmuError>)
        requires
            old(self).wf(),
        ensures
            final(self).wf(),
            final(self).blocks == old(self).blocks,
            final(self).setup == old(self).setup,
            ({
                let (out, m) = run_of(old(self).setup.world(), old(self).blocks@, 0, old(self).start());
                &&& final(self).vars.map() == m.regs.vars
                &&& final(self).state.mem.written@ == m.written
                &&& final(self).state.mem.touched@ == m.touched
                &&& match r {
                    Ok(res) => {
                        &&& out == Ok::<Option<u64>, Fault>(res.ret)
                        &&& res.steps == m.steps
                        &&& res.blocks_entered == m.blocks
                        &&& res.calls == m.calls
                        &&& res.stubbed == m.stubbed
                        &&& lists(res.invented@, m.invented)
                        &&& final(self).state.invented@.len() == 0
                    },
                    Err(e) => {
                        &&& out == Err::<Option<u64>, Fault>(e.fault())
                        &&& text_list(final(self).state.invented@) == m.invented
                    },
                }
            }),
    {
        let mut frame = Frame::new();
        let mut k: usize = 0;
        while k < self.vars.keys.len()
            invariant
                self.vars.wf(),
                k <= self.vars.keys@.len(),
                frame.wf(),
                frame.regs() == given(self.vars, k as int),
            decreases self.vars.keys@.len() - k,
        {
            frame.set(self.vars.keys[k].as_str(), self.vars.vals[k]);
            k = k + 1;
        }
        let top: u64 = self.setup.cfg.stack_top;
        frame.seed("rsp", top as u128);
        frame.seed("esp", top as u128);
        frame.seed("sp", top as u128);
        self.state.mem.touched = std::collections::BTreeSet::new();
        self.state.invented = Vec::new();
        assert(text_list(self.state.invented@) =~= Seq::<Seq<char>>::empty());
        self.state.mem.write(top, RETURN_SENTINEL as u128, self.setup.cfg.word_bits);
        frame.seed("rbp", CALLER_FRAME as u128);
        frame.seed("ebp", CALLER_FRAME as u128);
        frame.seed("bp", CALLER_FRAME as u128);
        self.state.steps = 0;
        self.state.blocks_entered = 0;
        self.state.calls = 0;
        self.state.stubbed = 0;
        assert(machine(self.state, frame) == old(self).start());
        let out = run_body(&self.setup, self.blocks, 0, &mut self.state, &mut frame);
        self.vars = frame.vars;
        let ret = match out {
            Ok(v) => v,
            Err(e) => {
                return Err(e);
            },
        };
        let invented = sorted_names(&self.state.invented);
        self.state.invented = Vec::new();
        Ok(
            EmuResult {
                ret,
                steps: self.state.steps,
                blocks_entered: self.state.blocks_entered,
                invented,
                calls: self.state.calls,
                stubbed: self.state.stubbed,
            },
        )
    }
}

/// The names, in order and without repetition.
fn sorted_names(names: &Vec<String>) -> (r: Vec<String>)
    ensures
        lists(r@, text_list(names@)),
{
    let mut set: NameSet = SortedSet::new();
    let mut k: usize = 0;
    while k < names.len()
        invariant
            k <= names@.len(),
            set.wf(),
            forall|n: Seq<char>| #[trigger] set.set().contains(n) <==> text_list(names@).take(k as int).contains(n),
        decreases names@.len() - k,
    {
        let ghost before = set.set();
        set.insert(names[k].clone());
        proof {
            let all = text_list(names@);
            assert(all.take(k + 1) =~= all.take(k as int).push(names@[k as int]@));
            assert forall|n: Seq<char>| #[trigger] set.set().contains(n) <==> all.take(k + 1).contains(n) by {
                assert(before.contains(n) <==> all.take(k as int).contains(n));
                let old_part = all.take(k as int);
                if old_part.contains(n) {
                    let i = choose|i: int| 0 <= i < old_part.len() && old_part[i] == n;
                    assert(all.take(k + 1)[i] == n);
                }
                if n == names@[k as int]@ {
                    assert(all.take(k + 1)[k as int] == n);
                }
                let new_part = all.take(k + 1);
                if new_part.contains(n) {
                    let i = choose|i: int| 0 <= i < new_part.len() && new_part[i] == n;
                    if i < k {
                        assert(old_part[i] == n);
                    }
                }
            }
        }
        k = k + 1;
    }
    proof {
        assert(text_list(names@).take(k as int) =~= text_list(names@));
        assert forall|n: Seq<char>| #[trigger] holds(set.items@, n) <==> text_list(names@).contains(n) by {
            assert(set.set().contains(n) <==> holds(set.items@, n));
        }
    }
    set.items
}

// ---------------------------------------------------------------------------
// Laws
// ---------------------------------------------------------------------------

/// What every part of a run keeps: steps are only counted up, memory and the
/// addresses seen only grow, a run that refuses calls makes none, and a value
/// is invented only where that is allowed, and only for an entry version.
pub open spec fn kept<C>(w: World<C>, m: Machine, n: Machine) -> bool {
    &&& m.steps <= n.steps
    &&& m.touched.subset_of(n.touched)
    &&& m.written.dom().subset_of(n.written.dom())
    &&& w.cfg.calls == CallPolicy::Refuse ==> n.calls == m.calls && n.stubbed == m.stubbed
    &&& !w.cfg.entry_scratch ==> n.invented == m.invented
    &&& m.invented.len() <= n.invented.len()
    &&& forall|i: int| 0 <= i < m.invented.len() ==> #[trigger] n.invented[i] == m.invented[i]
    &&& forall|i: int| m.invented.len() <= i < n.invented.len() ==> is_entry(#[trigger] n.invented[i])
}

proof fn lemma_kept_trans<C>(w: World<C>, a: Machine, b: Machine, c: Machine)
    requires
        kept(w, a, b),
        kept(w, b, c),
    ensures
        kept(w, a, c),
{
    assert forall|i: int| 0 <= i < a.invented.len() implies #[trigger] c.invented[i] == a.invented[i] by {
        assert(b.invented[i] == a.invented[i]);
    }
    assert forall|i: int| a.invented.len() <= i < c.invented.len() implies is_entry(#[trigger] c.invented[i]) by {
        if i < b.invented.len() {
            assert(is_entry(b.invented[i]));
        }
    }
}

proof fn lemma_var_kept<C>(w: World<C>, name: Seq<char>, m: Machine)
    ensures
        kept(w, m, var_of(w, name, m).1),
{
}

proof fn lemma_eval_kept<C: CodeProvider>(w: World<C>, e: MicroExpr, va: Va, depth: nat, m: Machine)
    ensures
        kept(w, m, eval_of(w, e, va, depth, m).1),
        w.cfg.calls == CallPolicy::Refuse ==> eval_of(w, e, va, depth, m).1.steps == m.steps,
    decreases w.limit() - depth, 0nat, weight(e),
{
    match e {
        MicroExpr::Load { addr, bits, .. } => {
            lemma_eval_kept(w, *addr, va, depth, m);
        },
        MicroExpr::Unary(_, v) => {
            lemma_eval_kept(w, *v, va, depth, m);
        },
        MicroExpr::Binary(_, l, r) => {
            lemma_eval_kept(w, *l, va, depth, m);
            let m1 = eval_of(w, *l, va, depth, m).1;
            lemma_eval_kept(w, *r, va, depth, m1);
            lemma_kept_trans(w, m, m1, eval_of(w, *r, va, depth, m1).1);
        },
        MicroExpr::Cast { expr, .. } => {
            lemma_eval_kept(w, *expr, va, depth, m);
        },
        MicroExpr::AddrOf(v) => {
            lemma_eval_kept(w, *v, va, depth, m);
        },
        MicroExpr::Compare { lhs, rhs, .. } => {
            lemma_eval_kept(w, *lhs, va, depth, m);
            let m1 = eval_of(w, *lhs, va, depth, m).1;
            lemma_eval_kept(w, *rhs, va, depth, m1);
            lemma_kept_trans(w, m, m1, eval_of(w, *rhs, va, depth, m1).1);
        },
        MicroExpr::Call { target, args } => match target {
            CallTarget::Intrinsic(_) => {
                lemma_args_kept(w, args, args@.len(), va, depth, m);
            },
            _ => {
                lemma_call_kept(w, target, args, va, None, depth, m);
            },
        },
        MicroExpr::Select { cond, a, b } => {
            lemma_eval_kept(w, *cond, va, depth, m);
            let m1 = eval_of(w, *cond, va, depth, m).1;
            lemma_eval_kept(w, *a, va, depth, m1);
            lemma_eval_kept(w, *b, va, depth, m1);
            lemma_kept_trans(w, m, m1, eval_of(w, *a, va, depth, m1).1);
            lemma_kept_trans(w, m, m1, eval_of(w, *b, va, depth, m1).1);
        },
        _ => {},
    }
}

proof fn lemma_args_kept<C: CodeProvider>(
    w: World<C>,
    args: Vec<MicroExpr>,
    k: nat,
    va: Va,
    depth: nat,
    m: Machine,
)
    ensures
        kept(w, m, args_of(w, args, k, va, depth, m).1),
        w.cfg.calls == CallPolicy::Refuse ==> args_of(w, args, k, va, depth, m).1.steps == m.steps,
    decreases w.limit() - depth, 0nat, list_weight(args, k),
{
    if k > 0 && k <= args@.len() {
        lemma_args_kept(w, args, (k - 1) as nat, va, depth, m);
        let m1 = args_of(w, args, (k - 1) as nat, va, depth, m).1;
        lemma_eval_kept(w, args[k - 1], va, depth, m1);
        lemma_kept_trans(w, m, m1, eval_of(w, args[k - 1], va, depth, m1).1);
    }
}

proof fn lemma_argv_kept<C: CodeProvider>(
    w: World<C>,
    args: Vec<MicroExpr>,
    k: nat,
    va: Va,
    depth: nat,
    m: Machine,
)
    ensures
        kept(w, m, argv_of(w, args, k, va, depth, m).1),
    decreases w.limit() - depth, 0nat, list_weight(args, k),
{
    if k > 0 && k <= args@.len() {
        lemma_argv_kept(w, args, (k - 1) as nat, va, depth, m);
        let m1 = argv_of(w, args, (k - 1) as nat, va, depth, m).1;
        lemma_eval_kept(w, args[k - 1], va, depth, m1);
        lemma_kept_trans(w, m, m1, eval_of(w, args[k - 1], va, depth, m1).1);
    }
}

proof fn lemma_passed_kept<C: CodeProvider>(
    w: World<C>,
    args: Vec<MicroExpr>,
    k: nat,
    va: Va,
    depth: nat,
    callee: Regs,
    m: Machine,
)
    ensures
        kept(w, m, passed(w, args, k, va, depth, callee, m).1),
    decreases w.limit() - depth, 0nat, list_weight(args, k),
{
    if k > 0 && k <= args@.len() {
        lemma_passed_kept(w, args, (k - 1) as nat, va, depth, callee, m);
        let m1 = passed(w, args, (k - 1) as nat, va, depth, callee, m).1;
        lemma_eval_kept(w, args[k - 1], va, depth, m1);
        lemma_kept_trans(w, m, m1, eval_of(w, args[k - 1], va, depth, m1).1);
    }
}

proof fn lemma_call_kept<C: CodeProvider>(
    w: World<C>,
    target: CallTarget,
    args: Vec<MicroExpr>,
    va: Va,
    return_to: Option<Va>,
    depth: nat,
    m: Machine,
)
    ensures
        kept(w, m, call_of(w, target, args, va, return_to, depth, m).1),
        w.cfg.calls == CallPolicy::Refuse ==> call_of(w, target, args, va, return_to, depth, m).1.steps == m.steps,
    decreases w.limit() - depth, 0nat, 1 + target_weight(target) + list_weight(args, args@.len()),
{
    if w.cfg.calls != CallPolicy::Refuse {
        match target {
            CallTarget::Indirect(e) => {
                lemma_eval_kept(w, *e, va, depth, m);
            },
            _ => {},
        }
        match callee_of(w, target, va, depth, m) {
            (Err(_), _) => {},
            (Ok(callee), m1) => {
                assert(kept(w, m, m1));
                let body = match w.code {
                    Some(c) => c.body_of(callee),
                    None => None,
                };
                match body {
                    None => {
                        lemma_argv_kept(w, args, args@.len(), va, depth, m1);
                        let m2 = argv_of(w, args, args@.len(), va, depth, m1).1;
                        lemma_kept_trans(w, m, m1, m2);
                        let m3 = call_of(w, target, args, va, return_to, depth, m).1;
                        assert(kept(w, m2, m3));
                        lemma_kept_trans(w, m, m2, m3);
                    },
                    Some(blocks) => {
                        if depth + 1 <= w.limit() && m1.regs.arch.contains_key("rsp"@) {
                            let sp = pushed(m1.regs.arch["rsp"@], w.cfg.word_bits);
                            let entered = with_stack(entry_regs(m1.regs.arch), sp);
                            let m2 = store_of(
                                sp,
                                return_address(return_to, m1.calls) as u128,
                                w.cfg.word_bits,
                                m1,
                            );
                            assert(kept(w, m1, m2));
                            lemma_kept_trans(w, m, m1, m2);
                            lemma_passed_kept(w, args, args@.len(), va, depth, entered, m2);
                            let (out, m3) = passed(w, args, args@.len(), va, depth, entered, m2);
                            lemma_kept_trans(w, m, m2, m3);
                            match out {
                                Err(_) => {},
                                Ok(regs) => {
                                    let m4 = Machine { regs, calls: bump(m3.calls), ..m3 };
                                    lemma_run_kept(w, blocks, depth + 1, m4);
                                    let m5 = run_of(w, blocks, depth + 1, m4).1;
                                    assert(kept(w, m3, m4));
                                    lemma_kept_trans(w, m, m3, m4);
                                    lemma_kept_trans(w, m, m4, m5);
                                    let m6 = call_of(w, target, args, va, return_to, depth, m).1;
                                    assert(kept(w, m5, m6));
                                    lemma_kept_trans(w, m, m5, m6);
                                },
                            }
                        }
                    },
                }
            },
        }
    }
}

proof fn lemma_phis_kept<C>(w: World<C>, phis: Seq<Phi>, k: int, from: usize, m: Machine)
    ensures
        kept(w, m, phis_read(w, phis, k, from, m).1),
        phis_read(w, phis, k, from, m).1.steps == m.steps,
    decreases k,
{
    if k > 0 {
        lemma_phis_kept(w, phis, k - 1, from, m);
        let m1 = phis_read(w, phis, k - 1, from, m).1;
        match input_of(phis[k - 1].inputs@, from, 0) {
            Some(name) => {
                lemma_var_kept(w, name, m1);
                lemma_kept_trans(w, m, m1, var_of(w, name, m1).1);
            },
            None => {},
        }
    }
}

proof fn lemma_stmt_kept<C: CodeProvider>(w: World<C>, b: SsaBlock, i: int, depth: nat, m: Machine)
    ensures
        kept(w, m, stmt_of(w, b, i, depth, m).1),
        w.cfg.calls == CallPolicy::Refuse ==> stmt_of(w, b, i, depth, m).1.steps == m.steps,
    decreases w.limit() - depth, 1nat, 1nat,
{
    let va = b.stmts@[i].va;
    match b.stmts@[i].stmt {
        MicroStmt::Assign { value, .. } => {
            lemma_eval_kept(w, value, va, depth, m);
        },
        MicroStmt::Store { addr, value, bits } => {
            lemma_eval_kept(w, addr, va, depth, m);
            let m1 = eval_of(w, addr, va, depth, m).1;
            lemma_eval_kept(w, value, va, depth, m1);
            let m2 = eval_of(w, value, va, depth, m1).1;
            lemma_kept_trans(w, m, m1, m2);
            let m3 = store_of(low64(eval_of(w, addr, va, depth, m).0->Ok_0), eval_of(w, value, va, depth, m1).0->Ok_0, bits, m2);
            assert(kept(w, m2, m3));
            lemma_kept_trans(w, m, m2, m3);
        },
        MicroStmt::Call { target, args, .. } => {
            lemma_call_kept(w, target, args, va, return_of(b, i), depth, m);
        },
        MicroStmt::Return(Some(e)) => {
            lemma_eval_kept(w, e, va, depth, m);
        },
        _ => {},
    }
}

proof fn lemma_stmts_kept<C: CodeProvider>(w: World<C>, b: SsaBlock, i: int, depth: nat, m: Machine)
    ensures
        kept(w, m, stmts_of(w, b, i, depth, m).1),
        w.cfg.calls == CallPolicy::Refuse && m.steps <= w.cfg.max_steps && !(stmts_of(w, b, i, depth, m).0 is Failed)
            ==> stmts_of(w, b, i, depth, m).1.steps <= w.cfg.max_steps,
    decreases w.limit() - depth, 1nat, 2 + b.stmts@.len() - i,
{
    if 0 <= i < b.stmts@.len() {
        let m1 = Machine { steps: bump(m.steps), ..m };
        assert(kept(w, m, m1));
        if m.steps < w.cfg.max_steps {
            lemma_stmt_kept(w, b, i, depth, m1);
            let m2 = stmt_of(w, b, i, depth, m1).1;
            lemma_kept_trans(w, m, m1, m2);
            lemma_stmts_kept(w, b, i + 1, depth, m2);
            lemma_kept_trans(w, m, m2, stmts_of(w, b, i + 1, depth, m2).1);
        }
    }
}

proof fn lemma_successor_kept<C: CodeProvider>(
    w: World<C>,
    blocks: Seq<SsaBlock>,
    b: SsaBlock,
    depth: nat,
    m: Machine,
)
    ensures
        kept(w, m, successor_of(w, blocks, b, depth, m).1),
        w.cfg.calls == CallPolicy::Refuse ==> successor_of(w, blocks, b, depth, m).1.steps == m.steps,
    decreases w.limit() - depth, 1nat, 0nat,
{
    match b.condition {
        Some(c) => {
            lemma_eval_kept(w, c, b.end, depth, m);
        },
        None => {},
    }
    match jump_value(b.stmts@, b.stmts@.len() as int) {
        Some(e) => {
            lemma_eval_kept(w, e, b.end, depth, m);
        },
        None => {},
    }
}

proof fn lemma_run_from_kept<C: CodeProvider>(
    w: World<C>,
    blocks: Seq<SsaBlock>,
    idx: int,
    prev: Option<usize>,
    depth: nat,
    fuel: nat,
    m: Machine,
)
    ensures
        kept(w, m, run_from(w, blocks, idx, prev, depth, fuel, m).1),
        w.cfg.calls == CallPolicy::Refuse && m.steps <= w.cfg.max_steps && run_from(
            w,
            blocks,
            idx,
            prev,
            depth,
            fuel,
            m,
        ).0 is Ok ==> run_from(w, blocks, idx, prev, depth, fuel, m).1.steps <= w.cfg.max_steps,
    decreases w.limit() - depth, 2nat, fuel,
{
    if fuel > 0 {
        let b = blocks[idx];
        let m0 = Machine { blocks: bump(m.blocks), ..m };
        assert(kept(w, m, m0));
        let m1 = enter_of(w, b, prev, m0).1;
        match prev {
            Some(from) => {
                lemma_phis_kept(w, b.phis@, b.phis@.len() as int, from, m0);
                let mp = phis_read(w, b.phis@, b.phis@.len() as int, from, m0).1;
                lemma_kept_trans(w, m, m0, mp);
                assert(kept(w, m, m1));
            },
            None => {},
        }
        assert(kept(w, m, m1));
        if enter_of(w, b, prev, m0).0 is Ok {
            lemma_stmts_kept(w, b, 0, depth, m1);
            let m2 = stmts_of(w, b, 0, depth, m1).1;
            lemma_kept_trans(w, m, m1, m2);
            if stmts_of(w, b, 0, depth, m1).0 is Next {
                lemma_successor_kept(w, blocks, b, depth, m2);
                let (next, m3) = successor_of(w, blocks, b, depth, m2);
                lemma_kept_trans(w, m, m2, m3);
                match next {
                    Ok(id) => match block_with_id(blocks, id, blocks.len() as int) {
                        Some(to) => {
                            lemma_run_from_kept(w, blocks, to, Some(b.id), depth, (fuel - 1) as nat, m3);
                            lemma_kept_trans(
                                w,
                                m,
                                m3,
                                run_from(w, blocks, to, Some(b.id), depth, (fuel - 1) as nat, m3).1,
                            );
                        },
                        None => {},
                    },
                    Err(_) => {},
                }
            }
        }
    }
}

proof fn lemma_run_kept<C: CodeProvider>(w: World<C>, blocks: Seq<SsaBlock>, depth: nat, m: Machine)
    ensures
        kept(w, m, run_of(w, blocks, depth, m).1),
        w.cfg.calls == CallPolicy::Refuse && m.steps <= w.cfg.max_steps && run_of(w, blocks, depth, m).0 is Ok
            ==> run_of(w, blocks, depth, m).1.steps <= w.cfg.max_steps,
    decreases w.limit() - depth, 3nat, 0nat,
{
    match block_with_id(blocks, 0, blocks.len() as int) {
        Some(idx) => {
            lemma_run_from_kept(w, blocks, idx, None, depth, MAX_ENTRIES as nat, m);
        },
        None => {},
    }
}

/// A run that refuses calls makes none, and a value that it returns was reached
/// within the step limit.
pub proof fn refusing_runs_make_no_calls<C: CodeProvider>(w: World<C>, blocks: Seq<SsaBlock>, m: Machine)
    requires
        w.cfg.calls == CallPolicy::Refuse,
        m.steps == 0,
    ensures
        run_of(w, blocks, 0, m).1.calls == m.calls,
        run_of(w, blocks, 0, m).1.stubbed == m.stubbed,
        run_of(w, blocks, 0, m).0 is Ok ==> run_of(w, blocks, 0, m).1.steps <= w.cfg.max_steps,
{
    lemma_run_kept(w, blocks, 0, m);
}

/// A register is given a value only where the configuration allows it, and only
/// as the version with which its function was entered.
pub proof fn only_entry_versions_are_invented<C: CodeProvider>(w: World<C>, blocks: Seq<SsaBlock>, m: Machine)
    requires
        m.invented.len() == 0,
    ensures
        !w.cfg.entry_scratch ==> run_of(w, blocks, 0, m).1.invented.len() == 0,
        forall|i: int|
            0 <= i < run_of(w, blocks, 0, m).1.invented.len() ==> is_entry(
                #[trigger] run_of(w, blocks, 0, m).1.invented[i],
            ),
{
    lemma_run_kept(w, blocks, 0, m);
}

/// Whatever was written, and whatever was seen to be touched, stays so.
pub proof fn runs_forget_no_memory<C: CodeProvider>(w: World<C>, blocks: Seq<SsaBlock>, m: Machine)
    ensures
        m.written.dom().subset_of(run_of(w, blocks, 0, m).1.written.dom()),
        m.touched.subset_of(run_of(w, blocks, 0, m).1.touched),
{
    lemma_run_kept(w, blocks, 0, m);
}

// ---------------------------------------------------------------------------
// What micro-code means
// ---------------------------------------------------------------------------

/// A selection has the value of its first side where the condition is not zero, and
/// that of its second side where it is, each taken in the state that the condition
/// leaves. The other side is not looked at.
pub proof fn selections_go_by_their_condition<C: CodeProvider>(
    w: World<C>,
    cond: Box<MicroExpr>,
    a: Box<MicroExpr>,
    b: Box<MicroExpr>,
    va: Va,
    depth: nat,
    m: Machine,
)
    ensures
        ({
            let whole = eval_of(w, MicroExpr::Select { cond, a, b }, va, depth, m);
            let (c, m1) = eval_of(w, *cond, va, depth, m);
            &&& c is Ok && c->Ok_0 > 0 ==> whole == eval_of(w, *a, va, depth, m1)
            &&& c == Ok::<u128, Fault>(0) ==> whole == eval_of(w, *b, va, depth, m1)
            &&& c is Err ==> whole == (c, m1)
        }),
{
}

/// An operation on two operands first takes the left one, then the right one in the
/// state that the left one leaves; a fault of either is the fault of the whole.
pub proof fn operands_are_taken_from_left_to_right<C: CodeProvider>(
    w: World<C>,
    op: BinOp,
    kind: CmpKind,
    l: Box<MicroExpr>,
    r: Box<MicroExpr>,
    va: Va,
    depth: nat,
    m: Machine,
)
    ensures
        ({
            let sum = eval_of(w, MicroExpr::Binary(op, l, r), va, depth, m);
            let test = eval_of(w, MicroExpr::Compare { kind, lhs: l, rhs: r }, va, depth, m);
            let (x, m1) = eval_of(w, *l, va, depth, m);
            let (y, m2) = eval_of(w, *r, va, depth, m1);
            &&& x is Err ==> sum == (x, m1) && test == (x, m1)
            &&& x is Ok && y is Err ==> sum == (y, m2) && test == (y, m2)
            &&& x is Ok && y is Ok ==> sum.1 == m2 && test.1 == m2 && test.0 is Ok
        }),
{
}

proof fn lemma_low(v: u128)
    ensures
        low64(v) as int == v as int % 0x1_0000_0000_0000_0000,
{
}

/// Sums, differences and products of two words are those of the numbers, as far as
/// they go into 64 bits; taking away undoes adding.
pub proof fn words_are_added_and_multiplied(a: u128, b: u128, va: Va)
    ensures
        ({
            let x = a as int % 0x1_0000_0000_0000_0000;
            let y = b as int % 0x1_0000_0000_0000_0000;
            let n = 0x1_0000_0000_0000_0000int;
            &&& binary_value(BinOp::Add, a, b, va) matches Ok(v) && v as int == (x + y) % n
            &&& binary_value(BinOp::Sub, a, b, va) matches Ok(v) && v as int == (x - y) % n
            &&& binary_value(BinOp::Mul, a, b, va) matches Ok(v) && v as int == (x * y) % n
            &&& binary_value(BinOp::Add, a, b, va) matches Ok(v) && binary_value(BinOp::Sub, v, b, va) == Ok::<u128, Fault>(
                x as u128,
            )
        }),
{
    let n = 0x1_0000_0000_0000_0000int;
    let x = a as int % n;
    let y = b as int % n;
    let s = (x + y) % n;
    assert(low64(a) as int == x && low64(b) as int == y);
    assert(0 <= x * y) by (nonlinear_arith)
        requires
            x >= 0,
            y >= 0,
    ;
    assert(low64(s as u128) == s);
    assert((s - y) % n == x);
}

/// The quotient and the remainder make the dividend; the remainder is smaller than the
/// divisor and has the sign of the dividend.
pub open spec fn divides_into(x: int, y: int, q: int, r: int) -> bool {
    &&& x == q * y + r
    &&& (-y < r < y || y < r < -y)
    &&& r == 0 || (r < 0) == (x < 0)
}

/// The number that the 64 bits of a word stand for with their sign.
pub open spec fn with_sign(x: int) -> int {
    if x >= 0x8000_0000_0000_0000 {
        x - 0x1_0000_0000_0000_0000
    } else {
        x
    }
}

/// A division of words without a sign leaves the dividend: the quotient times the
/// divisor, and a remainder below the divisor. With a sign it does so for the numbers
/// that the words stand for, up to the one quotient that does not go into a word.
/// Nothing is divided by zero.
pub proof fn words_are_divided(a: u128, b: u128, va: Va)
    ensures
        ({
            let n = 0x1_0000_0000_0000_0000int;
            let x = a as int % n;
            let y = b as int % n;
            let sx = with_sign(x);
            let sy = with_sign(y);
            &&& y == 0 ==> {
                &&& binary_value(BinOp::UDiv, a, b, va) == Err::<u128, Fault>(Fault::DivideByZero(va))
                &&& binary_value(BinOp::UMod, a, b, va) == Err::<u128, Fault>(Fault::DivideByZero(va))
                &&& binary_value(BinOp::SDiv, a, b, va) == Err::<u128, Fault>(Fault::DivideByZero(va))
                &&& binary_value(BinOp::SMod, a, b, va) == Err::<u128, Fault>(Fault::DivideByZero(va))
            }
            &&& y != 0 ==> {
                &&& binary_value(BinOp::UDiv, a, b, va) matches Ok(q) && binary_value(BinOp::UMod, a, b, va) matches Ok(r)
                    && x == q * y + r && r < y
                &&& binary_value(BinOp::SDiv, a, b, va) matches Ok(q) && binary_value(BinOp::SMod, a, b, va) matches Ok(r)
                    && exists|qq: int, rr: int| #[trigger] divides_into(sx, sy, qq, rr) && q as int == qq % n && r as int == rr % n
            }
        }),
{
    let n = 0x1_0000_0000_0000_0000int;
    let x = a as int % n;
    let y = b as int % n;
    assert(low64(a) as int == x && low64(b) as int == y);
    lemma_signed_word(low64(a));
    lemma_signed_word(low64(b));
    if y != 0 {
        let q = x / y;
        let r = x % y;
        vstd::arithmetic::div_mod::lemma_fundamental_div_mod(x, y);
        assert(y * q == q * y) by (nonlinear_arith);
        assert(0 <= r < y) by (nonlinear_arith)
            requires
                r == x % y,
                y > 0,
        ;
        assert(0 <= q <= x) by (nonlinear_arith)
            requires
                q == x / y,
                y > 0,
                x >= 0,
        ;
        let sx = sgn(low64(a));
        let sy = sgn(low64(b));
        crate::bits::division_is_exact(sx, sy);
        let qq = quotient(sx, sy);
        let rr = remainder(sx, sy);
        assert(binary_value(BinOp::SDiv, a, b, va)->Ok_0 as int == qq % n);
        assert(binary_value(BinOp::SMod, a, b, va)->Ok_0 as int == rr % n);
        assert(rr == 0 || (rr < 0) == (sx < 0)) by {
            if sx < 0 {
                assert(crate::bits::abs(sx) % crate::bits::abs(sy) >= 0) by (nonlinear_arith)
                    requires
                        crate::bits::abs(sy) > 0,
                ;
            } else {
                assert(crate::bits::abs(sx) % crate::bits::abs(sy) >= 0) by (nonlinear_arith)
                    requires
                        crate::bits::abs(sy) > 0,
                ;
            }
        }
        assert(divides_into(sx, sy, qq, rr));
        assert(binary_value(BinOp::UDiv, a, b, va) == Ok::<u128, Fault>(q as u128));
        assert(binary_value(BinOp::UMod, a, b, va) == Ok::<u128, Fault>(r as u128));
        assert(x == (q as u128) * y + (r as u128));
        assert(sx == with_sign(x) && sy == with_sign(y));
        let sq = binary_value(BinOp::SDiv, a, b, va);
        let sr = binary_value(BinOp::SMod, a, b, va);
        assert(sq is Ok && sr is Ok);
        assert(divides_into(with_sign(x), with_sign(y), qq, rr) && sq->Ok_0 as int == qq % n && sr->Ok_0 as int == rr % n);
    }
    assert(y == 0 ==> binary_value(BinOp::UDiv, a, b, va) == Err::<u128, Fault>(Fault::DivideByZero(va)));
    assert(y == 0 ==> binary_value(BinOp::SMod, a, b, va) == Err::<u128, Fault>(Fault::DivideByZero(va)));
}

proof fn lemma_signed_word(a: u64)
    ensures
        sgn(a) == if a >= 0x8000_0000_0000_0000 {
            a - 0x1_0000_0000_0000_0000
        } else {
            a as int
        },
{
    vstd::arithmetic::power2::lemma2_to64();
    assert(pow2(64) == 0x1_0000_0000_0000_0000);
    assert(crate::bits::cut_of(a as u128, 64) == a) by {
        vstd::arithmetic::div_mod::lemma_small_mod(a as nat, pow2(64));
    }
}

/// A comparison is one where it holds and zero where it does not: of the words as
/// numbers from zero on, or of the numbers that they stand for with their sign.
pub proof fn words_are_compared(a: u128, b: u128, va: Va)
    ensures
        ({
            let n = 0x1_0000_0000_0000_0000int;
            let x = a as int % n;
            let y = b as int % n;
            let sx = if x >= n / 2 {
                x - n
            } else {
                x
            };
            let sy = if y >= n / 2 {
                y - n
            } else {
                y
            };
            let is = |op: BinOp, yes: bool|
                binary_value(op, a, b, va) == Ok::<u128, Fault>(
                    if yes {
                        1u128
                    } else {
                        0u128
                    },
                );
            &&& is(BinOp::Eq, x == y)
            &&& is(BinOp::Ne, x != y)
            &&& is(BinOp::Ult, x < y)
            &&& is(BinOp::Ule, x <= y)
            &&& is(BinOp::Ugt, x > y)
            &&& is(BinOp::Uge, x >= y)
            &&& is(BinOp::Slt, sx < sy)
            &&& is(BinOp::Sle, sx <= sy)
            &&& is(BinOp::Sgt, sx > sy)
            &&& is(BinOp::Sge, sx >= sy)
        }),
{
    lemma_signed_word(low64(a));
    lemma_signed_word(low64(b));
}

/// A shift by `k` multiplies or divides by two to the power `k`, within 64 bits. To
/// the left and without a sign nothing is left from 64 on; with a sign the quotient is
/// rounded down, so that the sign is what is left.
pub proof fn words_are_shifted(a: u128, b: u128, va: Va)
    ensures
        ({
            let n = 0x1_0000_0000_0000_0000int;
            let x = a as int % n;
            let k = b as int % n;
            let sx = if x >= n / 2 {
                x - n
            } else {
                x
            };
            let by = if k < 63 {
                k
            } else {
                63
            };
            &&& binary_value(BinOp::Shl, a, b, va) matches Ok(v) && v as int == if k < 64 {
                (x * pow2(k as nat)) % n
            } else {
                0
            }
            &&& binary_value(BinOp::Shr, a, b, va) matches Ok(v) && v as int == if k < 64 {
                x / pow2(k as nat) as int
            } else {
                0
            }
            &&& binary_value(BinOp::Sar, a, b, va) matches Ok(v) && v as int == (sx / pow2(by as nat) as int) % n
        }),
{
    let n = 0x1_0000_0000_0000_0000int;
    let x = a as int % n;
    let k = b as int % n;
    let sx = if x >= n / 2 {
        x - n
    } else {
        x
    };
    vstd::arithmetic::power2::lemma2_to64();
    assert(low64(a) as int == x && low64(b) as int == k);
    let by = if k < 63 {
        k
    } else {
        63
    };
    vstd::arithmetic::power2::lemma_pow2_pos(by as nat);
    let p = pow2(by as nat) as int;
    let p1 = pow2(k as nat) as int;
    if k < 64 {
        vstd::arithmetic::power2::lemma_pow2_pos(k as nat);
        assert(0 <= x / p1 <= x) by (nonlinear_arith)
            requires
                p1 > 0,
                x >= 0,
        ;
        assert(0 <= x * p1) by (nonlinear_arith)
            requires
                p1 > 0,
                x >= 0,
        ;
    }
    if x < n / 2 {
        assert(0 <= x / p <= x) by (nonlinear_arith)
            requires
                p > 0,
                x >= 0,
        ;
    } else {
        let c = n - 1 - x;
        let q = c / p;
        assert(0 <= q <= c) by (nonlinear_arith)
            requires
                p > 0,
                c >= 0,
                q == c / p,
        ;
        vstd::arithmetic::div_mod::lemma_fundamental_div_mod(c, p);
        assert(0 <= c % p < p) by (nonlinear_arith)
            requires
                p > 0,
        ;
        assert(sx == p * (-1 - q) + (p - 1 - c % p)) by (nonlinear_arith)
            requires
                sx == -1 - c,
                c == p * q + c % p,
        ;
        vstd::arithmetic::div_mod::lemma_fundamental_div_mod_converse(sx, p, -1 - q, p - 1 - c % p);
        assert(sx / p == -1 - q);
        assert((-1 - q) % n == n - 1 - q);
    }
}

/// The negative of a value and the value are zero together, its complement and it are
/// all ones; a test of bits is one exactly where both values have a bit in common, and
/// any other comparison of flags where they differ.
pub proof fn values_have_negatives_and_complements(v: u128, b: u128)
    ensures
        (v + unary_value(UnOp::Neg, v)) % (u128::MAX + 1) == 0,
        v + unary_value(UnOp::Not, v) == u128::MAX,
        compare_value(CmpKind::Cmp, v, b) == if v == b { 0u128 } else { 1u128 },
        compare_value(CmpKind::Result, v, b) == if v == b { 0u128 } else { 1u128 },
        compare_value(CmpKind::Test, v, b) == if v & b == 0 { 0u128 } else { 1u128 },
        compare_value(CmpKind::LogicalResult, v, b) == if v & b == 0 { 0u128 } else { 1u128 },
{
}

/// A bit of a conjunction is set where both have it, of a disjunction where one has
/// it, of an exclusive one where just one has it. All 128 bits take part.
pub proof fn bits_are_combined_one_by_one(a: u128, b: u128, va: Va, k: u128)
    requires
        k < 128,
    ensures
        ({
            let bit = |v: u128| (v >> k) & 1 == 1;
            &&& binary_value(BinOp::And, a, b, va) matches Ok(v) && (bit(v) <==> bit(a) && bit(b))
            &&& binary_value(BinOp::Or, a, b, va) matches Ok(v) && (bit(v) <==> bit(a) || bit(b))
            &&& binary_value(BinOp::Xor, a, b, va) matches Ok(v) && (bit(v) <==> bit(a) != bit(b))
        }),
{
    let x = a & b;
    let y = a | b;
    let z = a ^ b;
    assert((x >> k) & 1 == 1 <==> (a >> k) & 1 == 1 && (b >> k) & 1 == 1) by (bit_vector)
        requires
            x == a & b,
            k < 128,
    ;
    assert((y >> k) & 1 == 1 <==> (a >> k) & 1 == 1 || (b >> k) & 1 == 1) by (bit_vector)
        requires
            y == a | b,
            k < 128,
    ;
    assert((z >> k) & 1 == 1 <==> ((a >> k) & 1 == 1) != ((b >> k) & 1 == 1)) by (bit_vector)
        requires
            z == a ^ b,
            k < 128,
    ;
}

/// A constant is its number within its width; a widened value keeps its low bits; an
/// address is the value itself; what reads memory reads it at the low 64 bits of the
/// address, and an unknown is a fault.
pub proof fn other_values_are_what_they_say<C: CodeProvider>(
    w: World<C>,
    value: i128,
    bits: u32,
    signed: bool,
    e: Box<MicroExpr>,
    s: String,
    va: Va,
    depth: nat,
    m: Machine,
)
    ensures
        ({
            let (x, m1) = eval_of(w, *e, va, depth, m);
            let addr_of = eval_of(w, MicroExpr::AddrOf(e), va, depth, m);
            let cast = eval_of(w, MicroExpr::Cast { signed, bits, expr: e }, va, depth, m);
            let load = eval_of(w, MicroExpr::Load { addr: e, bits, signed }, va, depth, m);
            let neg = eval_of(w, MicroExpr::Unary(UnOp::Neg, e), va, depth, m);
            let not = eval_of(w, MicroExpr::Unary(UnOp::Not, e), va, depth, m);
            &&& addr_of == (x, m1)
            &&& x is Err ==> cast == (x, m1) && load == (x, m1) && neg == (x, m1) && not == (x, m1)
            &&& x matches Ok(v) ==> {
                &&& cast == (Ok::<u128, Fault>(extend_of(v, bits, signed)), m1)
                &&& neg == (Ok::<u128, Fault>(unary_value(UnOp::Neg, v)), m1)
                &&& not == (Ok::<u128, Fault>(unary_value(UnOp::Not, v)), m1)
                &&& bits <= 128 ==> match loaded(w.backing, m1.written, (v % 0x1_0000_0000_0000_0000) as u64, bits) {
                    Some(n) => load.0 == Ok::<u128, Fault>(extend_of(n, bits, signed)),
                    None => load.0 == Err::<u128, Fault>(
                        Fault::UnreadableMemory((v % 0x1_0000_0000_0000_0000) as u64, bits),
                    ),
                }
                &&& bits > 128 ==> load == (Err::<u128, Fault>(Fault::WidthNotModelled(bits)), m1)
                &&& load.1.regs == m1.regs && load.1.written == m1.written
            }
            &&& 0 < bits < 128 ==> eval_of(w, MicroExpr::Const { value, bits }, va, depth, m) == (
                Ok::<u128, Fault>((value as int % pow2(bits as nat) as int) as u128),
                m,
            )
            &&& eval_of(w, MicroExpr::Unknown(s), va, depth, m) == (Err::<u128, Fault>(Fault::UnknownExpr(s@)), m)
            &&& eval_of(w, MicroExpr::OpaqueFlags { mnemonic: s }, va, depth, m) == (
                Err::<u128, Fault>(Fault::OpaqueFlags(s@)),
                m,
            )
        }),
{
    if 0 < bits < 128 {
        let p = pow2(bits as nat) as int;
        vstd::arithmetic::power2::lemma_pow2_pos(bits as nat);
        let n = u128::MAX + 1;
        assert(pow2(128) == n) by {
            vstd::arithmetic::power2::lemma2_to64();
            vstd::arithmetic::power2::lemma_pow2_adds(64, 64);
        }
        vstd::arithmetic::power2::lemma_pow2_adds(bits as nat, (128 - bits) as nat);
        let h = pow2((128 - bits) as nat) as int;
        assert(n == p * h);
        if value < 0 {
            assert((value + n) % p == value as int % p) by {
                vstd::arithmetic::div_mod::lemma_mod_multiples_vanish(h, value as int, p);
                assert(p * h + value == value + n);
            }
        }
    }
}

/// A variable that holds a value has that value, and reading it changes nothing. One
/// that holds none is a fault, unless registers may be invented and the name is one
/// with which the function is entered: it then holds the invented value from there on.
pub proof fn variables_have_their_values<C: CodeProvider>(w: World<C>, name: String, va: Va, depth: nat, m: Machine)
    ensures
        ({
            let (x, m1) = eval_of(w, MicroExpr::Var(name), va, depth, m);
            let known = m.regs.vars.contains_key(name@);
            let entry = match last_index(name@, seq!['.']) {
                Some(k) => name@.skip(k + 1) == seq!['0'],
                None => true,
            };
            &&& known ==> x == Ok::<u128, Fault>(m.regs.vars[name@]) && m1 == m
            &&& !known && !(w.cfg.entry_scratch && entry) ==> x == Err::<u128, Fault>(Fault::UndefinedVar(name@)) && m1
                == m
            &&& !known && w.cfg.entry_scratch && entry ==> {
                &&& x is Ok
                &&& m1.regs.vars == m.regs.vars.insert(name@, x->Ok_0)
                &&& m1.invented == m.invented.push(name@)
                &&& m1.written == m.written
                &&& x->Ok_0 >= 0xA5A5_0000_0000_0000 && x->Ok_0 <= 0xA5A5_FFFF_FFFF_FFFF
            }
        }),
{
    reveal_strlit("0");
    assert("0"@ =~= seq!['0']);
}

/// Assigning a value makes the variable hold it, and the register that the name is a
/// version of; every other variable stays as evaluating the value left it. A fault
/// assigns nothing, but that a value which is only flags leaves the variable undefined.
pub proof fn assignments_set_their_variable<C: CodeProvider>(
    w: World<C>,
    b: SsaBlock,
    i: int,
    depth: nat,
    m: Machine,
    other: Seq<char>,
)
    requires
        0 <= i < b.stmts@.len(),
        b.stmts@[i].stmt is Assign,
        !is_clobber(b.stmts@[i].stmt->Assign_value),
        root_name(b.stmts@[i].stmt->Assign_dst@) != "flags"@,
    ensures
        ({
            let dst = b.stmts@[i].stmt->Assign_dst@;
            let (x, m1) = eval_of(w, b.stmts@[i].stmt->Assign_value, b.stmts@[i].va, depth, m);
            let (flow, n) = stmt_of(w, b, i, depth, m);
            &&& n.written == m1.written && n.touched == m1.touched && n.calls == m1.calls
            &&& x matches Ok(v) ==> {
                &&& flow is Next
                &&& n.regs.vars.contains_key(dst) && n.regs.vars[dst] == v
                &&& n.regs.arch.contains_key(root_name(dst)) && n.regs.arch[root_name(dst)] == v
                &&& other != dst ==> (n.regs.vars.contains_key(other) <==> m1.regs.vars.contains_key(other))
                &&& other != dst && m1.regs.vars.contains_key(other) ==> n.regs.vars[other] == m1.regs.vars[other]
            }
            &&& x is Err && !(x->Err_0 is OpaqueFlags) ==> flow == Flow::Failed(x->Err_0) && n == m1
            &&& x is Err && x->Err_0 is OpaqueFlags ==> flow is Next && !n.regs.vars.contains_key(dst)
                && !n.regs.arch.contains_key(root_name(dst))
        }),
{
}

/// A register that a call may have destroyed holds what the last callee left in it,
/// and is undefined where that is not known. Flags are never held as a number.
pub proof fn clobbered_registers_are_what_the_callee_left<C: CodeProvider>(
    w: World<C>,
    b: SsaBlock,
    i: int,
    depth: nat,
    m: Machine,
)
    requires
        0 <= i < b.stmts@.len(),
        b.stmts@[i].stmt is Assign,
    ensures
        ({
            let dst = b.stmts@[i].stmt->Assign_dst@;
            let (flow, n) = stmt_of(w, b, i, depth, m);
            &&& is_clobber(b.stmts@[i].stmt->Assign_value) ==> {
                &&& flow is Next
                &&& m.after_call is Some && m.after_call->0.contains_key(root_name(dst)) ==> n.regs.vars.contains_key(dst)
                    && n.regs.vars[dst] == m.after_call->0[root_name(dst)]
                &&& !(m.after_call is Some && m.after_call->0.contains_key(root_name(dst))) ==> !n.regs.vars.contains_key(dst)
            }
            &&& !is_clobber(b.stmts@[i].stmt->Assign_value) && root_name(dst) == "flags"@ ==> flow is Next
                && !n.regs.vars.contains_key(dst)
        }),
{
}

/// A store writes the low bytes of its value at its address, lowest first, and leaves
/// every other byte; the address is taken before the value.
pub proof fn stores_write_memory<C: CodeProvider>(w: World<C>, b: SsaBlock, i: int, depth: nat, m: Machine, k: u64)
    requires
        0 <= i < b.stmts@.len(),
        b.stmts@[i].stmt is Store,
    ensures
        ({
            let bits = b.stmts@[i].stmt->Store_bits;
            let (x, m1) = eval_of(w, b.stmts@[i].stmt->Store_addr, b.stmts@[i].va, depth, m);
            let (y, m2) = eval_of(w, b.stmts@[i].stmt->Store_value, b.stmts@[i].va, depth, m1);
            let (flow, n) = stmt_of(w, b, i, depth, m);
            &&& bits > 128 ==> flow == Flow::Failed(Fault::WidthNotModelled(bits)) && n == m
            &&& bits <= 128 && x is Err ==> flow == Flow::Failed(x->Err_0) && n == m1
            &&& bits <= 128 && x is Ok && y is Err ==> flow == Flow::Failed(y->Err_0) && n == m2
            &&& bits <= 128 && x is Ok && y is Ok ==> {
                let a = (x->Ok_0 % 0x1_0000_0000_0000_0000) as u64;
                &&& flow is Next
                &&& n.regs == m2.regs
                &&& loaded(w.backing, n.written, a, bits) == Some(
                    (y->Ok_0 as int % vstd::arithmetic::power::pow(256, span(bits))) as u128,
                )
                &&& crate::memory::distance(a, k) >= span(bits) ==> {
                    &&& n.written.contains_key(k) == m2.written.contains_key(k)
                    &&& m2.written.contains_key(k) ==> n.written[k] == m2.written[k]
                }
            }
        }),
{
    let bits = b.stmts@[i].stmt->Store_bits;
    let (x, m1) = eval_of(w, b.stmts@[i].stmt->Store_addr, b.stmts@[i].va, depth, m);
    let (y, m2) = eval_of(w, b.stmts@[i].stmt->Store_value, b.stmts@[i].va, depth, m1);
    if bits <= 128 && x is Ok && y is Ok {
        let a = (x->Ok_0 % 0x1_0000_0000_0000_0000) as u64;
        crate::memory::a_read_gives_back_the_write(w.backing, m2.written, a, y->Ok_0, bits);
    }
}

/// A return ends the activation with the low 64 bits of its value, or with none; a
/// statement that does nothing changes nothing; one that was not lifted is a fault.
pub proof fn other_statements_do_what_they_say<C: CodeProvider>(w: World<C>, b: SsaBlock, i: int, depth: nat, m: Machine)
    requires
        0 <= i < b.stmts@.len(),
    ensures
        ({
            let (flow, n) = stmt_of(w, b, i, depth, m);
            match b.stmts@[i].stmt {
                MicroStmt::Return(Some(e)) => match eval_of(w, e, b.stmts@[i].va, depth, m) {
                    (Ok(v), m1) => flow == Flow::Returned(Some((v % 0x1_0000_0000_0000_0000) as u64)) && n == m1,
                    (Err(f), m1) => flow == Flow::Failed(f) && n == m1,
                },
                MicroStmt::Return(None) => flow == Flow::Returned(None) && n == m,
                MicroStmt::Nop => flow is Next && n == m,
                MicroStmt::Unlifted { va, text } => flow == Flow::Failed(Fault::Unlifted(va, text@)) && n == m,
                _ => true,
            }
        }),
{
}

/// The result of a call is held by the variable that the statement names; a callee
/// that returned nothing leaves it undefined.
pub proof fn calls_hand_back_their_result<C: CodeProvider>(
    w: World<C>,
    b: SsaBlock,
    i: int,
    depth: nat,
    m: Machine,
)
    requires
        0 <= i < b.stmts@.len(),
        b.stmts@[i].stmt is Call,
    ensures
        ({
            let s = b.stmts@[i].stmt;
            let (out, m1) = call_of(w, s->Call_target, s->Call_args, b.stmts@[i].va, return_of(b, i), depth, m);
            let (flow, n) = stmt_of(w, b, i, depth, m);
            &&& out is Err ==> flow == Flow::Failed(out->Err_0) && n == m1
            &&& out is Ok ==> flow is Next && n.written == m1.written
            &&& out is Ok && s->ret is None ==> n == m1
            &&& out is Ok && s->ret is Some && out->Ok_0 is Some ==> n.regs.vars.contains_key(s->ret->0@)
                && n.regs.vars[s->ret->0@] == out->Ok_0->0
            &&& out is Ok && s->ret is Some && out->Ok_0 is None ==> !n.regs.vars.contains_key(s->ret->0@)
        }),
{
}

proof fn lemma_first_edge(edges: Seq<Successor>, a: Seq<char>, b: Seq<char>, from: int, k: int)
    requires
        0 <= from <= k < edges.len(),
        edges[k].kind@ == a || edges[k].kind@ == b,
        forall|j: int| from <= j < k ==> (#[trigger] edges[j]).kind@ != a && edges[j].kind@ != b,
    ensures
        edge_of(edges, a, b, from) == Some(edges[k].to),
    decreases k - from,
{
    if from < k {
        lemma_first_edge(edges, a, b, from + 1, k);
    }
}

proof fn lemma_no_edge(edges: Seq<Successor>, a: Seq<char>, b: Seq<char>, from: int)
    requires
        0 <= from,
        forall|j: int| from <= j < edges.len() ==> (#[trigger] edges[j]).kind@ != a && edges[j].kind@ != b,
    ensures
        edge_of(edges, a, b, from) is None,
    decreases edges.len() - from,
{
    if from < edges.len() {
        lemma_no_edge(edges, a, b, from + 1);
    }
}

proof fn lemma_first_at(blocks: Seq<SsaBlock>, va: Va, from: int, k: int)
    requires
        0 <= from <= k < blocks.len(),
        blocks[k].start == va,
        forall|j: int| from <= j < k ==> (#[trigger] blocks[j]).start != va,
    ensures
        id_at(blocks, va, from) == Some(blocks[k].id),
    decreases k - from,
{
    if from < k {
        lemma_first_at(blocks, va, from + 1, k);
    }
}

/// The edge `k` is the first of one of two kinds, and block `n` the first that starts
/// where it leads.
pub open spec fn leads_first(
    blocks: Seq<SsaBlock>,
    edges: Seq<Successor>,
    a: Seq<char>,
    b: Seq<char>,
    k: int,
    n: int,
) -> bool {
    &&& 0 <= k < edges.len()
    &&& edges[k].kind@ == a || edges[k].kind@ == b
    &&& forall|j: int| 0 <= j < k ==> (#[trigger] edges[j]).kind@ != a && edges[j].kind@ != b
    &&& 0 <= n < blocks.len()
    &&& blocks[n].start == edges[k].to
    &&& forall|j: int| 0 <= j < n ==> (#[trigger] blocks[j]).start != edges[k].to
}

/// A conditional jump follows the edge of the side that is taken where its condition
/// is not zero, and that of the other side where it is; without such an edge, or
/// without a condition, the run ends.
pub proof fn branches_follow_their_condition<C: CodeProvider>(
    w: World<C>,
    blocks: Seq<SsaBlock>,
    b: SsaBlock,
    depth: nat,
    m: Machine,
    k: int,
    n: int,
)
    requires
        b.terminator@ == "cjmp"@,
    ensures
        b.condition is None ==> successor_of(w, blocks, b, depth, m) == (
            Err::<usize, Fault>(Fault::NoCondition(b.id)),
            m,
        ),
        b.condition matches Some(c) ==> {
            let (x, m1) = eval_of(w, c, b.end, depth, m);
            let next = successor_of(w, blocks, b, depth, m);
            &&& next.1 == m1
            &&& x matches Err(f) ==> next.0 == Err::<usize, Fault>(f)
            &&& x is Ok && x->Ok_0 > 0 && leads_first(blocks, b.successors@, "cjmp-true"@, "cjmp-true"@, k, n)
                ==> next.0 == Ok::<usize, Fault>(blocks[n].id)
            &&& x == Ok::<u128, Fault>(0) && leads_first(blocks, b.successors@, "cjmp-false"@, "cjmp-false"@, k, n)
                ==> next.0 == Ok::<usize, Fault>(blocks[n].id)
            &&& x is Ok && x->Ok_0 > 0 && (forall|j: int|
                0 <= j < b.successors@.len() ==> (#[trigger] b.successors@[j]).kind@ != "cjmp-true"@) ==> next.0 is Err
            &&& x == Ok::<u128, Fault>(0) && (forall|j: int|
                0 <= j < b.successors@.len() ==> (#[trigger] b.successors@[j]).kind@ != "cjmp-false"@) ==> next.0 is Err
        },
{
    let e = b.successors@;
    let t = "cjmp-true"@;
    let f = "cjmp-false"@;
    if leads_first(blocks, e, t, t, k, n) {
        lemma_first_edge(e, t, t, 0, k);
        lemma_first_at(blocks, e[k].to, 0, n);
    }
    if leads_first(blocks, e, f, f, k, n) {
        lemma_first_edge(e, f, f, 0, k);
        lemma_first_at(blocks, e[k].to, 0, n);
    }
    if forall|j: int| 0 <= j < e.len() ==> (#[trigger] e[j]).kind@ != t {
        lemma_no_edge(e, t, t, 0);
    }
    if forall|j: int| 0 <= j < e.len() ==> (#[trigger] e[j]).kind@ != f {
        lemma_no_edge(e, f, f, 0);
    }
}

/// A block that falls through or jumps is followed by the one that its edge leads to.
/// Any other block that is neither a conditional nor an indirect jump has no successor.
pub proof fn plain_blocks_follow_their_edge<C: CodeProvider>(
    w: World<C>,
    blocks: Seq<SsaBlock>,
    b: SsaBlock,
    depth: nat,
    m: Machine,
    k: int,
    n: int,
)
    requires
        b.terminator@ != "cjmp"@,
        b.terminator@ != "ijmp"@,
    ensures
        successor_of(w, blocks, b, depth, m).1 == m,
        (b.terminator@ == "fall"@ || b.terminator@ == "jmp"@) && leads_first(
            blocks,
            b.successors@,
            "fall"@,
            "jmp"@,
            k,
            n,
        ) ==> successor_of(w, blocks, b, depth, m).0 == Ok::<usize, Fault>(blocks[n].id),
        b.terminator@ != "fall"@ && b.terminator@ != "jmp"@ ==> successor_of(w, blocks, b, depth, m).0 == Err::<
            usize,
            Fault,
        >(Fault::NoSuccessor(b.id, b.terminator@)),
{
    let e = b.successors@;
    if leads_first(blocks, e, "fall"@, "jmp"@, k, n) {
        lemma_first_edge(e, "fall"@, "jmp"@, 0, k);
        lemma_first_at(blocks, e[k].to, 0, n);
    }
}

proof fn lemma_jump_value(stmts: Seq<SsaStmt>, k: int, i: int)
    requires
        0 <= i < k <= stmts.len(),
        stmts[i].stmt is Assign,
        root_name(stmts[i].stmt->Assign_dst@) == JUMP_TARGET_VAR@,
        forall|j: int|
            i < j < k ==> !((#[trigger] stmts[j]).stmt is Assign && root_name(stmts[j].stmt->Assign_dst@)
                == JUMP_TARGET_VAR@),
    ensures
        jump_value(stmts, k) == Some(stmts[i].stmt->Assign_value),
    decreases k,
{
    if k - 1 > i {
        assert(!(stmts[k - 1].stmt is Assign && root_name(stmts[k - 1].stmt->Assign_dst@) == JUMP_TARGET_VAR@));
        lemma_jump_value(stmts, k - 1, i);
    }
}

/// An indirect jump goes to the address that was assigned last to its target, and only
/// along an edge of its block: an address that no edge leads to, or at which no block
/// starts, ends the run.
pub proof fn indirect_jumps_keep_to_their_edges<C: CodeProvider>(
    w: World<C>,
    blocks: Seq<SsaBlock>,
    b: SsaBlock,
    depth: nat,
    m: Machine,
    i: int,
    n: int,
)
    requires
        b.terminator@ == "ijmp"@,
        0 <= i < b.stmts@.len(),
        b.stmts@[i].stmt is Assign,
        root_name(b.stmts@[i].stmt->Assign_dst@) == "jump_target"@,
        forall|j: int|
            i < j < b.stmts@.len() ==> !((#[trigger] b.stmts@[j]).stmt is Assign && root_name(
                b.stmts@[j].stmt->Assign_dst@,
            ) == "jump_target"@),
    ensures
        ({
            let (x, m1) = eval_of(w, b.stmts@[i].stmt->Assign_value, b.end, depth, m);
            let next = successor_of(w, blocks, b, depth, m);
            let to = (x->Ok_0 % 0x1_0000_0000_0000_0000) as u64;
            &&& next.1 == m1
            &&& x matches Err(f) ==> next.0 == Err::<usize, Fault>(f)
            &&& x is Ok && b.successors@.len() == 0 ==> next.0 == Err::<usize, Fault>(Fault::UnresolvedJump(b.id, to))
            &&& x is Ok && b.successors@.len() > 0 && (forall|k: int|
                0 <= k < b.successors@.len() ==> (#[trigger] b.successors@[k]).to.0 != to) ==> next.0 == Err::<
                usize,
                Fault,
            >(Fault::UnrecordedJump(b.id, to))
            &&& x is Ok && (exists|k: int| 0 <= k < b.successors@.len() && (#[trigger] b.successors@[k]).to.0 == to) && 0
                <= n < blocks.len() && blocks[n].start.0 == to && (forall|j: int|
                0 <= j < n ==> (#[trigger] blocks[j]).start.0 != to) ==> next.0 == Ok::<usize, Fault>(blocks[n].id)
        }),
{
    reveal_strlit("cjmp");
    reveal_strlit("ijmp");
    assert("cjmp"@[0] != "ijmp"@[0]);
    lemma_jump_value(b.stmts@, b.stmts@.len() as int, i);
    let (x, m1) = eval_of(w, b.stmts@[i].stmt->Assign_value, b.end, depth, m);
    let to = (x->Ok_0 % 0x1_0000_0000_0000_0000) as u64;
    if 0 <= n < blocks.len() && blocks[n].start.0 == to && (forall|j: int|
        0 <= j < n ==> (#[trigger] blocks[j]).start.0 != to) {
        lemma_first_at(blocks, Va(to), 0, n);
    }
}

proof fn lemma_phis_read<C>(w: World<C>, phis: Seq<Phi>, k: int, from: usize, m: Machine)
    requires
        !w.cfg.entry_scratch,
        0 <= k <= phis.len(),
        phis_read(w, phis, k, from, m).0 is Ok,
    ensures
        phis_read(w, phis, k, from, m).1 == m,
        phis_read(w, phis, k, from, m).0->Ok_0.len() == k,
        forall|j: int|
            0 <= j < k ==> {
                let input = input_of((#[trigger] phis[j]).inputs@, from, 0);
                let v = phis_read(w, phis, k, from, m).0->Ok_0[j];
                &&& input is Some
                &&& m.regs.vars.contains_key(input->0) ==> v == Some(m.regs.vars[input->0])
                &&& !m.regs.vars.contains_key(input->0) ==> v is None
            },
    decreases k,
{
    if k > 0 {
        lemma_phis_read(w, phis, k - 1, from, m);
        let done = phis_read(w, phis, k - 1, from, m).0->Ok_0;
        let all = phis_read(w, phis, k, from, m).0->Ok_0;
        assert forall|j: int| 0 <= j < k implies {
            let input = input_of((#[trigger] phis[j]).inputs@, from, 0);
            let v = all[j];
            &&& input is Some
            &&& m.regs.vars.contains_key(input->0) ==> v == Some(m.regs.vars[input->0])
            &&& !m.regs.vars.contains_key(input->0) ==> v is None
        } by {
            if j < k - 1 {
                assert(all[j] == done[j]);
            }
        }
    }
}

proof fn lemma_phis_written(phis: Seq<Phi>, vals: Seq<Option<u128>>, k: int, r: Regs, j: int)
    requires
        0 <= j < k <= phis.len(),
        vals.len() == phis.len(),
        forall|a: int, b: int| 0 <= a < b < phis.len() ==> (#[trigger] phis[a]).dst@ != (#[trigger] phis[b]).dst@,
    ensures
        ({
            let n = phis_written(phis, vals, k, r);
            &&& vals[j] is Some ==> n.vars.contains_key(phis[j].dst@) && n.vars[phis[j].dst@] == vals[j]->0
            &&& vals[j] is None ==> !n.vars.contains_key(phis[j].dst@)
        }),
    decreases k,
{
    if j < k - 1 {
        lemma_phis_written(phis, vals, k - 1, r, j);
        assert(phis[j].dst@ != phis[k - 1].dst@);
    }
}

proof fn lemma_first_input(inputs: Seq<PhiInput>, from: usize, k: int, i: int)
    requires
        0 <= k <= i < inputs.len(),
        inputs[i].from_block == from,
        forall|j: int| k <= j < i ==> (#[trigger] inputs[j]).from_block != from,
    ensures
        input_of(inputs, from, k) == Some(inputs[i].value@),
    decreases i - k,
{
    if k < i {
        lemma_first_input(inputs, from, k + 1, i);
    }
}

/// On the way into a block every phi takes what its input for the block behind held
/// before any of them was written; one whose input held nothing holds nothing.
pub proof fn phis_take_what_was_there_before<C>(
    w: World<C>,
    b: SsaBlock,
    from: usize,
    m: Machine,
    k: int,
    i: int,
)
    requires
        !w.cfg.entry_scratch,
        enter_of(w, b, Some(from), m).0 is Ok,
        forall|x: int, y: int|
            0 <= x < y < b.phis@.len() ==> (#[trigger] b.phis@[x]).dst@ != (#[trigger] b.phis@[y]).dst@,
        0 <= k < b.phis@.len(),
        0 <= i < b.phis@[k].inputs@.len(),
        b.phis@[k].inputs@[i].from_block == from,
        forall|j: int| 0 <= j < i ==> (#[trigger] b.phis@[k].inputs@[j]).from_block != from,
    ensures
        ({
            let n = enter_of(w, b, Some(from), m).1;
            let input = b.phis@[k].inputs@[i].value@;
            let dst = b.phis@[k].dst@;
            &&& m.regs.vars.contains_key(input) ==> n.regs.vars.contains_key(dst) && n.regs.vars[dst]
                == m.regs.vars[input]
            &&& !m.regs.vars.contains_key(input) ==> !n.regs.vars.contains_key(dst)
            &&& n.written == m.written
        }),
{
    let n = b.phis@.len() as int;
    lemma_phis_read(w, b.phis@, n, from, m);
    let vals = phis_read(w, b.phis@, n, from, m).0->Ok_0;
    lemma_first_input(b.phis@[k].inputs@, from, 0, i);
    lemma_phis_written(b.phis@, vals, n, m.regs, k);
}

/// Where calls are refused, every call is a fault that changes nothing. A callee that
/// has neither a body nor a stated value is one, too, and so is a body that would nest
/// too deep.
pub proof fn calls_without_a_callee_fail<C: CodeProvider>(
    w: World<C>,
    callee: Va,
    args: Vec<MicroExpr>,
    va: Va,
    return_to: Option<Va>,
    depth: nat,
    m: Machine,
)
    ensures
        ({
            let (out, n) = call_of(w, CallTarget::Direct { va: callee }, args, va, return_to, depth, m);
            let body = w.code is Some && w.code->0.body_of(callee) is Some;
            &&& w.cfg.calls == CallPolicy::Refuse ==> out is Err && n == m
            &&& w.cfg.calls != CallPolicy::Refuse && w.code is None ==> out is Err
            &&& w.cfg.calls != CallPolicy::Refuse && body && depth >= w.limit() ==> out == Err::<Option<u64>, Fault>(
                Fault::CallDepthExceeded(w.limit() as usize, callee),
            ) && n == m
            &&& w.cfg.calls != CallPolicy::Refuse && body && depth < w.limit() && !m.regs.arch.contains_key("rsp"@)
                ==> out == Err::<Option<u64>, Fault>(Fault::UndefinedVar("rsp"@))
        }),
{
}

/// A callee without a body gives the value that is stated for its arguments: the low
/// 64 bits of each, in order, and nothing for one that has no value. The caller's
/// registers and memory stay as evaluating the arguments left them.
pub proof fn stubs_answer_with_their_value<C: CodeProvider>(
    w: World<C>,
    callee: Va,
    args: Vec<MicroExpr>,
    va: Va,
    return_to: Option<Va>,
    depth: nat,
    m: Machine,
    v: u64,
)
    requires
        w.cfg.calls != CallPolicy::Refuse,
        w.code is Some,
        w.code->0.body_of(callee) is None,
        argv_of(w, args, args@.len(), va, depth, m).0 is Ok,
        w.code->0.stub_of(callee, argv_of(w, args, args@.len(), va, depth, m).0->Ok_0) == Some(v),
    ensures
        ({
            let (out, n) = call_of(w, CallTarget::Direct { va: callee }, args, va, return_to, depth, m);
            let m1 = argv_of(w, args, args@.len(), va, depth, m).1;
            &&& out == Ok::<Option<u64>, Fault>(Some(v))
            &&& n.regs == m1.regs && n.written == m1.written && n.calls == m1.calls
            &&& n.after_call is None
            &&& m1.stubbed < usize::MAX ==> n.stubbed == m1.stubbed + 1
        }),
{
}

/// The arguments of a stub are as many as the call has; each is the low half of its
/// value, or nothing.
pub proof fn stub_arguments_are_the_values<C: CodeProvider>(
    w: World<C>,
    args: Vec<MicroExpr>,
    k: nat,
    va: Va,
    depth: nat,
    m: Machine,
)
    requires
        0 < k <= args@.len(),
        argv_of(w, args, k, va, depth, m).0 is Ok,
    ensures
        ({
            let before = argv_of(w, args, (k - 1) as nat, va, depth, m);
            let all = argv_of(w, args, k, va, depth, m).0->Ok_0;
            let (x, m1) = eval_of(w, args@[k - 1], va, depth, before.1);
            &&& before.0 is Ok
            &&& all.len() == k
            &&& all.drop_last() == before.0->Ok_0
            &&& x is Ok ==> all.last() == Some((x->Ok_0 % 0x1_0000_0000_0000_0000) as u64)
            &&& x is Err ==> all.last() is None
            &&& argv_of(w, args, k, va, depth, m).1 == m1
        }),
    decreases k,
{
    let before = argv_of(w, args, (k - 1) as nat, va, depth, m);
    if k > 1 {
        stub_arguments_are_the_values(w, args, (k - 1) as nat, va, depth, m);
    }
    let all = argv_of(w, args, k, va, depth, m).0->Ok_0;
    assert(all.drop_last() =~= before.0->Ok_0);
}

/// The entry state of a callee whose caller's registers are `arch`, with the stack
/// pointer at `sp`.
pub open spec fn entered_with(r: Regs, arch: Map<Seq<char>, u128>, sp: u64) -> bool {
    &&& r.vars.contains_key("rsp"@) && r.vars["rsp"@] == sp
    &&& r.arch.contains_key("rsp"@) && r.arch["rsp"@] == sp
    &&& forall|n: Seq<char>|
        #[trigger] arch.contains_key(n) && root_name(n) == n && n != "rsp"@ && n != "esp"@ && n != "sp"@
            ==> r.arch.contains_key(n) && r.arch[n] == arch[n] && r.vars.contains_key(n) && r.vars[n] == arch[n]
            && r.vars.contains_key(n + ".0"@) && r.vars[n + ".0"@] == arch[n]
}

proof fn lemma_entry_name_differs(n: Seq<char>, s: Seq<char>)
    requires
        n != s,
    ensures
        n + ".0"@ != s + ".0"@,
{
    reveal_strlit(".0");
    if n + ".0"@ == s + ".0"@ {
        assert((n + ".0"@).len() == (s + ".0"@).len());
        assert forall|i: int| 0 <= i < n.len() implies n[i] == s[i] by {
            assert((n + ".0"@)[i] == (s + ".0"@)[i]);
        }
        assert(n =~= s);
    }
}

proof fn lemma_entered(arch: Map<Seq<char>, u128>, sp: u64)
    requires
        bare_names(arch),
    ensures
        entered_with(with_stack(entry_regs(arch), sp), arch, sp),
{
    reveal_strlit("rsp");
    reveal_strlit("esp");
    reveal_strlit("sp");
    reveal_strlit(".0");
    let e = entry_regs(arch);
    let r = with_stack(e, sp);
    assert(root_name("rsp"@) == "rsp"@ && root_name("esp"@) == "esp"@ && root_name("sp"@) == "sp"@) by {
        crate::text::lemma_first_from("rsp"@, '.', 0);
        crate::text::lemma_first_from("esp"@, '.', 0);
        crate::text::lemma_first_from("sp"@, '.', 0);
    }
    assert("rsp"@ != "esp"@) by {
        assert("rsp"@[0] != "esp"@[0]);
    }
    assert("rsp"@.len() == 3 && "esp"@.len() == 3 && "sp"@.len() == 2);
    assert(("esp"@ + ".0"@).len() == 5 && ("sp"@ + ".0"@).len() == 4 && ("rsp"@ + ".0"@).len() == 5);
    assert forall|n: Seq<char>| #[trigger]
        arch.contains_key(n) && root_name(n) == n && n != "rsp"@ && n != "esp"@ && n != "sp"@ implies r.arch.contains_key(n)
        && r.arch[n] == arch[n] && r.vars.contains_key(n) && r.vars[n] == arch[n] && r.vars.contains_key(n + ".0"@)
        && r.vars[n + ".0"@] == arch[n] by {
        let v = n + ".0"@;
        assert(v.take(v.len() - 2) =~= n);
        assert(ends(v, ".0"@)) by {
            assert(v.skip(v.len() - 2) =~= ".0"@);
            assert(v.subrange(v.len() - 2, v.len() as int) =~= ".0"@);
        }
        lemma_entry_name_differs(n, "rsp"@);
        lemma_entry_name_differs(n, "esp"@);
        lemma_entry_name_differs(n, "sp"@);
        // A name without a version is not a version of another.
        crate::text::lemma_first_from(n, '.', 0);
        crate::text::lemma_first_from(v, '.', 0);
        assert(v[n.len() as int] == '.');
        if arch.contains_key(v) {
            assert(root_name(v) == v);
            assert(crate::text::first_index(v, '.') is Some);
            assert(v.take(crate::text::first_index(v, '.')->0).len() < v.len());
        }
        assert forall|s: Seq<char>| #[trigger] (s + ".0"@) == n implies false by {
            assert(n[s.len() as int] == '.');
        }
        assert(n != "rsp"@ + ".0"@ && n != "esp"@ + ".0"@ && n != "sp"@ + ".0"@);
        assert(v != "rsp"@ && v != "esp"@ && v != "sp"@) by {
            assert(v[n.len() as int] == '.');
        }
    }
}

/// A callee with a body runs on its caller's registers, with the stack pointer moved
/// down by a word and the return address written there. What it returns is the result
/// of the call. The caller's own registers are then as they were, and what the callee
/// left in the registers is known.
pub proof fn callees_run_on_the_callers_registers<C: CodeProvider>(
    w: World<C>,
    callee: Va,
    args: Vec<MicroExpr>,
    va: Va,
    to: Va,
    depth: nat,
    m: Machine,
) -> (s: Machine)
    requires
        w.cfg.calls != CallPolicy::Refuse,
        w.code is Some,
        w.code->0.body_of(callee) is Some,
        depth < w.limit(),
        m.regs.arch.contains_key("rsp"@),
        bare_names(m.regs.arch),
        args@.len() == 0,
        m.calls < usize::MAX,
        w.cfg.word_bits == 64,
    ensures
        ({
            let (out, n) = call_of(w, CallTarget::Direct { va: callee }, args, va, Some(to), depth, m);
            let (ran, t) = run_of(w, w.code->0.body_of(callee)->0, depth + 1, s);
            let sp = (((m.regs.arch["rsp"@] as int % 0x1_0000_0000_0000_0000) - 8) % 0x1_0000_0000_0000_0000) as u64;
            &&& entered_with(s.regs, m.regs.arch, sp)
            &&& loaded(w.backing, s.written, sp, 64) == Some(to.0 as u128)
            &&& s.calls == m.calls + 1
            &&& out == ran
            &&& n.regs == m.regs
            &&& n.written == t.written
            &&& n.after_call == Some(t.regs.arch)
        }),
{
    let sp = pushed(m.regs.arch["rsp"@], w.cfg.word_bits);
    lemma_entered(m.regs.arch, sp);
    let entered = with_stack(entry_regs(m.regs.arch), sp);
    let m2 = store_of(sp, to.0 as u128, 64, m);
    crate::memory::a_read_gives_back_the_write(w.backing, m.written, sp, to.0 as u128, 64);
    assert(vstd::arithmetic::power::pow(256, 8) == 0x1_0000_0000_0000_0000) by {
        reveal_with_fuel(vstd::arithmetic::power::pow, 9);
    }
    assert(span(64) == 8);
    Machine { regs: entered, calls: bump(m2.calls), ..m2 }
}

/// An argument that has a value is laid onto the register of its place, under its name
/// and as an entry version; one that has none leaves the register as it was.
pub proof fn arguments_are_laid_onto_their_registers<C: CodeProvider>(
    w: World<C>,
    args: Vec<MicroExpr>,
    k: nat,
    va: Va,
    depth: nat,
    callee: Regs,
    m: Machine,
)
    requires
        0 < k <= args@.len(),
        passed(w, args, k, va, depth, callee, m).0 is Ok,
        passed(w, args, (k - 1) as nat, va, depth, callee, m).0 is Ok,
    ensures
        ({
            let (before, m1) = passed(w, args, (k - 1) as nat, va, depth, callee, m);
            let (after, m2) = passed(w, args, k, va, depth, callee, m);
            let (x, m3) = eval_of(w, args@[k - 1], va, depth, m1);
            let r = after->Ok_0;
            &&& k > w.arg_regs.len() ==> after == before
            &&& k <= w.arg_regs.len() && x is Ok ==> {
                let reg = w.arg_regs[k - 1];
                &&& r.vars.contains_key(reg) && (reg != reg + ".0"@ ==> r.vars[reg] == x->Ok_0)
                &&& r.vars.contains_key(reg + ".0"@) && r.vars[reg + ".0"@] == x->Ok_0
                &&& r.arch.contains_key(root_name(reg)) && r.arch[root_name(reg)] == x->Ok_0
            }
            &&& k <= w.arg_regs.len() && x is Err ==> after == before
        }),
{
}

/// A run begins at the block with the number 0, and without one there is nothing to
/// run. A block that returns ends the run with its value.
#[verifier::spinoff_prover]
#[verifier::rlimit(60)]
pub proof fn runs_begin_at_block_zero<C: CodeProvider>(
    w: World<C>,
    blocks: Seq<SsaBlock>,
    depth: nat,
    m: Machine,
    i: int,
)
    ensures
        (forall|k: int| 0 <= k < blocks.len() ==> (#[trigger] blocks[k]).id != 0) ==> run_of(w, blocks, depth, m) == (
            Err::<Option<u64>, Fault>(Fault::NoEntry),
            m,
        ),
        0 <= i < blocks.len() && blocks[i].id == 0 && (forall|k: int|
            i < k < blocks.len() ==> (#[trigger] blocks[k]).id != 0) && blocks[i].phis@.len() == 0 ==> {
            let m0 = Machine { blocks: bump(m.blocks), ..m };
            let (flow, n) = stmts_of(w, blocks[i], 0, depth, m0);
            &&& flow matches Flow::Returned(v) ==> run_of(w, blocks, depth, m) == (Ok::<Option<u64>, Fault>(v), n)
            &&& flow matches Flow::Failed(f) ==> run_of(w, blocks, depth, m) == (Err::<Option<u64>, Fault>(f), n)
        },
{
    lemma_block_with_id(blocks, 0, blocks.len() as int);
}

proof fn lemma_block_with_id(blocks: Seq<SsaBlock>, id: usize, k: int)
    requires
        0 <= k <= blocks.len(),
    ensures
        match block_with_id(blocks, id, k) {
            Some(i) => 0 <= i < k && blocks[i].id == id && forall|j: int| i < j < k ==> (#[trigger] blocks[j]).id != id,
            None => forall|j: int| 0 <= j < k ==> (#[trigger] blocks[j]).id != id,
        },
    decreases k,
{
    if k > 0 && blocks[k - 1].id != id {
        lemma_block_with_id(blocks, id, k - 1);
    }
}

/// Statements run one after the other, each counted as a step; once as many steps have
/// been counted as are allowed, the next one ends the run.
pub proof fn statements_run_in_turn<C: CodeProvider>(w: World<C>, b: SsaBlock, i: int, depth: nat, m: Machine)
    requires
        0 <= i < b.stmts@.len(),
    ensures
        ({
            let m1 = Machine { steps: (m.steps + 1) as usize, ..m };
            let (flow, n) = stmt_of(w, b, i, depth, m1);
            let all = stmts_of(w, b, i, depth, m);
            &&& m.steps >= w.cfg.max_steps ==> all.0 == Flow::Failed(Fault::StepLimit(w.cfg.max_steps))
            &&& m.steps < w.cfg.max_steps && flow is Next ==> all == stmts_of(w, b, i + 1, depth, n)
            &&& m.steps < w.cfg.max_steps && !(flow is Next) ==> all == (flow, n)
        }),
        stmts_of(w, b, b.stmts@.len() as int, depth, m) == (Flow::Next, m),
{
}

/// A run goes on from a block that neither returns nor fails to the block with the
/// number of its successor, and enters that one from it.
pub proof fn runs_go_from_block_to_block<C: CodeProvider>(
    w: World<C>,
    blocks: Seq<SsaBlock>,
    i: int,
    prev: Option<usize>,
    depth: nat,
    fuel: nat,
    m: Machine,
    next: int,
)
    requires
        0 <= i < blocks.len(),
        0 <= next < blocks.len(),
        forall|k: int| 0 <= k < blocks.len() && k != next ==> (#[trigger] blocks[k]).id != blocks[next].id,
        fuel > 0,
    ensures
        ({
            let m0 = Machine { blocks: bump(m.blocks), ..m };
            let (e, m1) = enter_of(w, blocks[i], prev, m0);
            let (flow, m2) = stmts_of(w, blocks[i], 0, depth, m1);
            let (to, m3) = successor_of(w, blocks, blocks[i], depth, m2);
            e is Ok && flow is Next && to == Ok::<usize, Fault>(blocks[next].id) ==> run_from(
                w,
                blocks,
                i,
                prev,
                depth,
                fuel,
                m,
            ) == run_from(w, blocks, next, Some(blocks[i].id), depth, (fuel - 1) as nat, m3)
        }),
{
    lemma_block_with_id(blocks, blocks[next].id, blocks.len() as int);
}

/// At the entry of a run the stack pointer stands at the top of the stack, where the
/// return address lies, and the frame pointer is the caller's, unless other values were
/// given; nothing was counted yet.
pub proof fn runs_start_at_the_top_of_the_stack<'a, C: CodeProvider>(e: Emulator<'a, C>)
    requires
        e.vars.wf(),
        e.vars.keys@.len() == 0,
        e.setup.cfg.word_bits == 64,
    ensures
        ({
            let m = e.start();
            let top = e.setup.cfg.stack_top;
            &&& m.regs.vars.contains_key("rsp"@) && m.regs.vars["rsp"@] == top
            &&& m.regs.vars.contains_key("rsp"@ + ".0"@) && m.regs.vars["rsp"@ + ".0"@] == top
            &&& m.regs.arch.contains_key("rsp"@) && m.regs.arch["rsp"@] == top
            &&& m.regs.vars.contains_key("rbp"@) && m.regs.vars["rbp"@] == 0x7fff_0000_0100
            &&& loaded(e.setup.world().backing, m.written, top, 64) == Some(0xdead_0000_0000_0000u128)
            &&& m.steps == 0 && m.blocks == 0 && m.calls == 0 && m.stubbed == 0
            &&& m.invented.len() == 0
        }),
{
    reveal_strlit("rsp");
    reveal_strlit("esp");
    reveal_strlit("sp");
    reveal_strlit("rbp");
    reveal_strlit("ebp");
    reveal_strlit("bp");
    reveal_strlit(".0");
    assert(root_name("rsp"@) == "rsp"@ && root_name("esp"@) == "esp"@ && root_name("sp"@) == "sp"@ && root_name("rbp"@)
        == "rbp"@ && root_name("ebp"@) == "ebp"@ && root_name("bp"@) == "bp"@) by {
        crate::text::lemma_first_from("rsp"@, '.', 0);
        crate::text::lemma_first_from("esp"@, '.', 0);
        crate::text::lemma_first_from("sp"@, '.', 0);
        crate::text::lemma_first_from("rbp"@, '.', 0);
        crate::text::lemma_first_from("ebp"@, '.', 0);
        crate::text::lemma_first_from("bp"@, '.', 0);
    }
    assert("rsp"@[0] != "esp"@[0] && "rbp"@[0] != "ebp"@[0] && "rsp"@[1] != "rbp"@[1] && "rsp"@[0] != "ebp"@[0]
        && "esp"@[0] != "rbp"@[0]);
    let a = "rsp"@ + ".0"@;
    let b = "esp"@ + ".0"@;
    let c = "sp"@ + ".0"@;
    let d = "rbp"@ + ".0"@;
    let f = "ebp"@ + ".0"@;
    let g = "bp"@ + ".0"@;
    assert(a.len() == 5 && b.len() == 5 && c.len() == 4 && d.len() == 5 && f.len() == 5 && g.len() == 4);
    assert(a[0] != b[0] && a[1] != d[1] && a[0] != f[0] && c[0] != g[0] && d[0] != f[0] && b[1] != f[1] && b[0] != d[0]);
    let top = e.setup.cfg.stack_top;
    crate::memory::a_read_gives_back_the_write(
        e.setup.world().backing,
        e.state.mem.written@,
        top,
        RETURN_SENTINEL as u128,
        64,
    );
    assert(vstd::arithmetic::power::pow(256, 8) == 0x1_0000_0000_0000_0000) by {
        reveal_with_fuel(vstd::arithmetic::power::pow, 9);
    }
    assert(span(64) == 8);
}

/// The place to which a call returns is the first later statement of its block that
/// stands at a higher address, or else where the block falls through to.
pub proof fn calls_return_behind_themselves(b: SsaBlock, i: int, k: int)
    requires
        0 <= i < k < b.stmts@.len(),
        b.stmts@[k].va.0 > b.stmts@[i].va.0,
        forall|j: int| i < j < k ==> (#[trigger] b.stmts@[j]).va.0 <= b.stmts@[i].va.0,
    ensures
        return_of(b, i) == Some(b.stmts@[k].va),
{
    lemma_later(b.stmts@, b.stmts@[i].va, i + 1, k);
}

proof fn lemma_later(stmts: Seq<SsaStmt>, va: Va, from: int, k: int)
    requires
        0 <= from <= k < stmts.len(),
        stmts[k].va.0 > va.0,
        forall|j: int| from <= j < k ==> (#[trigger] stmts[j]).va.0 <= va.0,
    ensures
        later_va(stmts, va, from) == Some(stmts[k].va),
    decreases k - from,
{
    if from < k {
        lemma_later(stmts, va, from + 1, k);
    }
}

/// A value that is set is held by the name and by its register; one that is cleared by
/// neither; entering a function sets the entry version too; and a seed gives way to what
/// is held already.
pub proof fn registers_hold_what_was_set(r: Regs, name: Seq<char>, v: u128, other: Seq<char>)
    ensures
        r.set(name, v).vars.contains_key(name) && r.set(name, v).vars[name] == v,
        r.set(name, v).arch.contains_key(root_name(name)) && r.set(name, v).arch[root_name(name)] == v,
        other != name && r.vars.contains_key(other) ==> r.set(name, v).vars.contains_key(other) && r.set(name, v).vars[other]
            == r.vars[other],
        !r.clear(name).vars.contains_key(name) && !r.clear(name).arch.contains_key(root_name(name)),
        r.enter(name, v).vars.contains_key(name + ".0"@) && r.enter(name, v).vars[name + ".0"@] == v,
        r.enter(name, v).vars.contains_key(name),
        r.vars.contains_key(name) ==> r.seed(name, v).vars.contains_key(name) && r.seed(name, v).vars[name] == r.vars[name],
        !r.vars.contains_key(name) ==> r.seed(name, v).vars.contains_key(name) && r.seed(name, v).vars[name] == v,
        r.vars.contains_key(name + ".0"@) ==> r.seed(name, v).vars[name + ".0"@] == r.vars[name + ".0"@],
        !r.vars.contains_key(name + ".0"@) ==> r.seed(name, v).vars[name + ".0"@] == v,
{
    reveal_strlit(".0");
    assert((name + ".0"@).len() == name.len() + 2);
    assert(name + ".0"@ != name);
}

/// An entry version is a name without a number, or with the number zero.
pub proof fn entry_versions_have_the_number_zero(n: Seq<char>, v: Seq<char>)
    requires
        forall|i: int| 0 <= i < n.len() ==> #[trigger] n[i] != '.',
        forall|i: int| 0 <= i < v.len() ==> #[trigger] v[i] != '.',
    ensures
        is_entry(n),
        is_entry(n + seq!['.'] + v) <==> v == "0"@,
{
    crate::text::texts_are_split_at_the_last(n, '.', v);
    crate::text::texts_are_split_at_the_last(v, '.', n);
}

/// An invented value is recognized by its upper bits, and fits a word.
pub proof fn invented_values_are_recognizable(name: Seq<char>)
    ensures
        scratch_of(name) as int / 0x1_0000_0000_0000 == 0xA5A5,
        scratch_of(name) <= u64::MAX,
{
}

/// A fault says what went wrong and where.
pub proof fn faults_say_what_went_wrong(v: Seq<char>, va: Va, n: usize)
    ensures
        Fault::UndefinedVar(v).message() == "read of undefined variable `"@ + v + "`"@,
        Fault::DivideByZero(va).message() == "divide by zero at "@ + ("0x"@ + crate::text::hex(va.0 as nat)),
        Fault::CallNotModelled(v).message() == "call to "@ + v + " is not modelled"@,
        Fault::StepLimit(n).message() == "step limit of "@ + dec(n as nat) + " reached"@,
        Fault::Unlifted(va, v).message() == "unlifted instruction at "@ + ("0x"@ + crate::text::hex(va.0 as nat)) + ": "@ + v,
        target_text(CallTarget::Direct { va }) == "0x"@ + crate::text::hex(va.0 as nat),
{
}

} // verus!
