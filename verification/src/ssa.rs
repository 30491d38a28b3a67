//! Blocks in static single assignment form, and what type recovery says about
//! a function.

use vstd::prelude::*;

use crate::ir::Successor;
use crate::micro::{Bits, MicroExpr, MicroStmt};
use crate::va::Va;

verus! {

/// What a phi takes along one edge.
#[derive(Clone, Debug, PartialEq, Eq)]
pub struct PhiInput {
    pub from_block: usize,
    pub value: String,
}

/// A join of versions of one variable.
#[derive(Clone, Debug, PartialEq, Eq)]
pub struct Phi {
    pub var: String,
    pub dst: String,
    pub inputs: Vec<PhiInput>,
}

/// A statement and the address of the instruction it came from.
#[derive(Debug, PartialEq, Eq)]
pub struct SsaStmt {
    pub va: Va,
    pub stmt: MicroStmt,
}

/// A basic block in static single assignment form.
#[derive(Debug, PartialEq, Eq)]
pub struct SsaBlock {
    pub id: usize,
    pub start: Va,
    pub end: Va,
    pub terminator: String,
    pub successors: Vec<Successor>,
    pub phis: Vec<Phi>,
    pub stmts: Vec<SsaStmt>,
    pub condition: Option<MicroExpr>,
}

/// A recovered type: a width and a sign, or a name.
#[derive(Clone, Debug, PartialEq, Eq)]
pub struct CType {
    pub bits: Bits,
    pub signed: bool,
    pub name: Option<String>,
}

/// A recovered parameter.
#[derive(Clone, Debug, PartialEq, Eq)]
pub struct ParamInfo {
    pub reg: String,
    pub name: String,
    pub ty: CType,
}

/// A recovered signature.
#[derive(Clone, Debug, PartialEq, Eq)]
pub struct RecoveredSignature {
    pub params: Vec<ParamInfo>,
    pub ret: Option<CType>,
}

/// A field that one function accesses through a pointer.
#[derive(Clone, Copy, Debug, PartialEq, Eq, Structural)]
pub struct FieldAccess {
    pub offset: i64,
    pub size_bits: Bits,
    pub signed: bool,
    pub access_count: usize,
}

/// What one function accesses through one pointer.
#[derive(Clone, Debug, PartialEq, Eq)]
pub struct RecoveredType {
    pub name: String,
    pub base_var: String,
    pub fields: Vec<FieldAccess>,
}

/// A recovered local variable on the stack.
#[derive(Clone, Debug, PartialEq, Eq)]
pub struct LocalVar {
    pub name: String,
    pub offset: i64,
    pub size_bits: Bits,
    pub signed: bool,
    /// A type that was chosen for it.
    pub type_override: Option<String>,
}

/// What type recovery says about one function.
#[derive(Clone, Debug, PartialEq, Eq)]
pub struct TypeArtifact {
    pub locals: Vec<LocalVar>,
    pub structs: Vec<RecoveredType>,
    pub signature: RecoveredSignature,
}

} // verus!
