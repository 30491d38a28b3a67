//! Pure analysis of compiled programs: control flow, dominance, static single
//! assignment clean-up, exception tables, metadata readers and the other passes
//! that work on plain values. Nothing here reads a file or a process.

pub mod aob;
pub mod aot;
pub mod arch;
pub mod aslr;
pub mod bindings;
pub mod bits;
pub mod bytes;
pub mod classlayout;
pub mod coalesce;
pub mod constident;
pub mod ctx;
pub mod decode;
pub mod decomp;
pub mod demangle;
pub mod deobfuscate;
pub mod devirt;
pub mod diff;
pub mod discover;
pub mod dissect;
pub mod dom;
pub mod dot;
pub mod eh;
pub mod emulate;
pub mod gamegrep;
pub mod icalls;
pub mod intrinsics;
pub mod ir;
pub mod klass;
pub mod memory;
pub mod micro;
pub mod native;
pub mod order;
pub mod pipeline;
pub mod sorted;
pub mod source;
pub mod ssa;
pub mod symbols;
pub mod text;
pub mod va;

pub use aob::{parse_aob, AobArtifact, AobByte, AobInput, AobScanPass};
pub use aot::{parse_aot, AotArtifact, AotSymbol, RvaSize};
pub use aslr::{rebase, rva_of, va_at};
pub use bindings::{Binding, BindingsArtifact, BindingsInput, BindingsPass};
pub use classlayout::{ClassLayoutInput, ClassLayoutPass};
pub use coalesce::{coalesce_vars, destruct_ssa};
pub use constident::{identify_u64, ConstMatch};
pub use ctx::{Ctx, TypeFlowLookup};
pub use decode::{DecodeInput, DecodeOutput, DecodePass};
pub use decomp::{DecompInput, DecompPass, DecompStyle, PseudoFunction};
pub use demangle::demangle;
pub use deobfuscate::{DeobfuscateArtifact, DeobfuscatePass, JunkInsn, OpaqueBranch};
pub use devirt::{devirtualize, Devirtualized};
pub use diff::{DiffArtifact, DiffHunk, DiffInput, DiffOp, DiffPass};
pub use discover::{discover_pdata, DiscoverArtifact, DiscoverInput, DiscoverPass, FunctionCandidate};
pub use dissect::{DissectArtifact, DissectField, DissectInput, DissectPass, GuessedKind};
pub use dom::{block_graph, dom_children, dominance_frontier, dominators_fwd, dominators_rev, immediate_doms};
pub use dot::{dot, DotArtifact};
pub use eh::{landing_pads, scan_eh_frame, EhFunction, EhRegion};
pub use emulate::{BodyMap, CallPolicy, EmuConfig, EmuResult, Emulator};
pub use gamegrep::{gather, rank as game_grep_rank, Document, GameGrepArtifact, RankOptions, RankedHit, TermHit};
pub use icalls::{Icall, IcallArtifact, IcallInput, IcallPass, ResolverCount};
pub use ir::{explain, Callsite, CfgArtifact, CfgBlock, CfgInput, CfgPass, CfgStats, DefUse, IrInsn, Successor};
pub use klass::{
    ClassScanArtifact, ClassScanInput, ClassScanPass, ClassSummary, KlassArtifact, KlassField, KlassInput, KlassPass,
    LayoutEvidence,
};
pub use source::{CoreError, Snapshot};
pub use va::Va;
