//! The order of the stages in which a function is decompiled. Building the static
//! single assignment form, optimizing it, inferring types and rendering statements
//! is the work of others; each step takes what they have made and says what is to
//! be done next.

use vstd::prelude::*;

use crate::ctx::Ctx;
use crate::decomp::{
    is_lowered, is_named, is_prepared, is_written, leaves_room, DecompInput, DecompNames, DecompPass, DecompStyle,
    Prepared, PseudoFunction, RenderedBody,
};
use crate::sorted::{NameMap, SortedMap};
use crate::source::CoreError;
use crate::ssa::{SsaBlock, TypeArtifact};

verus! {

/// How far the work has come.
pub enum DecompStage {
    /// Nothing has been done.
    Start,
    /// The blocks are there, as they were lifted.
    Built { raw: Vec<SsaBlock> },
    /// They have been optimized too.
    Optimized { raw: Vec<SsaBlock>, opt: Vec<SsaBlock>, delta: Vec<String> },
    /// Virtual calls of the blocks have been resolved, which are to be optimized
    /// anew.
    Resolved { raw: Vec<SsaBlock>, types: TypeArtifact, prepared: Prepared },
    /// The body is to be rendered from `shown`.
    Ready {
        shown: Vec<SsaBlock>,
        types: TypeArtifact,
        prepared: Prepared,
        names: DecompNames,
        /// The names under which versions of variables are merged.
        merged: NameMap<String>,
        delta: Vec<String>,
    },
    Done(PseudoFunction),
    Failed(CoreError),
}

/// A function on its way to pseudo-code. Once it is ready, the graph of `input` is
/// the one that belongs to the blocks that are shown.
pub struct DecompState {
    pub input: DecompInput,
    pub stage: DecompStage,
}

/// What is to be done next.
#[derive(Clone, Copy, Debug, PartialEq, Eq, Structural)]
pub enum DecompAction {
    /// Lift the graph of the input to blocks.
    Build,
    /// Optimize a copy of the blocks `raw`.
    Optimize,
    /// Infer types from the blocks `opt`.
    Infer,
    /// Render the blocks `shown` flat.
    RenderFlat,
    /// Render the blocks `shown` with loops and conditions.
    Structure,
    /// Nothing more.
    Stop,
}

/// What somebody else has done.
pub enum DecompEvent {
    Built(Vec<SsaBlock>),
    Optimized { blocks: Vec<SsaBlock>, delta: Vec<String> },
    Inferred(TypeArtifact),
    Rendered { lines: Vec<String>, has_loop: bool, fallback_count: usize },
    Failed(CoreError),
}

pub open spec fn action_of(st: DecompState) -> DecompAction {
    match st.stage {
        DecompStage::Start => DecompAction::Build,
        DecompStage::Built { .. } => DecompAction::Optimize,
        DecompStage::Optimized { .. } => DecompAction::Infer,
        DecompStage::Resolved { .. } => DecompAction::Optimize,
        DecompStage::Ready { .. } => if st.input.style is Goto {
            DecompAction::RenderFlat
        } else {
            DecompAction::Structure
        },
        DecompStage::Done(_) => DecompAction::Stop,
        DecompStage::Failed(_) => DecompAction::Stop,
    }
}

/// The event is one that the action asks for.
pub open spec fn answers(a: DecompAction, ev: DecompEvent) -> bool {
    match ev {
        DecompEvent::Built(_) => a is Build,
        DecompEvent::Optimized { .. } => a is Optimize,
        DecompEvent::Inferred(_) => a is Infer,
        DecompEvent::Rendered { .. } => a is RenderFlat || a is Structure,
        DecompEvent::Failed(_) => !(a is Stop),
    }
}

/// How many stages lie behind.
pub open spec fn progress(s: DecompStage) -> nat {
    match s {
        DecompStage::Start => 0,
        DecompStage::Built { .. } => 1,
        DecompStage::Optimized { .. } => 2,
        DecompStage::Resolved { .. } => 3,
        DecompStage::Ready { .. } => 4,
        DecompStage::Done(_) => 5,
        DecompStage::Failed(_) => 5,
    }
}

/// The optimized blocks can be lowered, where they will be.
pub open spec fn lowerable(input: DecompInput, blocks: Seq<SsaBlock>) -> bool {
    input.style is Ssa ==> leaves_room(input.cfg, blocks)
}

impl DecompState {
    pub open spec fn wf(self) -> bool {
        &&& self.input.wf()
        &&& match self.stage {
            DecompStage::Optimized { opt, .. } => lowerable(self.input, opt@),
            _ => true,
        }
    }
}

/// The blocks and their names are ready: names come from the blocks before and
/// after they were optimized. The optimized form is lowered and shown; both other
/// forms show the blocks as they are.
pub open spec fn is_ready(
    ctx: Ctx,
    rendered: NameMap<String>,
    before: DecompInput,
    raw: Seq<SsaBlock>,
    opt: Seq<SsaBlock>,
    types: TypeArtifact,
    prepared: Prepared,
    delta: Vec<String>,
    after: DecompState,
) -> bool {
    &&& after.input == (DecompInput { cfg: after.input.cfg, ..before })
    &&& match after.stage {
        DecompStage::Ready { shown, types: t, prepared: p, names, merged, delta: d } => {
            &&& t == types && p == prepared && d == delta
            &&& exists|sets: Seq<&[SsaBlock]>|
                sets.len() == 2 && sets[0]@ == raw && sets[1]@ == opt && #[trigger] is_named(
                    ctx,
                    before,
                    types,
                    sets,
                    rendered,
                    names,
                )
            &&& if before.style is Ssa {
                is_lowered(before.cfg, opt, types, merged, after.input.cfg, shown@)
            } else {
                shown@ == raw && after.input.cfg == before.cfg && merged.wf() && merged.map() == Map::<
                    Seq<char>,
                    String,
                >::empty()
            }
        },
        _ => false,
    }
}

/// What follows on an event. An event that nobody asked for changes nothing.
pub open spec fn follows(
    ctx: Ctx,
    rendered: NameMap<String>,
    st: DecompState,
    ev: DecompEvent,
    after: DecompState,
) -> bool {
    if !answers(action_of(st), ev) {
        after == st
    } else {
        match (st.stage, ev) {
            (_, DecompEvent::Failed(e)) => after.input == st.input && after.stage == DecompStage::Failed(e),
            (DecompStage::Start, DecompEvent::Built(raw)) => after.input == st.input && after.stage
                == (DecompStage::Built { raw }),
            (DecompStage::Built { raw }, DecompEvent::Optimized { blocks, delta }) => after.input == st.input
                && after.stage == (DecompStage::Optimized { raw, opt: blocks, delta }),
            (DecompStage::Optimized { raw, opt, delta }, DecompEvent::Inferred(types)) => exists|
                now: Vec<SsaBlock>,
                t: TypeArtifact,
                p: Prepared,
            | #[trigger]
                is_prepared(ctx, st.input, raw@, now@, types, t, p) && if p.devirtualized@.len() > 0 {
                    after.input == st.input && after.stage == (DecompStage::Resolved { raw: now, types: t, prepared: p })
                } else {
                    is_ready(ctx, rendered, st.input, now@, opt@, t, p, delta, after)
                },
            (DecompStage::Resolved { raw, types, prepared }, DecompEvent::Optimized { blocks, delta }) => is_ready(
                ctx,
                rendered,
                st.input,
                raw@,
                blocks@,
                types,
                prepared,
                delta,
                after,
            ),
            (
                DecompStage::Ready { types, prepared, names, delta, .. },
                DecompEvent::Rendered { lines, has_loop, fallback_count },
            ) => after.input == st.input && match after.stage {
                DecompStage::Done(f) => is_written(
                    st.input,
                    prepared,
                    names,
                    types,
                    RenderedBody { lines, has_loop, fallback_count, delta },
                    f,
                ),
                _ => false,
            },
            _ => false,
        }
    }
}

impl DecompPass {
    /// Starts to decompile a function.
    pub fn begin(&self, input: DecompInput) -> (st: DecompState)
        ensures
            st.input == input,
            st.stage == DecompStage::Start,
            input.wf() ==> st.wf(),
    {
        DecompState { input, stage: DecompStage::Start }
    }

    /// What is to be done next.
    pub fn next(&self, st: &DecompState) -> (a: DecompAction)
        ensures
            a == action_of(*st),
    {
        match &st.stage {
            DecompStage::Start => DecompAction::Build,
            DecompStage::Built { .. } => DecompAction::Optimize,
            DecompStage::Optimized { .. } => DecompAction::Infer,
            DecompStage::Resolved { .. } => DecompAction::Optimize,
            DecompStage::Ready { .. } => {
                if matches!(st.input.style, DecompStyle::Goto) {
                    DecompAction::RenderFlat
                } else {
                    DecompAction::Structure
                }
            },
            DecompStage::Done(_) => DecompAction::Stop,
            DecompStage::Failed(_) => DecompAction::Stop,
        }
    }

    /// Finds the names, and brings the blocks into the form in which they are shown.
    fn make_ready(
        &self,
        ctx: &Ctx,
        rendered: &NameMap<String>,
        input: DecompInput,
        raw: Vec<SsaBlock>,
        opt: Vec<SsaBlock>,
        types: TypeArtifact,
        prepared: Prepared,
        delta: Vec<String>,
    ) -> (st: DecompState)
        requires
            input.wf(),
            rendered.wf(),
            lowerable(input, opt@),
        ensures
            is_ready(*ctx, *rendered, input, raw@, opt@, types, prepared, delta, st),
            st.wf(),
            st.stage is Ready,
    {
        let names = self.names(ctx, &input, &types, &[raw.as_slice(), opt.as_slice()], rendered);
        let DecompInput { cfg, style, explain, strip_block_labels, var_names, var_types, struct_defs } = input;
        let (merged, cfg, shown) = if matches!(style, DecompStyle::Ssa) {
            self.lower(cfg, opt, &types)
        } else {
            let none: NameMap<String> = SortedMap::new();
            (none, cfg, raw)
        };
        DecompState {
            input: DecompInput { cfg, style, explain, strip_block_labels, var_names, var_types, struct_defs },
            stage: DecompStage::Ready { shown, types, prepared, names, merged, delta },
        }
    }

    /// Takes what somebody else has done. Virtual calls are resolved in the blocks
    /// as they were lifted, as soon as types are known; the blocks are optimized
    /// anew only where any was resolved, and lowered only for the optimized form.
    pub fn step(&self, ctx: &Ctx, rendered: &NameMap<String>, st: DecompState, ev: DecompEvent) -> (after: DecompState)
        requires
            ctx.wf(),
            rendered.wf(),
            st.wf(),
            match ev {
                DecompEvent::Optimized { blocks, .. } => lowerable(st.input, blocks@),
                _ => true,
            },
        ensures
            follows(*ctx, *rendered, st, ev, after),
            after.wf(),
            answers(action_of(st), ev) ==> progress(after.stage) > progress(st.stage),
    {
        let input = st.input;
        match (st.stage, ev) {
            (DecompStage::Done(f), _) => DecompState { input, stage: DecompStage::Done(f) },
            (DecompStage::Failed(e), _) => DecompState { input, stage: DecompStage::Failed(e) },
            (_, DecompEvent::Failed(e)) => DecompState { input, stage: DecompStage::Failed(e) },
            (DecompStage::Start, DecompEvent::Built(raw)) => DecompState { input, stage: DecompStage::Built { raw } },
            (DecompStage::Built { raw }, DecompEvent::Optimized { blocks, delta }) => DecompState {
                input,
                stage: DecompStage::Optimized { raw, opt: blocks, delta },
            },
            (DecompStage::Optimized { raw, opt, delta }, DecompEvent::Inferred(types)) => {
                let mut blocks = raw;
                let mut t = types;
                let p = self.prepare(ctx, &input, &mut blocks, &mut t);
                if p.devirtualized.len() > 0 {
                    DecompState { input, stage: DecompStage::Resolved { raw: blocks, types: t, prepared: p } }
                } else {
                    self.make_ready(ctx, rendered, input, blocks, opt, t, p, delta)
                }
            },
            (DecompStage::Resolved { raw, types, prepared }, DecompEvent::Optimized { blocks, delta }) => {
                self.make_ready(ctx, rendered, input, raw, blocks, types, prepared, delta)
            },
            (
                DecompStage::Ready { types, prepared, names, delta, .. },
                DecompEvent::Rendered { lines, has_loop, fallback_count },
            ) => {
                let body = RenderedBody { lines, has_loop, fallback_count, delta };
                let f = self.run(&input, prepared, &names, &types, body);
                DecompState { input, stage: DecompStage::Done(f) }
            },
            (stage, _) => DecompState { input, stage },
        }
    }
}

// ---------------------------------------------------------------------------
// How the work goes on
// ---------------------------------------------------------------------------

/// An event that was asked for brings the work on by at least one stage, and never back;
/// one that was not asked for changes nothing.
pub proof fn the_work_goes_on(ctx: Ctx, rendered: NameMap<String>, st: DecompState, ev: DecompEvent, after: DecompState)
    requires
        follows(ctx, rendered, st, ev, after),
    ensures
        answers(action_of(st), ev) ==> progress(after.stage) > progress(st.stage),
        !answers(action_of(st), ev) ==> after == st,
{
    if answers(action_of(st), ev) {
        match (st.stage, ev) {
            (DecompStage::Optimized { raw, opt, delta }, DecompEvent::Inferred(types)) => {
                let (now, t, p) = choose|now: Vec<SsaBlock>, t: TypeArtifact, p: Prepared| #[trigger]
                    is_prepared(ctx, st.input, raw@, now@, types, t, p) && if p.devirtualized@.len() > 0 {
                        after.input == st.input && after.stage == (DecompStage::Resolved { raw: now, types: t, prepared: p })
                    } else {
                        is_ready(ctx, rendered, st.input, now@, opt@, t, p, delta, after)
                    };
                assert(progress(after.stage) >= 3);
            },
            _ => {},
        }
    }
}

/// A failure ends the work with its error, and finished work asks for nothing more.
pub proof fn failures_end_the_work(
    ctx: Ctx,
    rendered: NameMap<String>,
    st: DecompState,
    e: CoreError,
    after: DecompState,
)
    requires
        follows(ctx, rendered, st, DecompEvent::Failed(e), after),
    ensures
        !(st.stage is Done) && !(st.stage is Failed) ==> after.stage == DecompStage::Failed(e) && after.input == st.input,
        st.stage is Done || st.stage is Failed ==> after == st,
        after.stage is Failed ==> action_of(after) is Stop,
        after.stage is Done ==> action_of(after) is Stop,
{
}

/// The stages ask for their work in turn: blocks are built, optimized, and types inferred;
/// calls that were resolved are optimized again; and the flat style is rendered as it is,
/// while the others are structured.
pub proof fn stages_ask_for_their_work(st: DecompState)
    ensures
        st.stage is Start ==> action_of(st) is Build,
        st.stage is Built ==> action_of(st) is Optimize,
        st.stage is Optimized ==> action_of(st) is Infer,
        st.stage is Resolved ==> action_of(st) is Optimize,
        st.stage is Ready && st.input.style is Goto ==> action_of(st) is RenderFlat,
        st.stage is Ready && !(st.input.style is Goto) ==> action_of(st) is Structure,
{
}

/// What was handed over is what the next stage holds.
pub proof fn stages_hold_what_was_handed_over(
    ctx: Ctx,
    rendered: NameMap<String>,
    st: DecompState,
    blocks: Vec<SsaBlock>,
    delta: Vec<String>,
    after: DecompState,
)
    ensures
        st.stage is Start && follows(ctx, rendered, st, DecompEvent::Built(blocks), after) ==> (after.stage matches
            DecompStage::Built { raw } && raw == blocks) && after.input == st.input,
        follows(ctx, rendered, st, DecompEvent::Optimized { blocks, delta }, after) ==> (st.stage matches
            DecompStage::Built { raw } ==> (after.stage matches DecompStage::Optimized { raw: r, opt, delta: d } && r == raw
            && opt == blocks && d == delta) && after.input == st.input),
{
}

} // verus!
