//! Turning a register's web of versions back into one named variable.
//!
//! Two versions that are live at the same time with different values must
//! never share a name, so a class of versions is only named as one when no two
//! of its members interfere. What stays unmerged is made explicit by copies on
//! the edges that lead to its phi.

use vstd::prelude::*;
use vstd::string::StringExecFns;

use crate::ir::{edges_of, CfgArtifact, CfgBlock, Edge, IrInsn, Successor};
use crate::micro::{
    call_args_vars, call_target_vars, expr_vars, list_vars, target_vars, vars_of, CallTarget, MicroExpr, MicroStmt,
};
use crate::sorted::{
    add_names, copy_names, holds, lemma_holds_take, lemma_map_at, lemma_set_len, lex_lt, NameMap, NameSet,
    SortKey, SortedMap, SortedSet,
};
use crate::ssa::{ParamInfo, Phi, RecoveredSignature, SsaBlock, SsaStmt};
use crate::text::{before_dot, dec, decimal, root_name, same};
use crate::va::Va;

verus! {

broadcast use {vstd::set::group_set_axioms, vstd::std_specs::vec::group_vec_axioms};

// ---------------------------------------------------------------------------
// Definitions and uses
// ---------------------------------------------------------------------------

/// The variable that a statement defines.
pub open spec fn def_of(s: MicroStmt) -> Option<Seq<char>> {
    match s {
        MicroStmt::Assign { dst, .. } => Some(dst@),
        MicroStmt::Call { ret: Some(r), .. } => Some(r@),
        _ => None,
    }
}

/// The variables that a statement reads.
pub open spec fn uses_of(s: MicroStmt) -> Set<Seq<char>> {
    match s {
        MicroStmt::Assign { value, .. } => vars_of(value),
        MicroStmt::Store { addr, value, .. } => vars_of(addr).union(vars_of(value)),
        MicroStmt::Call { target, args, .. } => target_vars(target).union(list_vars(args, args@.len())),
        MicroStmt::Return(Some(e)) => vars_of(e),
        _ => Set::empty(),
    }
}

/// The variable that a statement defines.
pub fn stmt_def(s: &MicroStmt) -> (r: Option<&String>)
    ensures
        match (r, def_of(*s)) {
            (Some(n), Some(m)) => n@ == m,
            (None, None) => true,
            _ => false,
        },
{
    match s {
        MicroStmt::Assign { dst, .. } => Some(dst),
        MicroStmt::Call { ret: Some(r), .. } => Some(r),
        _ => None,
    }
}

/// Adds the variables that a statement reads to `out`.
pub fn stmt_uses(s: &MicroStmt, out: &mut NameSet)
    requires
        old(out).wf(),
    ensures
        final(out).wf(),
        final(out).set() == old(out).set().union(uses_of(*s)),
{
    match s {
        MicroStmt::Assign { value, .. } => expr_vars(value, out),
        MicroStmt::Store { addr, value, .. } => {
            expr_vars(addr, out);
            expr_vars(value, out);
            assert(out.set() =~= old(out).set().union(uses_of(*s)));
        },
        MicroStmt::Call { target, args, .. } => {
            call_target_vars(target, out);
            call_args_vars(args, args.len(), out);
            assert(out.set() =~= old(out).set().union(uses_of(*s)));
        },
        MicroStmt::Return(Some(e)) => expr_vars(e, out),
        MicroStmt::Return(None) | MicroStmt::Nop | MicroStmt::Unlifted { .. } => {
            assert(out.set() =~= old(out).set().union(uses_of(*s)));
        },
    }
}

/// One of the first `k` phis of `b` defines `v`.
pub open spec fn phi_defines(b: SsaBlock, k: int, v: Seq<char>) -> bool {
    exists|j: int| 0 <= j < k && (#[trigger] b.phis@[j]).dst@ == v && v.len() > 0
}

/// `v` is defined at the head of `b` or by one of its first `t` statements.
pub open spec fn defined_before(b: SsaBlock, t: int, v: Seq<char>) -> bool {
    ||| phi_defines(b, b.phis@.len() as int, v)
    ||| exists|j: int| 0 <= j < t && def_of((#[trigger] b.stmts@[j]).stmt) == Some(v)
}

/// `v` is defined in `b`.
pub open spec fn block_defines(b: SsaBlock, v: Seq<char>) -> bool {
    defined_before(b, b.stmts@.len() as int, v)
}

/// One of the first `t` statements of `b` reads `v` before `b` defines it.
pub open spec fn exposed(b: SsaBlock, t: int, v: Seq<char>) -> bool {
    exists|j: int|
        0 <= j < t && uses_of((#[trigger] b.stmts@[j]).stmt).contains(v) && !defined_before(b, j, v)
}

/// `b` reads `v` before it defines it: the value flows in from outside.
pub open spec fn block_uses(b: SsaBlock, v: Seq<char>) -> bool {
    ||| exposed(b, b.stmts@.len() as int, v)
    ||| (b.condition matches Some(c) && vars_of(c).contains(v) && !block_defines(b, v))
}

/// The names that a block reads from outside and those that it defines.
fn block_use_def(b: &SsaBlock) -> (r: (NameSet, NameSet))
    ensures
        r.0.wf(),
        r.1.wf(),
        forall|v: Seq<char>| #[trigger] r.0.set().contains(v) <==> block_uses(*b, v),
        forall|v: Seq<char>| #[trigger] r.1.set().contains(v) <==> block_defines(*b, v),
{
    let mut uses: NameSet = SortedSet::new();
    let mut defs: NameSet = SortedSet::new();
    let mut k: usize = 0;
    while k < b.phis.len()
        invariant
            k <= b.phis@.len(),
            defs.wf(),
            forall|v: Seq<char>| #[trigger] defs.set().contains(v) <==> phi_defines(*b, k as int, v),
        decreases b.phis@.len() - k,
    {
        let ghost before = defs.set();
        let phi = &b.phis[k];
        if !phi.dst.as_str().is_empty() {
            defs.insert(phi.dst.clone());
        }
        proof {
            assert forall|v: Seq<char>| #[trigger] defs.set().contains(v) <==> phi_defines(*b, k + 1, v) by {
                assert(before.contains(v) <==> phi_defines(*b, k as int, v));
                if phi_defines(*b, k + 1, v) && !phi_defines(*b, k as int, v) {
                    let j = choose|j: int| 0 <= j < k + 1 && (#[trigger] b.phis@[j]).dst@ == v && v.len() > 0;
                    assert(j == k);
                }
                if phi_defines(*b, k as int, v) {
                    let j = choose|j: int| 0 <= j < k && (#[trigger] b.phis@[j]).dst@ == v && v.len() > 0;
                    assert(j < k + 1);
                }
                if v == phi.dst@ && v.len() > 0 {
                    assert(b.phis@[k as int].dst@ == v);
                }
            }
        }
        k = k + 1;
    }
    let mut t: usize = 0;
    while t < b.stmts.len()
        invariant
            t <= b.stmts@.len(),
            uses.wf(),
            defs.wf(),
            forall|v: Seq<char>| #[trigger] defs.set().contains(v) <==> defined_before(*b, t as int, v),
            forall|v: Seq<char>| #[trigger] uses.set().contains(v) <==> exposed(*b, t as int, v),
        decreases b.stmts@.len() - t,
    {
        let ghost uses0 = uses.set();
        let ghost defs0 = defs.set();
        let s = &b.stmts[t].stmt;
        let mut read: NameSet = SortedSet::new();
        stmt_uses(s, &mut read);
        add_missing(&mut uses, &read, &defs);
        match stmt_def(s) {
            Some(d) => {
                defs.insert(d.clone());
            },
            None => {},
        }
        proof {
            assert forall|v: Seq<char>| #[trigger] defs.set().contains(v) <==> defined_before(*b, t + 1, v) by {
                assert(defs0.contains(v) <==> defined_before(*b, t as int, v));
                lemma_defined_step(*b, t as int, v);
            }
            assert forall|v: Seq<char>| #[trigger] uses.set().contains(v) <==> exposed(*b, t + 1, v) by {
                assert(uses0.contains(v) <==> exposed(*b, t as int, v));
                assert(defs0.contains(v) <==> defined_before(*b, t as int, v));
                assert(read.set().contains(v) <==> uses_of(b.stmts@[t as int].stmt).contains(v));
                if exposed(*b, t as int, v) {
                    let j = choose|j: int|
                        0 <= j < t && uses_of((#[trigger] b.stmts@[j]).stmt).contains(v) && !defined_before(
                            *b,
                            j,
                            v,
                        );
                    assert(j < t + 1);
                }
                if exposed(*b, t + 1, v) && !exposed(*b, t as int, v) {
                    let j = choose|j: int|
                        0 <= j < t + 1 && uses_of((#[trigger] b.stmts@[j]).stmt).contains(v) && !defined_before(
                            *b,
                            j,
                            v,
                        );
                    assert(j == t);
                }
            }
        }
        t = t + 1;
    }
    match &b.condition {
        Some(c) => {
            let mut read: NameSet = SortedSet::new();
            expr_vars(c, &mut read);
            add_missing(&mut uses, &read, &defs);
        },
        None => {},
    }
    (uses, defs)
}

proof fn lemma_defined_step(b: SsaBlock, t: int, v: Seq<char>)
    requires
        0 <= t < b.stmts@.len(),
    ensures
        defined_before(b, t + 1, v) <==> defined_before(b, t, v) || def_of(b.stmts@[t].stmt) == Some(v),
{
    if defined_before(b, t + 1, v) && !defined_before(b, t, v) {
        let j = choose|j: int| 0 <= j < t + 1 && def_of((#[trigger] b.stmts@[j]).stmt) == Some(v);
        assert(j == t);
    }
    if defined_before(b, t, v) && !phi_defines(b, b.phis@.len() as int, v) {
        let j = choose|j: int| 0 <= j < t && def_of((#[trigger] b.stmts@[j]).stmt) == Some(v);
        assert(j < t + 1);
    }
}

/// Adds the members of `s` that `skip` does not hold to `t`.
fn add_missing(t: &mut NameSet, s: &NameSet, skip: &NameSet)
    requires
        old(t).wf(),
        s.wf(),
        skip.wf(),
    ensures
        final(t).wf(),
        forall|v: Seq<char>| #[trigger]
            final(t).set().contains(v) <==> old(t).set().contains(v) || (s.set().contains(v)
                && !skip.set().contains(v)),
{
    let mut i: usize = 0;
    while i < s.items.len()
        invariant
            i <= s.items@.len(),
            t.wf(),
            skip.wf(),
            forall|v: Seq<char>| #[trigger]
                t.set().contains(v) <==> old(t).set().contains(v) || (holds(s.items@.take(i as int), v)
                    && !skip.set().contains(v)),
        decreases s.items@.len() - i,
    {
        if !skip.contains(&s.items[i]) {
            t.insert(s.items[i].clone());
        }
        proof {
            lemma_holds_take(s.items@, i as int);
        }
        i = i + 1;
    }
    assert(s.items@.take(i as int) =~= s.items@);
}

// ---------------------------------------------------------------------------
// The flow graph
// ---------------------------------------------------------------------------

/// The last of the first `k` blocks that starts at `va`.
pub open spec fn block_at(blocks: Seq<SsaBlock>, va: Va, k: int) -> Option<int>
    decreases k,
{
    if k <= 0 {
        None
    } else if blocks[k - 1].start == va {
        Some(k - 1)
    } else {
        block_at(blocks, va, k - 1)
    }
}

/// The last of the first `k` blocks with the number `id`.
pub open spec fn block_with_id(blocks: Seq<SsaBlock>, id: usize, k: int) -> Option<int>
    decreases k,
{
    if k <= 0 {
        None
    } else if blocks[k - 1].id == id {
        Some(k - 1)
    } else {
        block_with_id(blocks, id, k - 1)
    }
}

/// A search result as an index.
pub open spec fn same_index(r: Option<usize>, s: Option<int>) -> bool {
    match (r, s) {
        (Some(a), Some(b)) => a == b,
        (None, None) => true,
        _ => false,
    }
}

fn find_start(blocks: &[SsaBlock], va: Va) -> (r: Option<usize>)
    ensures
        same_index(r, block_at(blocks@, va, blocks@.len() as int)),
        r matches Some(i) ==> i < blocks@.len(),
{
    let mut k: usize = blocks.len();
    while k > 0
        invariant
            k <= blocks@.len(),
            block_at(blocks@, va, blocks@.len() as int) == block_at(blocks@, va, k as int),
        decreases k,
    {
        if blocks[k - 1].start.0 == va.0 {
            return Some(k - 1);
        }
        k = k - 1;
    }
    None
}

fn find_id(blocks: &[SsaBlock], id: usize) -> (r: Option<usize>)
    ensures
        same_index(r, block_with_id(blocks@, id, blocks@.len() as int)),
        r matches Some(i) ==> i < blocks@.len(),
{
    let mut k: usize = blocks.len();
    while k > 0
        invariant
            k <= blocks@.len(),
            block_with_id(blocks@, id, blocks@.len() as int) == block_with_id(blocks@, id, k as int),
        decreases k,
    {
        if blocks[k - 1].id == id {
            return Some(k - 1);
        }
        k = k - 1;
    }
    None
}

/// One of the first `k` successor edges of block `i` leads to block `j`.
pub open spec fn flows_upto(blocks: Seq<SsaBlock>, i: int, j: int, k: int) -> bool {
    exists|s: int|
        0 <= s < k && block_at(blocks, (#[trigger] blocks[i].successors@[s]).to, blocks.len() as int)
            == Some(j)
}

/// Control can go from block `i` to block `j`.
pub open spec fn flows(blocks: Seq<SsaBlock>, i: int, j: int) -> bool {
    flows_upto(blocks, i, j, blocks[i].successors@.len() as int)
}

/// `row` lists `j`.
pub open spec fn row_has(row: Seq<usize>, j: int) -> bool {
    exists|k: int| 0 <= k < row.len() && #[trigger] row[k] == j
}

fn flow_row(blocks: &[SsaBlock], i: usize) -> (row: Vec<usize>)
    requires
        i < blocks@.len(),
    ensures
        forall|k: int| 0 <= k < row@.len() ==> #[trigger] row@[k] < blocks@.len(),
        forall|j: int| #[trigger] row_has(row@, j) <==> flows(blocks@, i as int, j),
{
    let b = &blocks[i];
    let mut row: Vec<usize> = Vec::new();
    let mut s: usize = 0;
    while s < b.successors.len()
        invariant
            i < blocks@.len(),
            *b == blocks@[i as int],
            s <= b.successors@.len(),
            forall|k: int| 0 <= k < row@.len() ==> #[trigger] row@[k] < blocks@.len(),
            forall|j: int| #[trigger] row_has(row@, j) <==> flows_upto(blocks@, i as int, j, s as int),
        decreases b.successors@.len() - s,
    {
        let ghost row0 = row@;
        let found = find_start(blocks, b.successors[s].to);
        match found {
            Some(j) => {
                row.push(j);
            },
            None => {},
        }
        proof {
            assert forall|j: int| #[trigger] row_has(row@, j) <==> flows_upto(blocks@, i as int, j, s + 1) by {
                assert(row_has(row0, j) <==> flows_upto(blocks@, i as int, j, s as int));
                let at = block_at(blocks@, blocks@[i as int].successors@[s as int].to, blocks@.len() as int);
                if row_has(row0, j) {
                    let k = choose|k: int| 0 <= k < row0.len() && #[trigger] row0[k] == j;
                    assert(row@[k] == j);
                    let q = choose|q: int|
                        0 <= q < s && block_at(
                            blocks@,
                            (#[trigger] blocks@[i as int].successors@[q]).to,
                            blocks@.len() as int,
                        ) == Some(j);
                    assert(q < s + 1);
                }
                if at == Some(j) {
                    assert(row@[row0.len() as int] == j);
                    assert(0 <= s < s + 1);
                }
                if row_has(row@, j) && !row_has(row0, j) {
                    let k = choose|k: int| 0 <= k < row@.len() && #[trigger] row@[k] == j;
                    if k < row0.len() {
                        assert(row0[k] == j);
                    }
                }
                if flows_upto(blocks@, i as int, j, s + 1) && !flows_upto(blocks@, i as int, j, s as int) {
                    let q = choose|q: int|
                        0 <= q < s + 1 && block_at(
                            blocks@,
                            (#[trigger] blocks@[i as int].successors@[q]).to,
                            blocks@.len() as int,
                        ) == Some(j);
                    assert(q == s);
                }
            }
        }
        s = s + 1;
    }
    row
}

/// One of the first `m` inputs of the phi comes from block `p` as `v`.
pub open spec fn input_feeds(blocks: Seq<SsaBlock>, b: int, k: int, m: int, p: int, v: Seq<char>) -> bool {
    exists|q: int|
        0 <= q < m && block_with_id(
            blocks,
            (#[trigger] blocks[b].phis@[k].inputs@[q]).from_block,
            blocks.len() as int,
        ) == Some(p) && blocks[b].phis@[k].inputs@[q].value@ == v
}

/// One of the first `k` phis of block `b` takes `v` from block `p`.
pub open spec fn phis_feed(blocks: Seq<SsaBlock>, b: int, k: int, p: int, v: Seq<char>) -> bool {
    exists|j: int|
        0 <= j < k && (#[trigger] blocks[b].phis@[j]).dst@.len() > 0 && input_feeds(
            blocks,
            b,
            j,
            blocks[b].phis@[j].inputs@.len() as int,
            p,
            v,
        )
}

/// A phi somewhere takes `v` along an edge out of block `p`.
pub open spec fn feeds_phi(blocks: Seq<SsaBlock>, p: int, v: Seq<char>) -> bool {
    exists|b: int|
        0 <= b < blocks.len() && #[trigger] phis_feed(blocks, b, blocks[b].phis@.len() as int, p, v)
}

/// The names that each block has to keep alive for the phis it leads to.
fn phi_outs(blocks: &[SsaBlock]) -> (outs: Vec<NameSet>)
    ensures
        outs@.len() == blocks@.len(),
        forall|p: int| 0 <= p < blocks@.len() ==> (#[trigger] outs@[p]).wf(),
        forall|p: int, v: Seq<char>|
            0 <= p < blocks@.len() ==> (#[trigger] outs@[p].set().contains(v) <==> feeds_phi(blocks@, p, v)),
{
    let n: usize = blocks.len();
    let mut outs: Vec<NameSet> = Vec::new();
    let mut i: usize = 0;
    while i < n
        invariant
            i <= n,
            outs@.len() == i,
            forall|p: int| 0 <= p < i ==> (#[trigger] outs@[p]).wf(),
            forall|p: int, v: Seq<char>| 0 <= p < i ==> !(#[trigger] outs@[p].set().contains(v)),
        decreases n - i,
    {
        outs.push(SortedSet::new());
        i = i + 1;
    }
    let mut b: usize = 0;
    while b < n
        invariant
            b <= n,
            n == blocks@.len(),
            outs@.len() == n,
            forall|p: int| 0 <= p < n ==> (#[trigger] outs@[p]).wf(),
            forall|p: int, v: Seq<char>|
                0 <= p < n ==> (#[trigger] outs@[p].set().contains(v) <==> exists|c: int|
                    0 <= c < b && #[trigger] phis_feed(blocks@, c, blocks@[c].phis@.len() as int, p, v)),
        decreases n - b,
    {
        let ghost outs0 = outs@;
        let blk = &blocks[b];
        let mut k: usize = 0;
        while k < blk.phis.len()
            invariant
                b < n,
                n == blocks@.len(),
                *blk == blocks@[b as int],
                k <= blk.phis@.len(),
                outs@.len() == n,
                outs0.len() == n,
                forall|p: int| 0 <= p < n ==> (#[trigger] outs@[p]).wf(),
                forall|p: int, v: Seq<char>|
                    0 <= p < n ==> (#[trigger] outs@[p].set().contains(v) <==> outs0[p].set().contains(v)
                        || phis_feed(blocks@, b as int, k as int, p, v)),
            decreases blk.phis@.len() - k,
        {
            let ghost outs1 = outs@;
            let phi = &blk.phis[k];
            if !phi.dst.as_str().is_empty() {
                let mut m: usize = 0;
                while m < phi.inputs.len()
                    invariant
                        b < n,
                        n == blocks@.len(),
                        *blk == blocks@[b as int],
                        k < blk.phis@.len(),
                        *phi == blk.phis@[k as int],
                        m <= phi.inputs@.len(),
                        outs@.len() == n,
                        outs1.len() == n,
                        forall|p: int| 0 <= p < n ==> (#[trigger] outs@[p]).wf(),
                        forall|p: int, v: Seq<char>|
                            0 <= p < n ==> (#[trigger] outs@[p].set().contains(v) <==> outs1[p].set().contains(v)
                                || input_feeds(blocks@, b as int, k as int, m as int, p, v)),
                    decreases phi.inputs@.len() - m,
                {
                    let ghost outs2 = outs@;
                    let input = &phi.inputs[m];
                    let found = find_id(blocks, input.from_block);
                    match found {
                        Some(p) => {
                            outs[p].insert(input.value.clone());
                        },
                        None => {},
                    }
                    proof {
                        assert forall|p: int, v: Seq<char>| 0 <= p < n implies (#[trigger] outs@[p].set().contains(v)
                            <==> outs1[p].set().contains(v) || input_feeds(
                            blocks@,
                            b as int,
                            k as int,
                            m + 1,
                            p,
                            v,
                        )) by {
                            assert(outs2[p].set().contains(v) <==> outs1[p].set().contains(v) || input_feeds(
                                blocks@,
                                b as int,
                                k as int,
                                m as int,
                                p,
                                v,
                            ));
                            lemma_input_feeds_step(blocks@, b as int, k as int, m as int, p, v);
                        }
                    }
                    m = m + 1;
                }
            }
            proof {
                assert forall|p: int, v: Seq<char>| 0 <= p < n implies (#[trigger] outs@[p].set().contains(v) <==> outs0[p].set().contains(
                    v,
                ) || phis_feed(blocks@, b as int, k + 1, p, v)) by {
                    assert(outs1[p].set().contains(v) <==> outs0[p].set().contains(v) || phis_feed(
                        blocks@,
                        b as int,
                        k as int,
                        p,
                        v,
                    ));
                    lemma_phis_feed_step(blocks@, b as int, k as int, p, v);
                }
            }
            k = k + 1;
        }
        proof {
            assert forall|p: int, v: Seq<char>| 0 <= p < n implies (#[trigger] outs@[p].set().contains(v) <==> exists|c: int|
                0 <= c < b + 1 && #[trigger] phis_feed(blocks@, c, blocks@[c].phis@.len() as int, p, v)) by {
                assert(outs0[p].set().contains(v) <==> exists|c: int|
                    0 <= c < b && #[trigger] phis_feed(blocks@, c, blocks@[c].phis@.len() as int, p, v));
            }
        }
        b = b + 1;
    }
    outs
}

proof fn lemma_input_feeds_step(blocks: Seq<SsaBlock>, b: int, k: int, m: int, p: int, v: Seq<char>)
    requires
        0 <= m,
    ensures
        input_feeds(blocks, b, k, m + 1, p, v) <==> input_feeds(blocks, b, k, m, p, v) || (block_with_id(
            blocks,
            blocks[b].phis@[k].inputs@[m].from_block,
            blocks.len() as int,
        ) == Some(p) && blocks[b].phis@[k].inputs@[m].value@ == v),
{
    if input_feeds(blocks, b, k, m + 1, p, v) && !input_feeds(blocks, b, k, m, p, v) {
        let q = choose|q: int|
            0 <= q < m + 1 && block_with_id(
                blocks,
                (#[trigger] blocks[b].phis@[k].inputs@[q]).from_block,
                blocks.len() as int,
            ) == Some(p) && blocks[b].phis@[k].inputs@[q].value@ == v;
        assert(q == m);
    }
    if input_feeds(blocks, b, k, m, p, v) {
        let q = choose|q: int|
            0 <= q < m && block_with_id(
                blocks,
                (#[trigger] blocks[b].phis@[k].inputs@[q]).from_block,
                blocks.len() as int,
            ) == Some(p) && blocks[b].phis@[k].inputs@[q].value@ == v;
        assert(q < m + 1);
    }
    if block_with_id(blocks, blocks[b].phis@[k].inputs@[m].from_block, blocks.len() as int) == Some(p)
        && blocks[b].phis@[k].inputs@[m].value@ == v {
        assert(0 <= m < m + 1);
    }
}

proof fn lemma_phis_feed_step(blocks: Seq<SsaBlock>, b: int, k: int, p: int, v: Seq<char>)
    requires
        0 <= k,
    ensures
        phis_feed(blocks, b, k + 1, p, v) <==> phis_feed(blocks, b, k, p, v) || (blocks[b].phis@[k].dst@.len()
            > 0 && input_feeds(blocks, b, k, blocks[b].phis@[k].inputs@.len() as int, p, v)),
{
    if phis_feed(blocks, b, k + 1, p, v) && !phis_feed(blocks, b, k, p, v) {
        let j = choose|j: int|
            0 <= j < k + 1 && (#[trigger] blocks[b].phis@[j]).dst@.len() > 0 && input_feeds(
                blocks,
                b,
                j,
                blocks[b].phis@[j].inputs@.len() as int,
                p,
                v,
            );
        assert(j == k);
    }
    if phis_feed(blocks, b, k, p, v) {
        let j = choose|j: int|
            0 <= j < k && (#[trigger] blocks[b].phis@[j]).dst@.len() > 0 && input_feeds(
                blocks,
                b,
                j,
                blocks[b].phis@[j].inputs@.len() as int,
                p,
                v,
            );
        assert(j < k + 1);
    }
    if blocks[b].phis@[k].dst@.len() > 0 && input_feeds(
        blocks,
        b,
        k,
        blocks[b].phis@[k].inputs@.len() as int,
        p,
        v,
    ) {
        assert(0 <= k < k + 1);
    }
}

// ---------------------------------------------------------------------------
// Liveness
// ---------------------------------------------------------------------------

/// Within `k` edges after block `i`, the value that `v` has at the end of `i`
/// is read, with no definition of `v` in between.
pub open spec fn wanted_after(blocks: Seq<SsaBlock>, i: int, v: Seq<char>, k: nat) -> bool
    decreases k,
{
    ||| feeds_phi(blocks, i, v)
    ||| k > 0 && exists|j: int|
        0 <= j < blocks.len() && #[trigger] flows(blocks, i, j) && (block_uses(blocks[j], v) || (
        !block_defines(blocks[j], v) && wanted_after(blocks, j, v, (k - 1) as nat)))
}

/// `v` is live at the end of block `i`.
pub open spec fn live_out_at(blocks: Seq<SsaBlock>, i: int, v: Seq<char>) -> bool {
    exists|k: nat| #[trigger] wanted_after(blocks, i, v, k)
}

/// `v` is live at the start of block `i`.
pub open spec fn live_in_at(blocks: Seq<SsaBlock>, i: int, v: Seq<char>) -> bool {
    block_uses(blocks[i], v) || (!block_defines(blocks[i], v) && live_out_at(blocks, i, v))
}

/// The facts that the iteration starts from describe `blocks`.
spec fn facts_ok(
    blocks: Seq<SsaBlock>,
    succ: Seq<Vec<usize>>,
    outs: Seq<NameSet>,
    uses: Seq<NameSet>,
    defs: Seq<NameSet>,
) -> bool {
    let n = blocks.len();
    &&& succ.len() == n && outs.len() == n && uses.len() == n && defs.len() == n
    &&& forall|i: int, k: int| 0 <= i < n && 0 <= k < succ[i]@.len() ==> #[trigger] succ[i]@[k] < n
    &&& forall|i: int, j: int| 0 <= i < n ==> (#[trigger] row_has(succ[i]@, j) <==> flows(blocks, i, j))
    &&& forall|i: int| 0 <= i < n ==> (#[trigger] outs[i]).wf()
    &&& forall|i: int| 0 <= i < n ==> (#[trigger] uses[i]).wf()
    &&& forall|i: int| 0 <= i < n ==> (#[trigger] defs[i]).wf()
    &&& forall|i: int, v: Seq<char>|
        0 <= i < n ==> (#[trigger] outs[i].set().contains(v) <==> feeds_phi(blocks, i, v))
    &&& forall|i: int, v: Seq<char>|
        0 <= i < n ==> (#[trigger] uses[i].set().contains(v) <==> block_uses(blocks[i], v))
    &&& forall|i: int, v: Seq<char>|
        0 <= i < n ==> (#[trigger] defs[i].set().contains(v) <==> block_defines(blocks[i], v))
}

/// `v` is live at the start of some successor of `i`.
spec fn in_some_succ(succ: Seq<Vec<usize>>, live_in: Seq<NameSet>, i: int, v: Seq<char>) -> bool {
    exists|k: int| 0 <= k < succ[i]@.len() && live_in[#[trigger] succ[i]@[k] as int].set().contains(v)
}

/// The sets are well formed and hold nothing that is not live.
spec fn only_live(blocks: Seq<SsaBlock>, live_in: Seq<NameSet>, live_out: Seq<NameSet>) -> bool {
    let n = blocks.len();
    &&& live_in.len() == n && live_out.len() == n
    &&& forall|i: int| 0 <= i < n ==> (#[trigger] live_in[i]).wf()
    &&& forall|i: int| 0 <= i < n ==> (#[trigger] live_out[i]).wf()
    &&& forall|i: int, v: Seq<char>|
        0 <= i < n && #[trigger] live_in[i].set().contains(v) ==> live_in_at(blocks, i, v)
    &&& forall|i: int, v: Seq<char>|
        0 <= i < n && #[trigger] live_out[i].set().contains(v) ==> live_out_at(blocks, i, v)
}

/// One step of the equations never takes anything away.
spec fn growing(
    succ: Seq<Vec<usize>>,
    outs: Seq<NameSet>,
    uses: Seq<NameSet>,
    defs: Seq<NameSet>,
    live_in: Seq<NameSet>,
    live_out: Seq<NameSet>,
) -> bool {
    &&& forall|i: int, v: Seq<char>|
        0 <= i < live_out.len() && #[trigger] live_out[i].set().contains(v) ==> outs[i].set().contains(v)
            || in_some_succ(succ, live_in, i, v)
    &&& forall|i: int, v: Seq<char>|
        0 <= i < live_in.len() && #[trigger] live_in[i].set().contains(v) ==> uses[i].set().contains(v) || (
        live_out[i].set().contains(v) && !defs[i].set().contains(v))
}

/// Every name in the sets is one of `all`.
spec fn within(live_in: Seq<NameSet>, live_out: Seq<NameSet>, all: Set<Seq<char>>) -> bool {
    &&& forall|i: int, v: Seq<char>|
        0 <= i < live_in.len() && #[trigger] live_in[i].set().contains(v) ==> all.contains(v)
    &&& forall|i: int, v: Seq<char>|
        0 <= i < live_out.len() && #[trigger] live_out[i].set().contains(v) ==> all.contains(v)
}

/// The equations hold at block `i`, as far as nothing is missing.
spec fn closed_at(
    succ: Seq<Vec<usize>>,
    outs: Seq<NameSet>,
    uses: Seq<NameSet>,
    defs: Seq<NameSet>,
    live_in: Seq<NameSet>,
    live_out: Seq<NameSet>,
    i: int,
) -> bool {
    &&& forall|v: Seq<char>|
        outs[i].set().contains(v) || in_some_succ(succ, live_in, i, v)
            ==> #[trigger] live_out[i].set().contains(v)
    &&& forall|v: Seq<char>|
        uses[i].set().contains(v) || (live_out[i].set().contains(v) && !defs[i].set().contains(v))
            ==> #[trigger] live_in[i].set().contains(v)
}

/// How much the sets can still grow.
spec fn room(sets: Seq<NameSet>, cap: nat) -> nat
    decreases sets.len(),
{
    if sets.len() == 0 {
        0
    } else {
        room(sets.drop_last(), cap) + if sets.last().items@.len() <= cap {
            (cap - sets.last().items@.len()) as nat
        } else {
            0
        }
    }
}

proof fn lemma_room_update(sets: Seq<NameSet>, cap: nat, i: int, s: NameSet)
    requires
        0 <= i < sets.len(),
        sets[i].items@.len() < s.items@.len() <= cap,
    ensures
        room(sets.update(i, s), cap) < room(sets, cap),
    decreases sets.len(),
{
    let u = sets.update(i, s);
    if i == sets.len() - 1 {
        assert(u.drop_last() =~= sets.drop_last());
    } else {
        assert(u.drop_last() =~= sets.drop_last().update(i, s));
        lemma_room_update(sets.drop_last(), cap, i, s);
    }
}

/// Everything that any of the sets holds.
spec fn union_all(sets: Seq<NameSet>) -> Set<Seq<char>>
    decreases sets.len(),
{
    if sets.len() == 0 {
        Set::empty()
    } else {
        union_all(sets.drop_last()).union(sets.last().set())
    }
}

proof fn lemma_union_all(sets: Seq<NameSet>)
    requires
        forall|i: int| 0 <= i < sets.len() ==> (#[trigger] sets[i]).wf(),
    ensures
        union_all(sets).finite(),
        forall|i: int, v: Seq<char>|
            0 <= i < sets.len() && #[trigger] sets[i].set().contains(v) ==> union_all(sets).contains(v),
    decreases sets.len(),
{
    if sets.len() > 0 {
        let rest = sets.drop_last();
        assert forall|i: int| 0 <= i < rest.len() implies (#[trigger] rest[i]).wf() by {
            assert(rest[i] == sets[i]);
        }
        lemma_union_all(rest);
        assert(sets[sets.len() - 1].wf());
        lemma_set_len(&sets.last());
        assert forall|i: int, v: Seq<char>| 0 <= i < sets.len() && #[trigger] sets[i].set().contains(v) implies union_all(
            sets,
        ).contains(v) by {
            if i < rest.len() {
                assert(rest[i] == sets[i]);
            }
        }
    }
}

proof fn lemma_all_live_found(
    blocks: Seq<SsaBlock>,
    succ: Seq<Vec<usize>>,
    outs: Seq<NameSet>,
    uses: Seq<NameSet>,
    defs: Seq<NameSet>,
    live_in: Seq<NameSet>,
    live_out: Seq<NameSet>,
    i: int,
    v: Seq<char>,
    k: nat,
)
    requires
        facts_ok(blocks, succ, outs, uses, defs),
        live_in.len() == blocks.len(),
        live_out.len() == blocks.len(),
        forall|j: int|
            0 <= j < blocks.len() ==> #[trigger] closed_at(succ, outs, uses, defs, live_in, live_out, j),
        0 <= i < blocks.len(),
        wanted_after(blocks, i, v, k),
    ensures
        live_out[i].set().contains(v),
    decreases k,
{
    assert(closed_at(succ, outs, uses, defs, live_in, live_out, i));
    if feeds_phi(blocks, i, v) {
        assert(outs[i].set().contains(v));
    } else {
        let j = choose|j: int|
            0 <= j < blocks.len() && #[trigger] flows(blocks, i, j) && (block_uses(blocks[j], v) || (
            !block_defines(blocks[j], v) && wanted_after(blocks, j, v, (k - 1) as nat)));
        assert(closed_at(succ, outs, uses, defs, live_in, live_out, j));
        if block_uses(blocks[j], v) {
            assert(uses[j].set().contains(v));
        } else {
            lemma_all_live_found(blocks, succ, outs, uses, defs, live_in, live_out, j, v, (k - 1) as nat);
            assert(!defs[j].set().contains(v));
        }
        assert(live_in[j].set().contains(v));
        assert(row_has(succ[i]@, j));
        let q = choose|q: int| 0 <= q < succ[i]@.len() && #[trigger] succ[i]@[q] == j;
        assert(live_in[succ[i]@[q] as int].set().contains(v));
        assert(in_some_succ(succ, live_in, i, v));
    }
}

/// The right-hand sides of the equations at block `i`.
fn live_step(
    succ: &Vec<usize>,
    outs: &NameSet,
    uses: &NameSet,
    defs: &NameSet,
    live_in: &Vec<NameSet>,
) -> (r: (NameSet, NameSet))
    requires
        outs.wf(),
        uses.wf(),
        defs.wf(),
        forall|k: int| 0 <= k < succ@.len() ==> #[trigger] succ@[k] < live_in@.len(),
        forall|j: int| 0 <= j < live_in@.len() ==> (#[trigger] live_in@[j]).wf(),
    ensures
        r.0.wf(),
        r.1.wf(),
        forall|v: Seq<char>| #[trigger]
            r.0.set().contains(v) <==> outs.set().contains(v) || exists|k: int|
                0 <= k < succ@.len() && live_in@[#[trigger] succ@[k] as int].set().contains(v),
        forall|v: Seq<char>| #[trigger]
            r.1.set().contains(v) <==> uses.set().contains(v) || (r.0.set().contains(v)
                && !defs.set().contains(v)),
{
    let mut new_out = copy_names(outs);
    let mut k: usize = 0;
    while k < succ.len()
        invariant
            k <= succ@.len(),
            new_out.wf(),
            forall|j: int| 0 <= j < succ@.len() ==> #[trigger] succ@[j] < live_in@.len(),
            forall|j: int| 0 <= j < live_in@.len() ==> (#[trigger] live_in@[j]).wf(),
            forall|v: Seq<char>| #[trigger]
                new_out.set().contains(v) <==> outs.set().contains(v) || exists|j: int|
                    0 <= j < k && live_in@[#[trigger] succ@[j] as int].set().contains(v),
        decreases succ@.len() - k,
    {
        let ghost before = new_out.set();
        let j: usize = succ[k];
        add_names(&mut new_out, &live_in[j]);
        proof {
            assert forall|v: Seq<char>| #[trigger] new_out.set().contains(v) <==> outs.set().contains(v) || exists|q: int|
                0 <= q < k + 1 && live_in@[#[trigger] succ@[q] as int].set().contains(v) by {
                assert(before.contains(v) <==> outs.set().contains(v) || exists|q: int|
                    0 <= q < k && live_in@[#[trigger] succ@[q] as int].set().contains(v));
                if live_in@[j as int].set().contains(v) {
                    assert(live_in@[succ@[k as int] as int].set().contains(v));
                }
            }
        }
        k = k + 1;
    }
    let mut new_in = copy_names(uses);
    add_missing(&mut new_in, &new_out, defs);
    (new_out, new_in)
}

/// Two sets, one inside the other, of the same size are the same set.
proof fn lemma_grown(small: NameSet, big: NameSet)
    requires
        small.wf(),
        big.wf(),
        small.set().subset_of(big.set()),
    ensures
        small.items@.len() <= big.items@.len(),
        small.items@.len() == big.items@.len() ==> small.set() == big.set(),
{
    lemma_set_len(&small);
    lemma_set_len(&big);
    vstd::set_lib::lemma_len_subset(small.set(), big.set());
    if small.items@.len() == big.items@.len() {
        vstd::set_lib::lemma_subset_equality(small.set(), big.set());
    }
}

/// Which names are live at the start and at the end of each block. A phi reads
/// its inputs at the end of the blocks they come from, and defines its result
/// at the head of its own.
pub fn liveness(blocks: &[SsaBlock]) -> (r: (Vec<NameSet>, Vec<NameSet>))
    ensures
        r.0@.len() == blocks@.len(),
        r.1@.len() == blocks@.len(),
        forall|i: int| 0 <= i < blocks@.len() ==> (#[trigger] r.0@[i]).wf(),
        forall|i: int| 0 <= i < blocks@.len() ==> (#[trigger] r.1@[i]).wf(),
        forall|i: int, v: Seq<char>|
            0 <= i < blocks@.len() ==> (#[trigger] r.0@[i].set().contains(v) <==> live_in_at(blocks@, i, v)),
        forall|i: int, v: Seq<char>|
            0 <= i < blocks@.len() ==> (#[trigger] r.1@[i].set().contains(v) <==> live_out_at(blocks@, i, v)),
{
    let n: usize = blocks.len();
    let outs = phi_outs(blocks);
    let mut succ: Vec<Vec<usize>> = Vec::new();
    let mut uses: Vec<NameSet> = Vec::new();
    let mut defs: Vec<NameSet> = Vec::new();
    let mut live_in: Vec<NameSet> = Vec::new();
    let mut live_out: Vec<NameSet> = Vec::new();
    let mut m: usize = 0;
    while m < n
        invariant
            m <= n,
            n == blocks@.len(),
            succ@.len() == m,
            uses@.len() == m,
            defs@.len() == m,
            live_in@.len() == m,
            live_out@.len() == m,
            forall|i: int, k: int| 0 <= i < m && 0 <= k < succ@[i]@.len() ==> #[trigger] succ@[i]@[k] < n,
            forall|i: int, j: int|
                0 <= i < m ==> (#[trigger] row_has(succ@[i]@, j) <==> flows(blocks@, i, j)),
            forall|i: int| 0 <= i < m ==> (#[trigger] uses@[i]).wf(),
            forall|i: int| 0 <= i < m ==> (#[trigger] defs@[i]).wf(),
            forall|i: int| 0 <= i < m ==> (#[trigger] live_in@[i]).wf(),
            forall|i: int| 0 <= i < m ==> (#[trigger] live_out@[i]).wf(),
            forall|i: int, v: Seq<char>|
                0 <= i < m ==> (#[trigger] uses@[i].set().contains(v) <==> block_uses(blocks@[i], v)),
            forall|i: int, v: Seq<char>|
                0 <= i < m ==> (#[trigger] defs@[i].set().contains(v) <==> block_defines(blocks@[i], v)),
            forall|i: int, v: Seq<char>| 0 <= i < m ==> !(#[trigger] live_in@[i].set().contains(v)),
            forall|i: int, v: Seq<char>| 0 <= i < m ==> !(#[trigger] live_out@[i].set().contains(v)),
        decreases n - m,
    {
        succ.push(flow_row(blocks, m));
        let (u, d) = block_use_def(&blocks[m]);
        uses.push(u);
        defs.push(d);
        live_in.push(SortedSet::new());
        live_out.push(SortedSet::new());
        m = m + 1;
    }
    let ghost all = union_all(outs@).union(union_all(uses@));
    let ghost cap = all.len();
    proof {
        lemma_union_all(outs@);
        lemma_union_all(uses@);
        assert(facts_ok(blocks@, succ@, outs@, uses@, defs@));
    }
    let mut changed = true;
    while changed
        invariant
            n == blocks@.len(),
            facts_ok(blocks@, succ@, outs@, uses@, defs@),
            only_live(blocks@, live_in@, live_out@),
            growing(succ@, outs@, uses@, defs@, live_in@, live_out@),
            all == union_all(outs@).union(union_all(uses@)),
            all.finite(),
            cap == all.len(),
            within(live_in@, live_out@, all),
            forall|i: int, v: Seq<char>|
                0 <= i < n && #[trigger] outs@[i].set().contains(v) ==> all.contains(v),
            forall|i: int, v: Seq<char>|
                0 <= i < n && #[trigger] uses@[i].set().contains(v) ==> all.contains(v),
            !changed ==> forall|j: int|
                0 <= j < n ==> #[trigger] closed_at(succ@, outs@, uses@, defs@, live_in@, live_out@, j),
        decreases room(live_in@, cap) + room(live_out@, cap), changed as int,
    {
        changed = false;
        let ghost r0 = room(live_in@, cap) + room(live_out@, cap);
        let mut i: usize = n;
        while i > 0
            invariant
                i <= n,
                n == blocks@.len(),
                facts_ok(blocks@, succ@, outs@, uses@, defs@),
                only_live(blocks@, live_in@, live_out@),
                growing(succ@, outs@, uses@, defs@, live_in@, live_out@),
                all == union_all(outs@).union(union_all(uses@)),
                all.finite(),
                cap == all.len(),
                within(live_in@, live_out@, all),
                forall|j: int, v: Seq<char>|
                    0 <= j < n && #[trigger] outs@[j].set().contains(v) ==> all.contains(v),
                forall|j: int, v: Seq<char>|
                    0 <= j < n && #[trigger] uses@[j].set().contains(v) ==> all.contains(v),
                !changed ==> forall|j: int|
                    i <= j < n ==> #[trigger] closed_at(succ@, outs@, uses@, defs@, live_in@, live_out@, j),
                changed ==> room(live_in@, cap) + room(live_out@, cap) < r0,
                !changed ==> room(live_in@, cap) + room(live_out@, cap) == r0,
            decreases i,
        {
            i = i - 1;
            let ghost in0 = live_in@;
            let ghost out0 = live_out@;
            let (new_out, new_in) = live_step(&succ[i], &outs[i], &uses[i], &defs[i], &live_in);
            proof {
                lemma_live_step(
                    blocks@,
                    succ@,
                    outs@,
                    uses@,
                    defs@,
                    in0,
                    out0,
                    i as int,
                    new_out,
                    new_in,
                    all,
                );
                lemma_grown(out0[i as int], new_out);
                lemma_grown(in0[i as int], new_in);
                lemma_set_len(&new_out);
                lemma_set_len(&new_in);
                vstd::set_lib::lemma_len_subset(new_out.set(), all);
                vstd::set_lib::lemma_len_subset(new_in.set(), all);
            }
            let ghost no = new_out;
            let ghost ni = new_in;
            let out_changed = new_out.items.len() != live_out[i].items.len();
            if out_changed {
                proof {
                    lemma_room_update(out0, cap, i as int, new_out);
                }
                live_out[i] = new_out;
                changed = true;
            }
            let in_changed = new_in.items.len() != live_in[i].items.len();
            if in_changed {
                proof {
                    lemma_room_update(in0, cap, i as int, new_in);
                }
                live_in[i] = new_in;
                changed = true;
            }
            proof {
                lemma_live_update(
                    blocks@,
                    succ@,
                    outs@,
                    uses@,
                    defs@,
                    in0,
                    out0,
                    live_in@,
                    live_out@,
                    i as int,
                    no,
                    ni,
                    all,
                );
                if !changed {
                    assert(live_in@ =~= in0);
                    assert(live_out@ =~= out0);
                    assert(closed_at(succ@, outs@, uses@, defs@, live_in@, live_out@, i as int));
                }
            }
        }
    }
    proof {
        assert forall|i: int, v: Seq<char>| 0 <= i < n implies (#[trigger] live_out@[i].set().contains(v)
            <==> live_out_at(blocks@, i, v)) by {
            if live_out_at(blocks@, i, v) {
                let k = choose|k: nat| #[trigger] wanted_after(blocks@, i, v, k);
                lemma_all_live_found(
                    blocks@,
                    succ@,
                    outs@,
                    uses@,
                    defs@,
                    live_in@,
                    live_out@,
                    i,
                    v,
                    k,
                );
            }
        }
        assert forall|i: int, v: Seq<char>| 0 <= i < n implies (#[trigger] live_in@[i].set().contains(v)
            <==> live_in_at(blocks@, i, v)) by {
            assert(closed_at(succ@, outs@, uses@, defs@, live_in@, live_out@, i));
            if live_in_at(blocks@, i, v) {
                if block_uses(blocks@[i], v) {
                    assert(uses@[i].set().contains(v));
                } else {
                    assert(live_out@[i].set().contains(v));
                    assert(!defs@[i].set().contains(v));
                }
            }
        }
    }
    (live_in, live_out)
}

/// What one step gives is live, is inside `all`, and holds what was there.
proof fn lemma_live_step(
    blocks: Seq<SsaBlock>,
    succ: Seq<Vec<usize>>,
    outs: Seq<NameSet>,
    uses: Seq<NameSet>,
    defs: Seq<NameSet>,
    in0: Seq<NameSet>,
    out0: Seq<NameSet>,
    i: int,
    new_out: NameSet,
    new_in: NameSet,
    all: Set<Seq<char>>,
)
    requires
        facts_ok(blocks, succ, outs, uses, defs),
        only_live(blocks, in0, out0),
        growing(succ, outs, uses, defs, in0, out0),
        within(in0, out0, all),
        forall|j: int, v: Seq<char>|
            0 <= j < blocks.len() && #[trigger] outs[j].set().contains(v) ==> all.contains(v),
        forall|j: int, v: Seq<char>|
            0 <= j < blocks.len() && #[trigger] uses[j].set().contains(v) ==> all.contains(v),
        0 <= i < blocks.len(),
        forall|v: Seq<char>| #[trigger]
            new_out.set().contains(v) <==> outs[i].set().contains(v) || in_some_succ(succ, in0, i, v),
        forall|v: Seq<char>| #[trigger]
            new_in.set().contains(v) <==> uses[i].set().contains(v) || (new_out.set().contains(v)
                && !defs[i].set().contains(v)),
    ensures
        out0[i].set().subset_of(new_out.set()),
        in0[i].set().subset_of(new_in.set()),
        new_out.set().subset_of(all),
        new_in.set().subset_of(all),
        forall|v: Seq<char>| #[trigger] new_out.set().contains(v) ==> live_out_at(blocks, i, v),
        forall|v: Seq<char>| #[trigger] new_in.set().contains(v) ==> live_in_at(blocks, i, v),
{
    assert forall|v: Seq<char>| out0[i].set().contains(v) implies #[trigger] new_out.set().contains(v) by {}
    assert forall|v: Seq<char>| in0[i].set().contains(v) implies #[trigger] new_in.set().contains(v) by {}
    assert forall|v: Seq<char>| #[trigger] new_out.set().contains(v) implies live_out_at(blocks, i, v)
        && all.contains(v) by {
        if outs[i].set().contains(v) {
            assert(feeds_phi(blocks, i, v));
            assert(wanted_after(blocks, i, v, 0));
        } else {
            let k = choose|k: int|
                0 <= k < succ[i]@.len() && in0[#[trigger] succ[i]@[k] as int].set().contains(v);
            let j = succ[i]@[k] as int;
            assert(row_has(succ[i]@, j));
            assert(flows(blocks, i, j));
            assert(live_in_at(blocks, j, v));
            if block_uses(blocks[j], v) {
                assert(wanted_after(blocks, i, v, 1));
            } else {
                let q = choose|q: nat| #[trigger] wanted_after(blocks, j, v, q);
                assert(wanted_after(blocks, i, v, q + 1)) by {
                    assert((q + 1 - 1) as nat == q);
                }
            }
        }
    }
    assert forall|v: Seq<char>| #[trigger] new_in.set().contains(v) implies live_in_at(blocks, i, v)
        && all.contains(v) by {
        if uses[i].set().contains(v) {
            assert(block_uses(blocks[i], v));
        } else {
            assert(new_out.set().contains(v));
            assert(!block_defines(blocks[i], v));
        }
    }
}

/// Putting the result of a step in place keeps the invariants.
proof fn lemma_live_update(
    blocks: Seq<SsaBlock>,
    succ: Seq<Vec<usize>>,
    outs: Seq<NameSet>,
    uses: Seq<NameSet>,
    defs: Seq<NameSet>,
    in0: Seq<NameSet>,
    out0: Seq<NameSet>,
    in1: Seq<NameSet>,
    out1: Seq<NameSet>,
    i: int,
    new_out: NameSet,
    new_in: NameSet,
    all: Set<Seq<char>>,
)
    requires
        facts_ok(blocks, succ, outs, uses, defs),
        only_live(blocks, in0, out0),
        growing(succ, outs, uses, defs, in0, out0),
        within(in0, out0, all),
        0 <= i < blocks.len(),
        new_out.wf(),
        new_in.wf(),
        forall|v: Seq<char>| #[trigger]
            new_out.set().contains(v) <==> outs[i].set().contains(v) || in_some_succ(succ, in0, i, v),
        forall|v: Seq<char>| #[trigger]
            new_in.set().contains(v) <==> uses[i].set().contains(v) || (new_out.set().contains(v)
                && !defs[i].set().contains(v)),
        out0[i].set().subset_of(new_out.set()),
        in0[i].set().subset_of(new_in.set()),
        new_out.set().subset_of(all),
        new_in.set().subset_of(all),
        forall|v: Seq<char>| #[trigger] new_out.set().contains(v) ==> live_out_at(blocks, i, v),
        forall|v: Seq<char>| #[trigger] new_in.set().contains(v) ==> live_in_at(blocks, i, v),
        in1.len() == in0.len(),
        out1.len() == out0.len(),
        forall|j: int| 0 <= j < in1.len() && j != i ==> #[trigger] in1[j] == in0[j],
        forall|j: int| 0 <= j < out1.len() && j != i ==> #[trigger] out1[j] == out0[j],
        in1[i] == new_in || (in1[i] == in0[i] && in0[i].set() == new_in.set()),
        out1[i] == new_out || (out1[i] == out0[i] && out0[i].set() == new_out.set()),
    ensures
        only_live(blocks, in1, out1),
        growing(succ, outs, uses, defs, in1, out1),
        within(in1, out1, all),
        (in1[i].set() == in0[i].set() && out1[i].set() == out0[i].set()) ==> closed_at(
            succ,
            outs,
            uses,
            defs,
            in1,
            out1,
            i,
        ),
{
    assert forall|j: int, v: Seq<char>| 0 <= j < in0.len() && #[trigger] in0[j].set().contains(v) implies in1[j].set().contains(
        v,
    ) by {
        if j != i {
            assert(in1[j] == in0[j]);
        }
    }
    assert forall|j: int, v: Seq<char>| in_some_succ(succ, in0, j, v) && 0 <= j < blocks.len() implies #[trigger] in_some_succ(
        succ,
        in1,
        j,
        v,
    ) by {
        let k = choose|k: int|
            0 <= k < succ[j]@.len() && in0[#[trigger] succ[j]@[k] as int].set().contains(v);
        assert(in1[succ[j]@[k] as int].set().contains(v));
    }
    assert forall|j: int, v: Seq<char>| 0 <= j < out1.len() && #[trigger] out1[j].set().contains(v) implies outs[j].set().contains(
        v,
    ) || in_some_succ(succ, in1, j, v) by {
        if j != i {
            assert(out1[j] == out0[j]);
            assert(out0[j].set().contains(v));
        } else {
            assert(new_out.set().contains(v));
        }
    }
    assert forall|j: int, v: Seq<char>| 0 <= j < in1.len() && #[trigger] in1[j].set().contains(v) implies uses[j].set().contains(
        v,
    ) || (out1[j].set().contains(v) && !defs[j].set().contains(v)) by {
        if j != i {
            assert(in1[j] == in0[j]);
            assert(out1[j] == out0[j]);
            assert(in0[j].set().contains(v));
        } else {
            assert(new_in.set().contains(v));
        }
    }
    assert forall|j: int, v: Seq<char>| 0 <= j < in1.len() && #[trigger] in1[j].set().contains(v) implies live_in_at(
        blocks,
        j,
        v,
    ) && all.contains(v) by {
        if j != i {
            assert(in1[j] == in0[j]);
            assert(in0[j].set().contains(v));
        } else {
            assert(new_in.set().contains(v));
        }
    }
    assert forall|j: int, v: Seq<char>| 0 <= j < out1.len() && #[trigger] out1[j].set().contains(v) implies live_out_at(
        blocks,
        j,
        v,
    ) && all.contains(v) by {
        if j != i {
            assert(out1[j] == out0[j]);
            assert(out0[j].set().contains(v));
        } else {
            assert(new_out.set().contains(v));
        }
    }
    assert forall|j: int| 0 <= j < in1.len() implies (#[trigger] in1[j]).wf() by {
        if j != i {
            assert(in1[j] == in0[j]);
        }
        assert(in0[j].wf());
    }
    assert forall|j: int| 0 <= j < out1.len() implies (#[trigger] out1[j]).wf() by {
        if j != i {
            assert(out1[j] == out0[j]);
        }
        assert(out0[j].wf());
    }
    if in1[i].set() == in0[i].set() && out1[i].set() == out0[i].set() {
        assert forall|v: Seq<char>| outs[i].set().contains(v) || in_some_succ(succ, in1, i, v) implies #[trigger] out1[i].set().contains(
            v,
        ) by {
            if in_some_succ(succ, in1, i, v) {
                let k = choose|k: int|
                    0 <= k < succ[i]@.len() && in1[#[trigger] succ[i]@[k] as int].set().contains(v);
                assert(in0[succ[i]@[k] as int].set().contains(v));
                assert(in_some_succ(succ, in0, i, v));
            }
            assert(new_out.set().contains(v));
        }
        assert forall|v: Seq<char>|
            uses[i].set().contains(v) || (out1[i].set().contains(v) && !defs[i].set().contains(v)) implies #[trigger] in1[i].set().contains(
            v,
        ) by {
            assert(new_in.set().contains(v));
        }
    }
}

// ---------------------------------------------------------------------------
// Phi webs
// ---------------------------------------------------------------------------

/// The flags pseudo-register is never shown, so its webs are left alone.
pub open spec fn flag_name(n: Seq<char>) -> bool {
    root_name(n) == "flags"@
}

/// Is this a version of the flags pseudo-register?
pub fn is_flags(name: &str) -> (r: bool)
    ensures
        r == flag_name(name@),
{
    same(before_dot(name), "flags")
}

/// Disjoint sets of names. Each name that was ever merged is mapped to the
/// representative of its set.
pub struct Uf {
    pub root: NameMap<String>,
}

impl Uf {
    /// Representatives represent themselves.
    pub open spec fn wf(&self) -> bool {
        &&& self.root.wf()
        &&& forall|x: Seq<char>| self.rep(#[trigger] self.rep(x)) == self.rep(x)
    }

    /// The representative of `x`.
    pub open spec fn rep(&self, x: Seq<char>) -> Seq<char> {
        if self.root.map().contains_key(x) {
            self.root.map()[x]@
        } else {
            x
        }
    }

    /// Every name on its own.
    pub fn new() -> (r: Uf)
        ensures
            r.wf(),
            forall|x: Seq<char>| #[trigger] r.rep(x) == x,
    {
        Uf { root: SortedMap::new() }
    }

    /// The representative of `x`.
    pub fn find(&self, x: &String) -> (r: String)
        requires
            self.wf(),
        ensures
            r@ == self.rep(x@),
    {
        match self.root.get(x) {
            Some(p) => p.clone(),
            None => x.clone(),
        }
    }

    /// Merges the sets of `a` and `b`; the representative of `b` stays.
    pub fn union(&mut self, a: &String, b: &String)
        requires
            old(self).wf(),
        ensures
            final(self).wf(),
            forall|x: Seq<char>| #[trigger]
                final(self).rep(x) == if old(self).rep(x) == old(self).rep(a@) {
                    old(self).rep(b@)
                } else {
                    old(self).rep(x)
                },
    {
        let ra = self.find(a);
        let rb = self.find(b);
        let ghost keys0 = self.root.keys@;
        let ghost start = *self;
        let mut i: usize = 0;
        while i < self.root.keys.len()
            invariant
                i <= self.root.keys@.len(),
                self.root.wf(),
                start.wf(),
                self.root.keys@ == keys0,
                start.root.keys@ == keys0,
                forall|j: int|
                    0 <= j < i ==> (#[trigger] self.root.vals@[j])@ == if start.root.vals@[j]@ == ra@ {
                        rb@
                    } else {
                        start.root.vals@[j]@
                    },
                forall|j: int| i <= j < keys0.len() ==> self.root.vals@[j] == start.root.vals@[j],
            decreases self.root.keys@.len() - i,
        {
            if same(self.root.vals[i].as_str(), ra.as_str()) {
                self.root.vals.set(i, rb.clone());
            }
            i = i + 1;
        }
        proof {
            assert forall|x: Seq<char>| #[trigger] self.rep(x) == if self.root.map().contains_key(x) {
                if start.rep(x) == ra@ {
                    rb@
                } else {
                    start.rep(x)
                }
            } else {
                x
            } && (self.root.map().contains_key(x) <==> start.root.map().contains_key(x)) by {
                if self.root.map().contains_key(x) {
                    let j = crate::sorted::index_of_model(keys0, x);
                    assert(holds(keys0, x));
                    assert(keys0[j].model() == x);
                    lemma_map_at(&self.root, j);
                    lemma_map_at(&start.root, j);
                }
            }
        }
        let ghost mid = *self;
        let ghost ram = ra@;
        self.root.insert(ra, rb.clone());
        proof {
            assert forall|x: Seq<char>| #[trigger] self.rep(x) == if start.rep(x) == ram {
                rb@
            } else {
                start.rep(x)
            } by {
                assert(mid.rep(x) == mid.rep(x));
                assert(start.rep(ram) == ram) by {
                    assert(start.rep(start.rep(a@)) == start.rep(a@));
                }
            }
            assert forall|x: Seq<char>| self.rep(#[trigger] self.rep(x)) == self.rep(x) by {
                assert(start.rep(start.rep(x)) == start.rep(x));
                assert(start.rep(start.rep(b@)) == start.rep(b@));
                let y = self.rep(x);
                assert(self.rep(y) == if start.rep(y) == ram {
                    rb@
                } else {
                    start.rep(y)
                });
            }
        }
    }
}

/// A phi whose web may be merged.
pub open spec fn web_phi(p: Phi) -> bool {
    p.dst@.len() > 0 && !flag_name(p.dst@)
}

/// The merges that the first `m` inputs of a phi ask for.
pub open spec fn phi_pairs(p: Phi, m: nat) -> Seq<(Seq<char>, Seq<char>)>
    decreases m,
{
    if m == 0 {
        Seq::empty()
    } else {
        let before = phi_pairs(p, (m - 1) as nat);
        if flag_name(p.inputs@[m - 1].value@) {
            before
        } else {
            before.push((p.dst@, p.inputs@[m - 1].value@))
        }
    }
}

/// The merges that the first `k` phis of a block ask for.
pub open spec fn block_pairs(b: SsaBlock, k: nat) -> Seq<(Seq<char>, Seq<char>)>
    decreases k,
{
    if k == 0 {
        Seq::empty()
    } else {
        let before = block_pairs(b, (k - 1) as nat);
        if web_phi(b.phis@[k - 1]) {
            before + phi_pairs(b.phis@[k - 1], b.phis@[k - 1].inputs@.len())
        } else {
            before
        }
    }
}

/// The merges that the first `i` blocks ask for, in order.
pub open spec fn web_pairs(blocks: Seq<SsaBlock>, i: nat) -> Seq<(Seq<char>, Seq<char>)>
    decreases i,
{
    if i == 0 {
        Seq::empty()
    } else {
        web_pairs(blocks, (i - 1) as nat) + block_pairs(blocks[i - 1], blocks[i - 1].phis@.len())
    }
}

/// The representative of `x` after the first `k` merges.
pub open spec fn rep_after(pairs: Seq<(Seq<char>, Seq<char>)>, k: nat, x: Seq<char>) -> Seq<char>
    decreases k,
{
    if k == 0 {
        x
    } else {
        let p = pairs[k - 1];
        let r = rep_after(pairs, (k - 1) as nat, x);
        if r == rep_after(pairs, (k - 1) as nat, p.0) {
            rep_after(pairs, (k - 1) as nat, p.1)
        } else {
            r
        }
    }
}

/// The representative of `x` among all versions that phis join.
pub open spec fn web_rep(blocks: Seq<SsaBlock>, x: Seq<char>) -> Seq<char> {
    let pairs = web_pairs(blocks, blocks.len());
    rep_after(pairs, pairs.len(), x)
}

/// One of the first `m` inputs of a phi is `x`, and no flags version.
pub open spec fn is_input(p: Phi, m: int, x: Seq<char>) -> bool {
    exists|q: int| 0 <= q < m && (#[trigger] p.inputs@[q]).value@ == x && !flag_name(x)
}

/// `x` takes part in one of the first `k` phis of `b`.
pub open spec fn in_block_web(b: SsaBlock, k: int, x: Seq<char>) -> bool {
    exists|j: int|
        0 <= j < k && web_phi(#[trigger] b.phis@[j]) && (b.phis@[j].dst@ == x || is_input(
            b.phis@[j],
            b.phis@[j].inputs@.len() as int,
            x,
        ))
}

/// `x` takes part in a phi of one of the first `i` blocks.
pub open spec fn in_web_upto(blocks: Seq<SsaBlock>, i: int, x: Seq<char>) -> bool {
    exists|b: int|
        0 <= b < i && #[trigger] in_block_web(blocks[b], blocks[b].phis@.len() as int, x)
}

/// `x` is a version that some phi joins.
pub open spec fn in_web(blocks: Seq<SsaBlock>, x: Seq<char>) -> bool {
    in_web_upto(blocks, blocks.len() as int, x)
}

proof fn lemma_rep_prefix(a: Seq<(Seq<char>, Seq<char>)>, b: Seq<(Seq<char>, Seq<char>)>, k: nat, x: Seq<char>)
    requires
        k <= a.len(),
        k <= b.len(),
        forall|j: int| 0 <= j < k ==> a[j] == b[j],
    ensures
        rep_after(a, k, x) == rep_after(b, k, x),
    decreases k,
{
    if k > 0 {
        lemma_rep_prefix(a, b, (k - 1) as nat, x);
        lemma_rep_prefix(a, b, (k - 1) as nat, a[k - 1].0);
        lemma_rep_prefix(a, b, (k - 1) as nat, a[k - 1].1);
    }
}

proof fn lemma_rep_push(a: Seq<(Seq<char>, Seq<char>)>, p: (Seq<char>, Seq<char>), x: Seq<char>)
    ensures
        rep_after(a.push(p), (a.len() + 1) as nat, x) == if rep_after(a, a.len(), x) == rep_after(
            a,
            a.len(),
            p.0,
        ) {
            rep_after(a, a.len(), p.1)
        } else {
            rep_after(a, a.len(), x)
        },
{
    let b = a.push(p);
    lemma_rep_prefix(b, a, a.len(), x);
    lemma_rep_prefix(b, a, a.len(), p.0);
    lemma_rep_prefix(b, a, a.len(), p.1);
}

/// The versions that phis join, and who represents whom among them.
fn phi_webs(blocks: &[SsaBlock]) -> (r: (NameSet, Uf))
    ensures
        r.0.wf(),
        r.1.wf(),
        forall|x: Seq<char>| #[trigger] r.0.set().contains(x) <==> in_web(blocks@, x),
        forall|x: Seq<char>| #[trigger] r.1.rep(x) == web_rep(blocks@, x),
{
    let mut members: NameSet = SortedSet::new();
    let mut uf = Uf::new();
    let mut i: usize = 0;
    while i < blocks.len()
        invariant
            i <= blocks@.len(),
            members.wf(),
            uf.wf(),
            forall|x: Seq<char>| #[trigger] members.set().contains(x) <==> in_web_upto(blocks@, i as int, x),
            forall|x: Seq<char>| #[trigger]
                uf.rep(x) == rep_after(web_pairs(blocks@, i as nat), web_pairs(blocks@, i as nat).len(), x),
        decreases blocks@.len() - i,
    {
        let b = &blocks[i];
        let ghost base = web_pairs(blocks@, i as nat);
        let ghost members0 = members.set();
        let mut k: usize = 0;
        proof {
            assert(base + block_pairs(*b, 0) =~= base);
        }
        while k < b.phis.len()
            invariant
                i < blocks@.len(),
                *b == blocks@[i as int],
                k <= b.phis@.len(),
                members.wf(),
                uf.wf(),
                forall|x: Seq<char>| #[trigger]
                    members.set().contains(x) <==> members0.contains(x) || in_block_web(*b, k as int, x),
                forall|x: Seq<char>| #[trigger]
                    uf.rep(x) == rep_after(
                        base + block_pairs(*b, k as nat),
                        (base + block_pairs(*b, k as nat)).len(),
                        x,
                    ),
            decreases b.phis@.len() - k,
        {
            let phi = &b.phis[k];
            let ghost members1 = members.set();
            if !phi.dst.as_str().is_empty() && !is_flags(phi.dst.as_str()) {
                members.insert(phi.dst.clone());
                let ghost base1 = base + block_pairs(*b, k as nat);
                proof {
                    assert(base1 + phi_pairs(*phi, 0) =~= base1);
                }
                let mut m: usize = 0;
                while m < phi.inputs.len()
                    invariant
                        m <= phi.inputs@.len(),
                        members.wf(),
                        uf.wf(),
                        forall|x: Seq<char>| #[trigger]
                            members.set().contains(x) <==> members1.contains(x) || x == phi.dst@ || is_input(
                                *phi,
                                m as int,
                                x,
                            ),
                        forall|x: Seq<char>| #[trigger]
                            uf.rep(x) == rep_after(
                                base1 + phi_pairs(*phi, m as nat),
                                (base1 + phi_pairs(*phi, m as nat)).len(),
                                x,
                            ),
                    decreases phi.inputs@.len() - m,
                {
                    let input = &phi.inputs[m];
                    let ghost members2 = members.set();
                    let ghost uf2 = uf;
                    let ghost now = base1 + phi_pairs(*phi, m as nat);
                    if !is_flags(input.value.as_str()) {
                        members.insert(input.value.clone());
                        uf.union(&phi.dst, &input.value);
                        proof {
                            let p = (phi.dst@, input.value@);
                            assert(base1 + phi_pairs(*phi, (m + 1) as nat) =~= now.push(p));
                            assert forall|x: Seq<char>| #[trigger] uf.rep(x) == rep_after(
                                now.push(p),
                                now.push(p).len(),
                                x,
                            ) by {
                                lemma_rep_push(now, p, x);
                                assert(uf2.rep(x) == rep_after(now, now.len(), x));
                                assert(uf2.rep(p.0) == rep_after(now, now.len(), p.0));
                                assert(uf2.rep(p.1) == rep_after(now, now.len(), p.1));
                            }
                        }
                    }
                    proof {
                        assert forall|x: Seq<char>| #[trigger] members.set().contains(x) <==> members1.contains(x)
                            || x == phi.dst@ || is_input(*phi, m + 1, x) by {
                            assert(members2.contains(x) <==> members1.contains(x) || x == phi.dst@ || is_input(
                                *phi,
                                m as int,
                                x,
                            ));
                            if is_input(*phi, m as int, x) {
                                let q = choose|q: int|
                                    0 <= q < m && (#[trigger] phi.inputs@[q]).value@ == x && !flag_name(x);
                                assert(q < m + 1);
                            }
                            if is_input(*phi, m + 1, x) && !is_input(*phi, m as int, x) {
                                let q = choose|q: int|
                                    0 <= q < m + 1 && (#[trigger] phi.inputs@[q]).value@ == x && !flag_name(x);
                                assert(q == m);
                            }
                            if x == input.value@ && !flag_name(x) {
                                assert(phi.inputs@[m as int].value@ == x);
                            }
                        }
                    }
                    m = m + 1;
                }
                proof {
                    assert(base1 + phi_pairs(*phi, phi.inputs@.len()) =~= base + block_pairs(
                        *b,
                        (k + 1) as nat,
                    ));
                }
            }
            proof {
                assert forall|x: Seq<char>| #[trigger] members.set().contains(x) <==> members0.contains(x) || in_block_web(
                    *b,
                    k + 1,
                    x,
                ) by {
                    assert(members1.contains(x) <==> members0.contains(x) || in_block_web(*b, k as int, x));
                    if in_block_web(*b, k as int, x) {
                        let j = choose|j: int|
                            0 <= j < k && web_phi(#[trigger] b.phis@[j]) && (b.phis@[j].dst@ == x || is_input(
                                b.phis@[j],
                                b.phis@[j].inputs@.len() as int,
                                x,
                            ));
                        assert(j < k + 1);
                    }
                    if in_block_web(*b, k + 1, x) && !in_block_web(*b, k as int, x) {
                        let j = choose|j: int|
                            0 <= j < k + 1 && web_phi(#[trigger] b.phis@[j]) && (b.phis@[j].dst@ == x
                                || is_input(b.phis@[j], b.phis@[j].inputs@.len() as int, x));
                        assert(j == k);
                    }
                    if web_phi(*phi) && (phi.dst@ == x || is_input(*phi, phi.inputs@.len() as int, x)) {
                        assert(web_phi(b.phis@[k as int]));
                    }
                }
            }
            k = k + 1;
        }
        proof {
            assert forall|x: Seq<char>| #[trigger] members.set().contains(x) <==> in_web_upto(blocks@, i + 1, x) by {
                assert(members0.contains(x) <==> in_web_upto(blocks@, i as int, x));
                if in_web_upto(blocks@, i + 1, x) && !in_web_upto(blocks@, i as int, x) {
                    let c = choose|c: int|
                        0 <= c < i + 1 && #[trigger] in_block_web(blocks@[c], blocks@[c].phis@.len() as int, x);
                    assert(c == i);
                }
                if in_web_upto(blocks@, i as int, x) {
                    let c = choose|c: int|
                        0 <= c < i && #[trigger] in_block_web(blocks@[c], blocks@[c].phis@.len() as int, x);
                    assert(c < i + 1);
                }
                if in_block_web(*b, b.phis@.len() as int, x) {
                    assert(in_block_web(blocks@[i as int], blocks@[i as int].phis@.len() as int, x));
                }
            }
        }
        i = i + 1;
    }
    (members, uf)
}

// ---------------------------------------------------------------------------
// Interference
// ---------------------------------------------------------------------------

/// The names that are live before statement `t` of block `i`; after the last
/// statement, those that live on and those that the branch condition reads.
pub open spec fn live_before(blocks: Seq<SsaBlock>, i: int, t: int) -> Set<Seq<char>>
    decreases blocks[i].stmts@.len() - t,
{
    let b = blocks[i];
    if t >= b.stmts@.len() {
        Set::new(|v: Seq<char>| live_out_at(blocks, i, v) || (b.condition matches Some(c) && vars_of(c).contains(v)))
    } else {
        let after = live_before(blocks, i, t + 1);
        let kept = match def_of(b.stmts@[t].stmt) {
            Some(d) => after.remove(d),
            None => after,
        };
        kept.union(uses_of(b.stmts@[t].stmt))
    }
}

/// The names that are live at the head of block `i`, without the results of
/// its first `k` phis.
pub open spec fn live_at_phi(blocks: Seq<SsaBlock>, i: int, k: nat) -> Set<Seq<char>>
    decreases k,
{
    if k == 0 {
        live_before(blocks, i, 0)
    } else {
        let before = live_at_phi(blocks, i, (k - 1) as nat);
        let d = blocks[i].phis@[k - 1].dst@;
        if d.len() == 0 {
            before
        } else {
            before.remove(d)
        }
    }
}

/// Statement `t` of block `i` defines `a` while `b` is live.
pub open spec fn clash_at_stmt(blocks: Seq<SsaBlock>, i: int, t: int, a: Seq<char>, b: Seq<char>) -> bool {
    def_of(blocks[i].stmts@[t].stmt) == Some(a) && live_before(blocks, i, t + 1).contains(b)
}

/// Phi `k` of block `i` defines `a` while `b` is live.
pub open spec fn clash_at_phi(blocks: Seq<SsaBlock>, i: int, k: int, a: Seq<char>, b: Seq<char>) -> bool {
    &&& blocks[i].phis@[k].dst@ == a
    &&& a.len() > 0
    &&& live_at_phi(blocks, i, k as nat).contains(b)
}

/// Block `i` defines `a`, in statement `t` or later, while `b` is live.
pub open spec fn clash_from(blocks: Seq<SsaBlock>, i: int, t: int, a: Seq<char>, b: Seq<char>) -> bool {
    exists|s: int| t <= s < blocks[i].stmts@.len() && #[trigger] clash_at_stmt(blocks, i, s, a, b)
}

/// One of the first `k` phis of block `i` defines `a` while `b` is live.
pub open spec fn clash_in_phis(blocks: Seq<SsaBlock>, i: int, k: int, a: Seq<char>, b: Seq<char>) -> bool {
    exists|j: int| 0 <= j < k && #[trigger] clash_at_phi(blocks, i, j, a, b)
}

/// Block `i` defines `a` while `b` is live.
pub open spec fn clash_in_block(blocks: Seq<SsaBlock>, i: int, a: Seq<char>, b: Seq<char>) -> bool {
    clash_from(blocks, i, 0, a, b) || clash_in_phis(blocks, i, blocks[i].phis@.len() as int, a, b)
}

/// One of the first `n` blocks defines `a` while `b` is live.
pub open spec fn clash_upto(blocks: Seq<SsaBlock>, n: int, a: Seq<char>, b: Seq<char>) -> bool {
    exists|i: int| 0 <= i < n && #[trigger] clash_in_block(blocks, i, a, b)
}

/// Two versions are live at one time: one is defined while the other is live.
pub open spec fn interferes(blocks: Seq<SsaBlock>, a: Seq<char>, b: Seq<char>) -> bool {
    &&& a != b
    &&& clash_upto(blocks, blocks.len() as int, a, b) || clash_upto(blocks, blocks.len() as int, b, a)
}

/// The list holds the pair `(a, b)`.
spec fn recorded(pairs: Seq<(String, String)>, a: Seq<char>, b: Seq<char>) -> bool {
    exists|k: int| 0 <= k < pairs.len() && (#[trigger] pairs[k]).0@ == a && pairs[k].1@ == b
}

proof fn lemma_recorded_push(pairs: Seq<(String, String)>, p: (String, String), a: Seq<char>, b: Seq<char>)
    ensures
        recorded(pairs.push(p), a, b) <==> recorded(pairs, a, b) || (p.0@ == a && p.1@ == b),
{
    let q = pairs.push(p);
    if recorded(pairs, a, b) {
        let k = choose|k: int| 0 <= k < pairs.len() && (#[trigger] pairs[k]).0@ == a && pairs[k].1@ == b;
        assert(q[k].0@ == a);
    }
    if p.0@ == a && p.1@ == b {
        assert(q[pairs.len() as int].0@ == a);
    }
    if recorded(q, a, b) && !(p.0@ == a && p.1@ == b) {
        let k = choose|k: int| 0 <= k < q.len() && (#[trigger] q[k]).0@ == a && q[k].1@ == b;
        assert(pairs[k].0@ == a);
    }
}

/// Records that `d` is defined while the names of `live` are live, as far as
/// both are members of a web.
fn mark_all(d: &String, live: &NameSet, members: &NameSet, pairs: &mut Vec<(String, String)>)
    requires
        live.wf(),
        members.wf(),
    ensures
        forall|a: Seq<char>, b: Seq<char>| #[trigger]
            recorded(final(pairs)@, a, b) <==> recorded(old(pairs)@, a, b) || (a == d@ && live.set().contains(b)
                && a != b && members.set().contains(a) && members.set().contains(b)),
{
    let mut i: usize = 0;
    let known = members.contains(d);
    while i < live.items.len()
        invariant
            i <= live.items@.len(),
            members.wf(),
            known == members.set().contains(d@),
            forall|a: Seq<char>, b: Seq<char>| #[trigger]
                recorded(pairs@, a, b) <==> recorded(old(pairs)@, a, b) || (a == d@ && holds(
                    live.items@.take(i as int),
                    b,
                ) && a != b && members.set().contains(a) && members.set().contains(b)),
        decreases live.items@.len() - i,
    {
        let v = &live.items[i];
        let ghost pairs0 = pairs@;
        if known && !same(d.as_str(), v.as_str()) && members.contains(v) {
            pairs.push((d.clone(), v.clone()));
            proof {
                assert forall|a: Seq<char>, b: Seq<char>| #[trigger] recorded(pairs@, a, b) <==> recorded(
                    pairs0,
                    a,
                    b,
                ) || (a == d@ && b == v@) by {
                    lemma_recorded_push(pairs0, pairs@.last(), a, b);
                    assert(pairs@ =~= pairs0.push(pairs@.last()));
                }
            }
        }
        proof {
            lemma_holds_take(live.items@, i as int);
            assert forall|a: Seq<char>, b: Seq<char>| #[trigger] recorded(pairs@, a, b) <==> recorded(
                old(pairs)@,
                a,
                b,
            ) || (a == d@ && holds(live.items@.take(i + 1), b) && a != b && members.set().contains(a)
                && members.set().contains(b)) by {
                assert(recorded(pairs0, a, b) <==> recorded(old(pairs)@, a, b) || (a == d@ && holds(
                    live.items@.take(i as int),
                    b,
                ) && a != b && members.set().contains(a) && members.set().contains(b)));
            }
        }
        i = i + 1;
    }
    assert(live.items@.take(i as int) =~= live.items@);
}

/// Every pair of web members of which one is defined while the other is live.
fn interference(
    blocks: &[SsaBlock],
    members: &NameSet,
    live_out: &Vec<NameSet>,
) -> (pairs: Vec<(String, String)>)
    requires
        members.wf(),
        live_out@.len() == blocks@.len(),
        forall|i: int| 0 <= i < blocks@.len() ==> (#[trigger] live_out@[i]).wf(),
        forall|i: int, v: Seq<char>|
            0 <= i < blocks@.len() ==> (#[trigger] live_out@[i].set().contains(v) <==> live_out_at(blocks@, i, v)),
    ensures
        forall|a: Seq<char>, b: Seq<char>| #[trigger]
            recorded(pairs@, a, b) <==> a != b && members.set().contains(a) && members.set().contains(b)
                && clash_upto(blocks@, blocks@.len() as int, a, b),
{
    let mut pairs: Vec<(String, String)> = Vec::new();
    let mut i: usize = 0;
    while i < blocks.len()
        invariant
            i <= blocks@.len(),
            members.wf(),
            live_out@.len() == blocks@.len(),
            forall|j: int| 0 <= j < blocks@.len() ==> (#[trigger] live_out@[j]).wf(),
            forall|j: int, v: Seq<char>|
                0 <= j < blocks@.len() ==> (#[trigger] live_out@[j].set().contains(v) <==> live_out_at(
                    blocks@,
                    j,
                    v,
                )),
            forall|a: Seq<char>, b: Seq<char>| #[trigger]
                recorded(pairs@, a, b) <==> a != b && members.set().contains(a) && members.set().contains(b)
                    && clash_upto(blocks@, i as int, a, b),
        decreases blocks@.len() - i,
    {
        let b = &blocks[i];
        let ghost pairs0 = pairs@;
        let mut live = copy_names(&live_out[i]);
        match &b.condition {
            Some(c) => {
                expr_vars(c, &mut live);
            },
            None => {},
        }
        let mut t: usize = b.stmts.len();
        proof {
            assert(live.set() =~= live_before(blocks@, i as int, t as int));
        }
        while t > 0
            invariant
                i < blocks@.len(),
                *b == blocks@[i as int],
                t <= b.stmts@.len(),
                members.wf(),
                live.wf(),
                live.set() == live_before(blocks@, i as int, t as int),
                forall|x: Seq<char>, y: Seq<char>| #[trigger]
                    recorded(pairs@, x, y) <==> recorded(pairs0, x, y) || (x != y && members.set().contains(x)
                        && members.set().contains(y) && clash_from(blocks@, i as int, t as int, x, y)),
            decreases t,
        {
            let ghost pairs1 = pairs@;
            let ghost live1 = live.set();
            let s = &b.stmts[t - 1].stmt;
            match stmt_def(s) {
                Some(d) => {
                    mark_all(d, &live, members, &mut pairs);
                    live.remove(d);
                },
                None => {},
            }
            stmt_uses(s, &mut live);
            proof {
                let tt = t - 1;
                assert(live.set() =~= live_before(blocks@, i as int, tt));
                assert forall|x: Seq<char>, y: Seq<char>| #[trigger] recorded(pairs@, x, y) <==> recorded(
                    pairs0,
                    x,
                    y,
                ) || (x != y && members.set().contains(x) && members.set().contains(y) && clash_from(
                    blocks@,
                    i as int,
                    tt,
                    x,
                    y,
                )) by {
                    assert(recorded(pairs1, x, y) <==> recorded(pairs0, x, y) || (x != y && members.set().contains(
                        x,
                    ) && members.set().contains(y) && clash_from(blocks@, i as int, t as int, x, y)));
                    if clash_from(blocks@, i as int, t as int, x, y) {
                        let q = choose|q: int|
                            t <= q < blocks@[i as int].stmts@.len() && #[trigger] clash_at_stmt(
                                blocks@,
                                i as int,
                                q,
                                x,
                                y,
                            );
                        assert(tt <= q);
                    }
                    if clash_from(blocks@, i as int, tt, x, y) && !clash_from(blocks@, i as int, t as int, x, y) {
                        let q = choose|q: int|
                            tt <= q < blocks@[i as int].stmts@.len() && #[trigger] clash_at_stmt(
                                blocks@,
                                i as int,
                                q,
                                x,
                                y,
                            );
                        assert(q == tt);
                    }
                    if def_of(*s) == Some(x) && live1.contains(y) {
                        assert(clash_at_stmt(blocks@, i as int, tt, x, y));
                    }
                }
            }
            t = t - 1;
        }
        let mut k: usize = 0;
        let ghost pairs2 = pairs@;
        while k < b.phis.len()
            invariant
                i < blocks@.len(),
                *b == blocks@[i as int],
                k <= b.phis@.len(),
                members.wf(),
                live.wf(),
                live.set() == live_at_phi(blocks@, i as int, k as nat),
                forall|x: Seq<char>, y: Seq<char>| #[trigger]
                    recorded(pairs@, x, y) <==> recorded(pairs2, x, y) || (x != y && members.set().contains(x)
                        && members.set().contains(y) && clash_in_phis(blocks@, i as int, k as int, x, y)),
            decreases b.phis@.len() - k,
        {
            let ghost pairs3 = pairs@;
            let ghost live3 = live.set();
            let phi = &b.phis[k];
            if !phi.dst.as_str().is_empty() {
                mark_all(&phi.dst, &live, members, &mut pairs);
                live.remove(&phi.dst);
            }
            proof {
                assert forall|x: Seq<char>, y: Seq<char>| #[trigger] recorded(pairs@, x, y) <==> recorded(
                    pairs2,
                    x,
                    y,
                ) || (x != y && members.set().contains(x) && members.set().contains(y) && clash_in_phis(
                    blocks@,
                    i as int,
                    k + 1,
                    x,
                    y,
                )) by {
                    assert(recorded(pairs3, x, y) <==> recorded(pairs2, x, y) || (x != y && members.set().contains(
                        x,
                    ) && members.set().contains(y) && clash_in_phis(blocks@, i as int, k as int, x, y)));
                    if clash_in_phis(blocks@, i as int, k as int, x, y) {
                        let j = choose|j: int|
                            0 <= j < k && #[trigger] clash_at_phi(blocks@, i as int, j, x, y);
                        assert(j < k + 1);
                    }
                    if clash_in_phis(blocks@, i as int, k + 1, x, y) && !clash_in_phis(
                        blocks@,
                        i as int,
                        k as int,
                        x,
                        y,
                    ) {
                        let j = choose|j: int|
                            0 <= j < k + 1 && #[trigger] clash_at_phi(blocks@, i as int, j, x, y);
                        assert(j == k);
                    }
                    if phi.dst@ == x && x.len() > 0 && live3.contains(y) {
                        assert(clash_at_phi(blocks@, i as int, k as int, x, y));
                    }
                }
            }
            k = k + 1;
        }
        proof {
            assert forall|x: Seq<char>, y: Seq<char>| #[trigger] recorded(pairs@, x, y) <==> x != y
                && members.set().contains(x) && members.set().contains(y) && clash_upto(blocks@, i + 1, x, y) by {
                assert(recorded(pairs0, x, y) <==> x != y && members.set().contains(x) && members.set().contains(
                    y,
                ) && clash_upto(blocks@, i as int, x, y));
                assert(recorded(pairs2, x, y) <==> recorded(pairs0, x, y) || (x != y && members.set().contains(x)
                    && members.set().contains(y) && clash_from(blocks@, i as int, 0, x, y)));
                if clash_upto(blocks@, i as int, x, y) {
                    let c = choose|c: int| 0 <= c < i && #[trigger] clash_in_block(blocks@, c, x, y);
                    assert(c < i + 1);
                }
                if clash_upto(blocks@, i + 1, x, y) && !clash_upto(blocks@, i as int, x, y) {
                    let c = choose|c: int| 0 <= c < i + 1 && #[trigger] clash_in_block(blocks@, c, x, y);
                    assert(c == i);
                }
                if clash_in_block(blocks@, i as int, x, y) {
                    assert(i < i + 1);
                }
            }
        }
        i = i + 1;
    }
    pairs
}

/// Does the list hold `(a, b)` or `(b, a)`?
fn paired(pairs: &Vec<(String, String)>, a: &String, b: &String) -> (r: bool)
    ensures
        r == (recorded(pairs@, a@, b@) || recorded(pairs@, b@, a@)),
{
    let mut k: usize = 0;
    while k < pairs.len()
        invariant
            k <= pairs@.len(),
            forall|j: int|
                0 <= j < k ==> !((#[trigger] pairs@[j]).0@ == a@ && pairs@[j].1@ == b@) && !(pairs@[j].0@ == b@
                    && pairs@[j].1@ == a@),
        decreases pairs@.len() - k,
    {
        let p = &pairs[k];
        if (same(p.0.as_str(), a.as_str()) && same(p.1.as_str(), b.as_str())) || (same(p.0.as_str(), b.as_str())
            && same(p.1.as_str(), a.as_str())) {
            assert(pairs@[k as int].0@ == p.0@);
            return true;
        }
        k = k + 1;
    }
    false
}

// ---------------------------------------------------------------------------
// Naming the classes
// ---------------------------------------------------------------------------

/// The texts that a map of names holds.
pub open spec fn texts(m: NameMap<String>) -> Map<Seq<char>, Seq<char>> {
    m.map().map_values(|s: String| s@)
}

/// The entry versions of the first `k` parameters, under the parameters' names.
pub open spec fn param_names(params: Seq<ParamInfo>, k: nat) -> Map<Seq<char>, Seq<char>>
    decreases k,
{
    if k == 0 {
        Map::empty()
    } else {
        param_names(params, (k - 1) as nat).insert(params[k - 1].reg@ + ".0"@, params[k - 1].name@)
    }
}

/// `x` is a version in the class of `r`.
pub open spec fn in_class(blocks: Seq<SsaBlock>, r: Seq<char>, x: Seq<char>) -> bool {
    in_web(blocks, x) && web_rep(blocks, x) == r
}

/// The class of `r` has two or more members.
pub open spec fn has_two(blocks: Seq<SsaBlock>, r: Seq<char>) -> bool {
    exists|a: Seq<char>, b: Seq<char>|
        #[trigger] in_class(blocks, r, a) && #[trigger] in_class(blocks, r, b) && a != b
}

/// No two members of the class of `r` interfere.
pub open spec fn class_safe(blocks: Seq<SsaBlock>, r: Seq<char>) -> bool {
    forall|a: Seq<char>, b: Seq<char>|
        #[trigger] in_class(blocks, r, a) && #[trigger] in_class(blocks, r, b) ==> !interferes(blocks, a, b)
}

/// The class of `r` is shown under one name.
pub open spec fn merged(blocks: Seq<SsaBlock>, r: Seq<char>) -> bool {
    has_two(blocks, r) && class_safe(blocks, r)
}

/// `x` is the first member of the class of `r` that is a parameter on entry.
pub open spec fn first_param(
    blocks: Seq<SsaBlock>,
    params: Map<Seq<char>, Seq<char>>,
    r: Seq<char>,
    x: Seq<char>,
) -> bool {
    &&& in_class(blocks, r, x)
    &&& params.contains_key(x)
    &&& forall|y: Seq<char>|
        #[trigger] in_class(blocks, r, y) && params.contains_key(y) ==> !lex_lt(y, x)
}

/// A member of the class of `r` is a parameter on entry.
pub open spec fn has_param(blocks: Seq<SsaBlock>, params: Map<Seq<char>, Seq<char>>, r: Seq<char>) -> bool {
    exists|x: Seq<char>| #[trigger] in_class(blocks, r, x) && params.contains_key(x)
}

/// The class of `r` needs a name of its own.
pub open spec fn fresh(blocks: Seq<SsaBlock>, params: Map<Seq<char>, Seq<char>>, r: Seq<char>) -> bool {
    merged(blocks, r) && !has_param(blocks, params, r)
}

/// The representatives before `r` whose classes need names of their own.
pub open spec fn fresh_before(
    blocks: Seq<SsaBlock>,
    params: Map<Seq<char>, Seq<char>>,
    r: Seq<char>,
) -> Set<Seq<char>> {
    Set::new(|x: Seq<char>| fresh(blocks, params, x) && lex_lt(x, r))
}

/// The name of the class of `r`: that of its first parameter, or `v` and a
/// running number.
pub open spec fn class_named(
    blocks: Seq<SsaBlock>,
    params: Map<Seq<char>, Seq<char>>,
    r: Seq<char>,
    name: Seq<char>,
) -> bool {
    if has_param(blocks, params, r) {
        exists|x: Seq<char>| #[trigger] first_param(blocks, params, r, x) && name == params[x]
    } else {
        name == "v"@ + dec((1 + fresh_before(blocks, params, r).len()) as nat)
    }
}

/// `x` is shown under the name of its class.
pub open spec fn renamed(blocks: Seq<SsaBlock>, x: Seq<char>) -> bool {
    in_web(blocks, x) && merged(blocks, web_rep(blocks, x))
}

/// `out` maps every version to the name it is shown under: the name of its
/// class, or of the parameter that it is on entry.
pub open spec fn coalesced(
    blocks: Seq<SsaBlock>,
    params: Map<Seq<char>, Seq<char>>,
    out: Map<Seq<char>, Seq<char>>,
) -> bool {
    &&& forall|x: Seq<char>| #[trigger]
        out.contains_key(x) <==> params.contains_key(x) || renamed(blocks, x)
    &&& forall|x: Seq<char>| #[trigger]
        renamed(blocks, x) ==> class_named(blocks, params, web_rep(blocks, x), out[x])
    &&& forall|x: Seq<char>| #[trigger]
        params.contains_key(x) && !renamed(blocks, x) ==> out[x] == params[x]
}

fn param_map(sig: &RecoveredSignature) -> (m: NameMap<String>)
    ensures
        m.wf(),
        texts(m) == param_names(sig.params@, sig.params@.len()),
{
    let mut m: NameMap<String> = SortedMap::new();
    let mut k: usize = 0;
    proof {
        assert(texts(m) =~= param_names(sig.params@, 0));
    }
    while k < sig.params.len()
        invariant
            k <= sig.params@.len(),
            m.wf(),
            texts(m) == param_names(sig.params@, k as nat),
        decreases sig.params@.len() - k,
    {
        let p = &sig.params[k];
        let key = p.reg.clone().concat(".0");
        let ghost before = m;
        let ghost kv = key@;
        m.insert(key, p.name.clone());
        proof {
            assert(texts(m) =~= texts(before).insert(kv, p.name@));
        }
        k = k + 1;
    }
    m
}

fn class_members(members: &NameSet, uf: &Uf, root: &String) -> (group: NameSet)
    requires
        members.wf(),
        uf.wf(),
    ensures
        group.wf(),
        forall|x: Seq<char>| #[trigger]
            group.set().contains(x) <==> members.set().contains(x) && uf.rep(x) == root@,
{
    let mut group: NameSet = SortedSet::new();
    let mut i: usize = 0;
    while i < members.items.len()
        invariant
            i <= members.items@.len(),
            uf.wf(),
            group.wf(),
            forall|x: Seq<char>| #[trigger]
                group.set().contains(x) <==> holds(members.items@.take(i as int), x) && uf.rep(x) == root@,
        decreases members.items@.len() - i,
    {
        let m = &members.items[i];
        let rep = uf.find(m);
        if same(rep.as_str(), root.as_str()) {
            group.insert(m.clone());
        }
        proof {
            lemma_holds_take(members.items@, i as int);
        }
        i = i + 1;
    }
    assert(members.items@.take(i as int) =~= members.items@);
    group
}

fn group_safe(group: &NameSet, pairs: &Vec<(String, String)>) -> (r: bool)
    ensures
        r <==> forall|i: int, j: int|
            0 <= i < j < group.items@.len() ==> !recorded(
                pairs@,
                (#[trigger] group.items@[i])@,
                (#[trigger] group.items@[j])@,
            ) && !recorded(pairs@, group.items@[j]@, group.items@[i]@),
{
    let mut i: usize = 0;
    while i < group.items.len()
        invariant
            i <= group.items@.len(),
            forall|a: int, b: int|
                0 <= a < i && a < b < group.items@.len() ==> !recorded(
                    pairs@,
                    (#[trigger] group.items@[a])@,
                    (#[trigger] group.items@[b])@,
                ) && !recorded(pairs@, group.items@[b]@, group.items@[a]@),
        decreases group.items@.len() - i,
    {
        let mut j: usize = i + 1;
        while j < group.items.len()
            invariant
                i < j <= group.items@.len(),
                forall|b: int|
                    i < b < j ==> !recorded(
                        pairs@,
                        group.items@[i as int]@,
                        (#[trigger] group.items@[b])@,
                    ) && !recorded(pairs@, group.items@[b]@, group.items@[i as int]@),
            decreases group.items@.len() - j,
        {
            if paired(pairs, &group.items[i], &group.items[j]) {
                return false;
            }
            j = j + 1;
        }
        i = i + 1;
    }
    true
}

fn group_param(group: &NameSet, params: &NameMap<String>) -> (r: Option<String>)
    requires
        group.wf(),
        params.wf(),
    ensures
        match r {
            Some(name) => exists|i: int|
                0 <= i < group.items@.len() && texts(*params).contains_key((#[trigger] group.items@[i])@)
                    && texts(*params)[group.items@[i]@] == name@ && forall|j: int|
                    0 <= j < i ==> !texts(*params).contains_key((#[trigger] group.items@[j])@),
            None => forall|j: int|
                0 <= j < group.items@.len() ==> !texts(*params).contains_key((#[trigger] group.items@[j])@),
        },
{
    let mut i: usize = 0;
    while i < group.items.len()
        invariant
            i <= group.items@.len(),
            params.wf(),
            forall|j: int| 0 <= j < i ==> !texts(*params).contains_key((#[trigger] group.items@[j])@),
        decreases group.items@.len() - i,
    {
        match params.get(&group.items[i]) {
            Some(name) => {
                proof {
                    assert(texts(*params).contains_key(group.items@[i as int]@));
                }
                return Some(name.clone());
            },
            None => {},
        }
        i = i + 1;
    }
    None
}

/// The display name of every version that is shown under another name: a web
/// of versions that never interfere becomes one variable, named after the
/// parameter in it or `v1`, `v2` and so on.
pub fn coalesce_vars(blocks: &[SsaBlock], sig: &RecoveredSignature) -> (out: NameMap<String>)
    ensures
        out.wf(),
        coalesced(blocks@, param_names(sig.params@, sig.params@.len()), texts(out)),
{
    let params = param_map(sig);
    let mut out = param_map(sig);
    let ghost pn = param_names(sig.params@, sig.params@.len());
    let (members, uf) = phi_webs(blocks);
    let mut roots: NameSet = SortedSet::new();
    let mut i: usize = 0;
    while i < members.items.len()
        invariant
            i <= members.items@.len(),
            uf.wf(),
            roots.wf(),
            forall|r: Seq<char>| #[trigger]
                roots.set().contains(r) ==> exists|x: Seq<char>|
                    #[trigger] members.set().contains(x) && uf.rep(x) == r,
            forall|j: int| 0 <= j < i ==> roots.set().contains(uf.rep((#[trigger] members.items@[j])@)),
        decreases members.items@.len() - i,
    {
        let m = &members.items[i];
        let ghost before = roots.set();
        roots.insert(uf.find(m));
        proof {
            assert(members.items@[i as int].model() == m@);
            assert(members.set().contains(m@));
            assert forall|r: Seq<char>| #[trigger] roots.set().contains(r) implies exists|x: Seq<char>|
                #[trigger] members.set().contains(x) && uf.rep(x) == r by {
                if !before.contains(r) {
                    assert(uf.rep(m@) == r);
                }
            }
        }
        i = i + 1;
    }
    proof {
        assert forall|x: Seq<char>| in_web(blocks@, x) implies #[trigger] roots.set().contains(web_rep(blocks@, x)) by {
            assert(members.set().contains(x));
            let j = choose|j: int| 0 <= j < members.items@.len() && (#[trigger] members.items@[j]).model() == x;
            assert(uf.rep(members.items@[j]@) == web_rep(blocks@, x));
        }
    }
    let (_live_in, live_out) = liveness(blocks);
    let pairs = interference(blocks, &members, &live_out);
    let mut count: usize = 0;
    let ghost mut named: Set<Seq<char>> = Set::empty();
    let mut g: usize = 0;
    proof {
        assert(roots.items@.take(0) =~= Seq::<String>::empty());
    }
    while g < roots.items.len()
        invariant
            g <= roots.items@.len(),
            count <= g,
            params.wf(),
            texts(params) == pn,
            out.wf(),
            roots.wf(),
            members.wf(),
            uf.wf(),
            forall|x: Seq<char>| #[trigger] members.set().contains(x) <==> in_web(blocks@, x),
            forall|x: Seq<char>| #[trigger] uf.rep(x) == web_rep(blocks@, x),
            forall|x: Seq<char>|
                in_web(blocks@, x) ==> #[trigger] roots.set().contains(web_rep(blocks@, x)),
            forall|a: Seq<char>, b: Seq<char>| #[trigger]
                recorded(pairs@, a, b) <==> a != b && members.set().contains(a) && members.set().contains(b)
                    && clash_upto(blocks@, blocks@.len() as int, a, b),
            named.finite(),
            named.len() == count,
            forall|r: Seq<char>| #[trigger]
                named.contains(r) <==> holds(roots.items@.take(g as int), r) && fresh(blocks@, pn, r),
            forall|x: Seq<char>| #[trigger]
                texts(out).contains_key(x) <==> pn.contains_key(x) || (renamed(blocks@, x) && holds(
                    roots.items@.take(g as int),
                    web_rep(blocks@, x),
                )),
            forall|x: Seq<char>| #[trigger]
                renamed(blocks@, x) && holds(roots.items@.take(g as int), web_rep(blocks@, x)) ==> class_named(
                    blocks@,
                    pn,
                    web_rep(blocks@, x),
                    texts(out)[x],
                ),
            forall|x: Seq<char>| #[trigger]
                pn.contains_key(x) && !(renamed(blocks@, x) && holds(
                    roots.items@.take(g as int),
                    web_rep(blocks@, x),
                )) ==> texts(out)[x] == pn[x],
        decreases roots.items@.len() - g,
    {
        let root = &roots.items[g];
        let ghost r = root@;
        let group = class_members(&members, &uf, root);
        let ghost done0 = roots.items@.take(g as int);
        let ghost done1 = roots.items@.take(g + 1);
        let ghost out0 = texts(out);
        proof {
            lemma_holds_take(roots.items@, g as int);
            assert forall|x: Seq<char>| #[trigger] group.set().contains(x) <==> in_class(blocks@, r, x) by {
                assert(members.set().contains(x) <==> in_web(blocks@, x));
                assert(uf.rep(x) == web_rep(blocks@, x));
            }
            lemma_group(blocks@, r, group, pairs@, members.set());
            // The fresh classes so far are those of the representatives before `r`.
            assert(named =~= fresh_before(blocks@, pn, r)) by {
                assert forall|x: Seq<char>| named.contains(x) <==> fresh_before(blocks@, pn, r).contains(x) by {
                    lemma_done_is_before(roots, g as int, x);
                    if fresh(blocks@, pn, x) {
                        let a = choose|a: Seq<char>| exists|b: Seq<char>|
                            #[trigger] in_class(blocks@, x, a) && #[trigger] in_class(blocks@, x, b) && a != b;
                        assert(in_class(blocks@, x, a));
                        assert(roots.set().contains(web_rep(blocks@, a)));
                    }
                }
            }
        }
        let safe = group_safe(&group, &pairs);
        let big = group.items.len() >= 2;
        if big && safe {
            assert(merged(blocks@, r));
            let own = group_param(&group, &params);
            let mut fresh_name = false;
            let name = match own {
                Some(p) => p,
                None => {
                    fresh_name = true;
                    let digits = decimal(count as u64 + 1);
                    String::from_str("v").concat(digits.as_str())
                },
            };
            proof {
                lemma_group_param(blocks@, pn, r, group, own);
                assert(class_named(blocks@, pn, r, name@)) by {
                    if own is Some {
                        assert(has_param(blocks@, pn, r));
                    } else {
                        assert(!has_param(blocks@, pn, r));
                    }
                }
            }
            let mut k: usize = 0;
            while k < group.items.len()
                invariant
                    k <= group.items@.len(),
                    out.wf(),
                    forall|x: Seq<char>| #[trigger]
                        texts(out).contains_key(x) <==> out0.contains_key(x) || holds(
                            group.items@.take(k as int),
                            x,
                        ),
                    forall|x: Seq<char>| #[trigger]
                        texts(out).contains_key(x) ==> texts(out)[x] == if holds(
                            group.items@.take(k as int),
                            x,
                        ) {
                            name@
                        } else {
                            out0[x]
                        },
                decreases group.items@.len() - k,
            {
                let ghost before = texts(out);
                let ghost key = group.items@[k as int]@;
                out.insert(group.items[k].clone(), name.clone());
                proof {
                    lemma_holds_take(group.items@, k as int);
                    assert(texts(out) =~= before.insert(key, name@));
                }
                k = k + 1;
            }
            proof {
                assert(group.items@.take(k as int) =~= group.items@);
                assert forall|x: Seq<char>| holds(group.items@, x) <==> #[trigger] in_class(blocks@, r, x) by {
                    assert(group.set().contains(x) <==> holds(group.items@, x));
                }
                if fresh_name {
                    assert(fresh(blocks@, pn, r));
                    assert(!named.contains(r)) by {
                        lemma_done_is_before(roots, g as int, r);
                        String::order_laws();
                    }
                    named = named.insert(r);
                } else {
                    assert(!fresh(blocks@, pn, r));
                }
                assert forall|x: Seq<char>| #[trigger] texts(out).contains_key(x) <==> pn.contains_key(x) || (
                renamed(blocks@, x) && holds(done1, web_rep(blocks@, x))) by {
                    assert(in_class(blocks@, r, x) <==> in_web(blocks@, x) && web_rep(blocks@, x) == r);
                    assert(out0.contains_key(x) <==> pn.contains_key(x) || (renamed(blocks@, x) && holds(
                        done0,
                        web_rep(blocks@, x),
                    )));
                }
                assert forall|x: Seq<char>| #[trigger]
                    renamed(blocks@, x) && holds(done1, web_rep(blocks@, x)) implies class_named(
                    blocks@,
                    pn,
                    web_rep(blocks@, x),
                    texts(out)[x],
                ) by {
                    assert(texts(out).contains_key(x));
                    if web_rep(blocks@, x) == r {
                        assert(in_class(blocks@, r, x));
                    } else {
                        assert(!in_class(blocks@, r, x));
                        assert(holds(done0, web_rep(blocks@, x)));
                    }
                }
                assert forall|x: Seq<char>| #[trigger]
                    pn.contains_key(x) && !(renamed(blocks@, x) && holds(done1, web_rep(blocks@, x))) implies texts(
                    out,
                )[x] == pn[x] by {
                    assert(texts(out).contains_key(x));
                    if in_class(blocks@, r, x) {
                        assert(renamed(blocks@, x));
                    }
                }
            }
            if fresh_name {
                count = count + 1;
            }
        } else {
            proof {
                assert(!merged(blocks@, r));
                assert(!fresh(blocks@, pn, r));
                assert forall|x: Seq<char>| renamed(blocks@, x) && holds(done1, web_rep(blocks@, x)) <==> #[trigger] renamed(
                    blocks@,
                    x,
                ) && holds(done0, web_rep(blocks@, x)) by {}
            }
        }
        g = g + 1;
    }
    proof {
        assert(roots.items@.take(g as int) =~= roots.items@);
        assert forall|x: Seq<char>| #[trigger] renamed(blocks@, x) implies holds(roots.items@, web_rep(blocks@, x)) by {
            assert(roots.set().contains(web_rep(blocks@, x)));
        }
    }
    out
}

/// What the members of a class say about the class.
proof fn lemma_group(
    blocks: Seq<SsaBlock>,
    r: Seq<char>,
    group: NameSet,
    pairs: Seq<(String, String)>,
    members: Set<Seq<char>>,
)
    requires
        group.wf(),
        forall|x: Seq<char>| #[trigger] group.set().contains(x) <==> in_class(blocks, r, x),
        forall|x: Seq<char>| in_web(blocks, x) ==> #[trigger] members.contains(x),
        forall|a: Seq<char>, b: Seq<char>| #[trigger]
            recorded(pairs, a, b) <==> a != b && members.contains(a) && members.contains(b) && clash_upto(
                blocks,
                blocks.len() as int,
                a,
                b,
            ),
    ensures
        group.items@.len() >= 2 <==> has_two(blocks, r),
        class_safe(blocks, r) <==> forall|i: int, j: int|
            0 <= i < j < group.items@.len() ==> !recorded(
                pairs,
                (#[trigger] group.items@[i])@,
                (#[trigger] group.items@[j])@,
            ) && !recorded(pairs, group.items@[j]@, group.items@[i]@),
{
    String::order_laws();
    let items = group.items@;
    assert forall|i: int| 0 <= i < items.len() implies in_class(blocks, r, (#[trigger] items[i])@) by {
        assert(items[i].model() == items[i]@);
        assert(group.set().contains(items[i]@));
    }
    if items.len() >= 2 {
        assert(lex_lt(items[0]@, items[1]@)) by {
            assert(String::before(items[0].model(), items[1].model()));
        }
        assert(in_class(blocks, r, items[0]@) && in_class(blocks, r, items[1]@));
    }
    if has_two(blocks, r) {
        let (a, b) = choose|a: Seq<char>, b: Seq<char>|
            #[trigger] in_class(blocks, r, a) && #[trigger] in_class(blocks, r, b) && a != b;
        assert(group.set().contains(a));
        assert(group.set().contains(b));
        let i = choose|i: int| 0 <= i < items.len() && (#[trigger] items[i]).model() == a;
        let j = choose|j: int| 0 <= j < items.len() && (#[trigger] items[j]).model() == b;
        assert(i != j);
    }
    if class_safe(blocks, r) {
        assert forall|i: int, j: int| 0 <= i < j < items.len() implies !recorded(
            pairs,
            (#[trigger] items[i])@,
            (#[trigger] items[j])@,
        ) && !recorded(pairs, items[j]@, items[i]@) by {
            assert(!interferes(blocks, items[i]@, items[j]@));
        }
    }
    if forall|i: int, j: int|
        0 <= i < j < items.len() ==> !recorded(pairs, (#[trigger] items[i])@, (#[trigger] items[j])@)
            && !recorded(pairs, items[j]@, items[i]@) {
        assert forall|a: Seq<char>, b: Seq<char>| #[trigger] in_class(blocks, r, a) && #[trigger] in_class(blocks, r, b) implies !interferes(
            blocks,
            a,
            b,
        ) by {
            if a != b {
                assert(group.set().contains(a));
                assert(group.set().contains(b));
                let i = choose|i: int| 0 <= i < items.len() && (#[trigger] items[i]).model() == a;
                let j = choose|j: int| 0 <= j < items.len() && (#[trigger] items[j]).model() == b;
                assert(items[i]@ == a && items[j]@ == b);
                assert(members.contains(a) && members.contains(b));
                if i < j {
                    assert(!recorded(pairs, items[i]@, items[j]@) && !recorded(pairs, items[j]@, items[i]@));
                } else {
                    assert(!recorded(pairs, items[j]@, items[i]@) && !recorded(pairs, items[i]@, items[j]@));
                }
            }
        }
    }
}

/// The entries before index `g` are those that come before entry `g`.
proof fn lemma_done_is_before(roots: NameSet, g: int, x: Seq<char>)
    requires
        roots.wf(),
        0 <= g < roots.items@.len(),
    ensures
        holds(roots.items@.take(g), x) <==> holds(roots.items@, x) && lex_lt(x, roots.items@[g]@),
{
    String::order_laws();
    let items = roots.items@;
    let done = items.take(g);
    if holds(done, x) {
        let i = choose|i: int| 0 <= i < done.len() && (#[trigger] done[i]).model() == x;
        assert(items[i].model() == x);
        assert(String::before(items[i].model(), items[g].model()));
    }
    if holds(items, x) && lex_lt(x, items[g]@) {
        let i = choose|i: int| 0 <= i < items.len() && (#[trigger] items[i]).model() == x;
        if i > g {
            assert(String::before(items[g].model(), items[i].model()));
            assert(String::before(x, items[g].model()));
        } else if i == g {
            assert(String::before(x, x));
        }
        assert(done[i].model() == x);
    }
}

/// The first parameter found among the members is the first of the class.
proof fn lemma_group_param(
    blocks: Seq<SsaBlock>,
    pn: Map<Seq<char>, Seq<char>>,
    r: Seq<char>,
    group: NameSet,
    own: Option<String>,
)
    requires
        group.wf(),
        forall|x: Seq<char>| #[trigger] group.set().contains(x) <==> in_class(blocks, r, x),
        match own {
            Some(name) => exists|i: int|
                0 <= i < group.items@.len() && pn.contains_key((#[trigger] group.items@[i])@)
                    && pn[group.items@[i]@] == name@ && forall|j: int|
                    0 <= j < i ==> !pn.contains_key((#[trigger] group.items@[j])@),
            None => forall|j: int|
                0 <= j < group.items@.len() ==> !pn.contains_key((#[trigger] group.items@[j])@),
        },
    ensures
        own matches Some(name) ==> has_param(blocks, pn, r) && exists|x: Seq<char>|
            #[trigger] first_param(blocks, pn, r, x) && name@ == pn[x],
        own is None ==> !has_param(blocks, pn, r),
{
    String::order_laws();
    let items = group.items@;
    match own {
        Some(name) => {
            let i = choose|i: int|
                0 <= i < items.len() && pn.contains_key((#[trigger] items[i])@) && pn[items[i]@] == name@
                    && forall|j: int| 0 <= j < i ==> !pn.contains_key((#[trigger] items[j])@);
            let x = items[i]@;
            assert(items[i].model() == x);
            assert(group.set().contains(x));
            assert forall|y: Seq<char>| #[trigger] in_class(blocks, r, y) && pn.contains_key(y) implies !lex_lt(y, x) by {
                assert(group.set().contains(y));
                let j = choose|j: int| 0 <= j < items.len() && (#[trigger] items[j]).model() == y;
                assert(items[j]@ == y);
                assert(j >= i);
                if j > i {
                    assert(String::before(items[i].model(), items[j].model()));
                    if lex_lt(y, x) {
                        assert(String::before(y, x) && String::before(x, y));
                        assert(String::before(x, x));
                    }
                } else {
                    assert(!String::before(x, x));
                }
            }
            assert(first_param(blocks, pn, r, x));
        },
        None => {
            assert forall|x: Seq<char>| #[trigger] in_class(blocks, r, x) implies !pn.contains_key(x) by {
                assert(group.set().contains(x));
                let j = choose|j: int| 0 <= j < items.len() && (#[trigger] items[j]).model() == x;
                assert(items[j]@ == x);
            }
        },
    }
}

/// Versions that are shown under the name of one class are never live at the
/// same time.
pub proof fn merged_versions_never_interfere(
    blocks: Seq<SsaBlock>,
    params: Map<Seq<char>, Seq<char>>,
    out: Map<Seq<char>, Seq<char>>,
    a: Seq<char>,
    b: Seq<char>,
)
    requires
        coalesced(blocks, params, out),
        renamed(blocks, a),
        in_web(blocks, b),
        web_rep(blocks, a) == web_rep(blocks, b),
    ensures
        renamed(blocks, b),
        out[a] == out[b],
        !interferes(blocks, a, b),
{
    let r = web_rep(blocks, a);
    assert(renamed(blocks, b));
    assert(class_named(blocks, params, r, out[a]));
    assert(class_named(blocks, params, r, out[b]));
    assert(in_class(blocks, r, a) && in_class(blocks, r, b));
    if has_param(blocks, params, r) {
        let x = choose|x: Seq<char>| #[trigger] first_param(blocks, params, r, x) && out[a] == params[x];
        let y = choose|y: Seq<char>| #[trigger] first_param(blocks, params, r, y) && out[b] == params[y];
        String::order_laws();
        assert(in_class(blocks, r, x) && in_class(blocks, r, y));
        assert(String::before(x, y) || x == y || String::before(y, x));
    }
}

proof fn lemma_dec_injective(a: nat, b: nat)
    requires
        dec(a) == dec(b),
    ensures
        a == b,
    decreases a,
{
    let x = dec(a);
    let y = dec(b);
    if a < 10 && b < 10 {
        assert(x[0] == y[0]);
        lemma_digit(a as int);
        lemma_digit(b as int);
        assert(x[0] == crate::text::digit(a as int, false));
        assert(y[0] == crate::text::digit(b as int, false));
        assert(a == b);
    } else if a < 10 {
        lemma_dec_len(b / 10);
        assert(x.len() == 1);
        assert(y.len() == dec(b / 10).len() + 1);
        assert(x.len() == y.len());
    } else if b < 10 {
        lemma_dec_len(a / 10);
        assert(y.len() == 1);
        assert(x.len() == dec(a / 10).len() + 1);
        assert(x.len() == y.len());
    } else {
        assert(x.last() == y.last());
        assert(x.drop_last() =~= dec(a / 10));
        assert(y.drop_last() =~= dec(b / 10));
        lemma_dec_injective(a / 10, b / 10);
        assert(a % 10 == b % 10) by {
            lemma_digit((a % 10) as int);
            lemma_digit((b % 10) as int);
            assert(x.last() == crate::text::digit((a % 10) as int, false));
            assert(y.last() == crate::text::digit((b % 10) as int, false));
        }
        assert(a == 10 * (a / 10) + a % 10);
        assert(b == 10 * (b / 10) + b % 10);
        assert(a == b);
    }
}

proof fn lemma_digit(d: int)
    requires
        0 <= d < 10,
    ensures
        crate::text::digit(d, false) as u32 == 48 + d,
{
    let u = (48 + d) as u8;
    assert(u as char as u32 == u as u32);
}

proof fn lemma_dec_len(a: nat)
    ensures
        dec(a).len() >= 1,
    decreases a,
{
    if a >= 10 {
        lemma_dec_len(a / 10);
    }
}

/// Two classes that need names of their own get different ones.
pub proof fn fresh_names_are_distinct(
    blocks: Seq<SsaBlock>,
    params: Map<Seq<char>, Seq<char>>,
    r: Seq<char>,
    q: Seq<char>,
    name: Seq<char>,
)
    requires
        fresh(blocks, params, r),
        fresh(blocks, params, q),
        class_named(blocks, params, r, name),
        class_named(blocks, params, q, name),
    ensures
        r == q,
{
    String::order_laws();
    lemma_fresh_finite(blocks, params, r);
    lemma_fresh_finite(blocks, params, q);
    let a = (1 + fresh_before(blocks, params, r).len()) as nat;
    let b = (1 + fresh_before(blocks, params, q).len()) as nat;
    let v = "v"@;
    assert((v + dec(a)).skip(v.len() as int) =~= dec(a));
    assert((v + dec(b)).skip(v.len() as int) =~= dec(b));
    lemma_dec_injective(a, b);
    if r != q {
        assert(String::before(r, q) || r == q || String::before(q, r));
        if lex_lt(r, q) {
            lemma_fresh_grows(blocks, params, r, q);
        } else {
            lemma_fresh_grows(blocks, params, q, r);
        }
    }
}

/// A representative is the name itself or the second name of some merge.
proof fn lemma_rep_source(pairs: Seq<(Seq<char>, Seq<char>)>, k: nat, x: Seq<char>)
    requires
        k <= pairs.len(),
    ensures
        rep_after(pairs, k, x) == x || exists|j: int| 0 <= j < k && (#[trigger] pairs[j]).1 == rep_after(pairs, k, x),
    decreases k,
{
    if k > 0 {
        let p = pairs[k - 1];
        lemma_rep_source(pairs, (k - 1) as nat, x);
        lemma_rep_source(pairs, (k - 1) as nat, p.1);
        assert(pairs[k - 1].1 == p.1);
    }
}

proof fn lemma_fresh_finite(blocks: Seq<SsaBlock>, params: Map<Seq<char>, Seq<char>>, r: Seq<char>)
    ensures
        fresh_before(blocks, params, r).finite(),
{
    let pairs = web_pairs(blocks, blocks.len());
    let seconds = pairs.map_values(|p: (Seq<char>, Seq<char>)| p.1);
    let small = fresh_before(blocks, params, r);
    assert forall|x: Seq<char>| small.contains(x) implies seconds.to_set().contains(x) by {
        assert(has_two(blocks, x));
        let (a, b) = choose|a: Seq<char>, b: Seq<char>|
            #[trigger] in_class(blocks, x, a) && #[trigger] in_class(blocks, x, b) && a != b;
        lemma_rep_source(pairs, pairs.len(), a);
        lemma_rep_source(pairs, pairs.len(), b);
        let j = choose|j: int| 0 <= j < pairs.len() && (#[trigger] pairs[j]).1 == x;
        assert(seconds[j] == x);
    }
    vstd::seq_lib::seq_to_set_is_finite(seconds);
    vstd::set_lib::lemma_set_subset_finite(seconds.to_set(), small);
}

proof fn lemma_fresh_grows(blocks: Seq<SsaBlock>, params: Map<Seq<char>, Seq<char>>, r: Seq<char>, q: Seq<char>)
    requires
        fresh(blocks, params, r),
        lex_lt(r, q),
        fresh_before(blocks, params, q).finite(),
    ensures
        fresh_before(blocks, params, r).len() < fresh_before(blocks, params, q).len(),
{
    String::order_laws();
    let small = fresh_before(blocks, params, r);
    let big = fresh_before(blocks, params, q);
    assert(big.contains(r));
    assert forall|x: Seq<char>| small.contains(x) implies big.remove(r).contains(x) by {
        assert(String::before(x, r) && String::before(r, q));
        assert(String::before(x, q));
        assert(!String::before(r, r));
    }
    assert(small.subset_of(big.remove(r)));
    vstd::set_lib::lemma_len_subset(small, big.remove(r));
}

// ---------------------------------------------------------------------------
// Making the remaining phis explicit
// ---------------------------------------------------------------------------

/// Where the addresses of blocks that split an edge start. No image and no
/// process has code there.
pub const SYNTHETIC_VA_BASE: u64 = 0xF000_0000_0000_0000;

/// Does an address belong to a block that splits an edge?
pub fn is_synthetic_va(va: Va) -> (r: bool)
    ensures
        r == (va.0 >= SYNTHETIC_VA_BASE),
{
    va.0 >= SYNTHETIC_VA_BASE
}

/// A block of a control-flow graph, by its contents.
pub ghost struct CfgNode {
    pub id: int,
    pub start: Va,
    pub end: Va,
    pub terminator: Seq<char>,
    pub successors: Seq<Edge>,
    pub insns: Seq<IrInsn>,
}

/// A statement: a copy of one variable to another by their names, and any other as
/// it is.
pub ghost enum StmtNode {
    Copy { va: Va, dst: Seq<char>, src: Seq<char> },
    Other(SsaStmt),
}

pub open spec fn stmt_node(s: SsaStmt) -> StmtNode {
    match s.stmt {
        MicroStmt::Assign { dst, value: MicroExpr::Var(src) } => StmtNode::Copy { va: s.va, dst: dst@, src: src@ },
        _ => StmtNode::Other(s),
    }
}

pub open spec fn stmt_nodes(s: Seq<SsaStmt>) -> Seq<StmtNode> {
    s.map_values(|x: SsaStmt| stmt_node(x))
}

/// A block in static single assignment form, by its contents.
pub ghost struct SsaNode {
    pub id: int,
    pub start: Va,
    pub end: Va,
    pub terminator: Seq<char>,
    pub successors: Seq<Edge>,
    pub phis: Seq<Phi>,
    pub stmts: Seq<StmtNode>,
    pub condition: Option<MicroExpr>,
}

pub open spec fn cfg_node(b: CfgBlock) -> CfgNode {
    CfgNode {
        id: b.id as int,
        start: b.start,
        end: b.end,
        terminator: b.terminator@,
        successors: edges_of(b.successors@),
        insns: b.insns@,
    }
}

pub open spec fn ssa_node(b: SsaBlock) -> SsaNode {
    SsaNode {
        id: b.id as int,
        start: b.start,
        end: b.end,
        terminator: b.terminator@,
        successors: edges_of(b.successors@),
        phis: b.phis@,
        stmts: stmt_nodes(b.stmts@),
        condition: b.condition,
    }
}

pub open spec fn cfg_nodes(s: Seq<CfgBlock>) -> Seq<CfgNode> {
    s.map_values(|b: CfgBlock| cfg_node(b))
}

pub open spec fn ssa_nodes(s: Seq<SsaBlock>) -> Seq<SsaNode> {
    s.map_values(|b: SsaBlock| ssa_node(b))
}

/// What a name is shown as.
pub open spec fn shown(names: Map<Seq<char>, Seq<char>>, n: Seq<char>) -> Seq<char> {
    if names.contains_key(n) {
        names[n]
    } else {
        n
    }
}

/// The copies that the first `m` inputs of phi `k` of block `t` need on the
/// edge from block `f`: result and input, where they are shown differently.
pub open spec fn phi_copies(
    blocks: Seq<SsaBlock>,
    names: Map<Seq<char>, Seq<char>>,
    f: int,
    t: int,
    k: int,
    m: nat,
) -> Seq<(String, String)>
    decreases m,
{
    if m == 0 {
        Seq::empty()
    } else {
        let before = phi_copies(blocks, names, f, t, k, (m - 1) as nat);
        let phi = blocks[t].phis@[k];
        let input = phi.inputs@[m - 1];
        if block_with_id(blocks, input.from_block, blocks.len() as int) == Some(f) && shown(
            names,
            input.value@,
        ) != shown(names, phi.dst@) {
            before.push((phi.dst, input.value))
        } else {
            before
        }
    }
}

/// The copies that the first `k` phis of block `t` need on the edge from block
/// `f`.
pub open spec fn edge_copies(
    blocks: Seq<SsaBlock>,
    names: Map<Seq<char>, Seq<char>>,
    f: int,
    t: int,
    k: nat,
) -> Seq<(String, String)>
    decreases k,
{
    if k == 0 {
        Seq::empty()
    } else {
        let before = edge_copies(blocks, names, f, t, (k - 1) as nat);
        let phi = blocks[t].phis@[k - 1];
        if phi.dst@.len() == 0 {
            before
        } else {
            before + phi_copies(blocks, names, f, t, k - 1, phi.inputs@.len())
        }
    }
}

/// Copies by the names of result and input.
pub open spec fn name_pairs(copies: Seq<(String, String)>) -> Seq<(Seq<char>, Seq<char>)> {
    copies.map_values(|c: (String, String)| (c.0@, c.1@))
}

/// A copy before the `i`-th has overwritten what that one reads.
pub open spec fn overwritten(
    names: Map<Seq<char>, Seq<char>>,
    c: Seq<(Seq<char>, Seq<char>)>,
    i: int,
) -> bool {
    exists|j: int| 0 <= j < i && shown(names, (#[trigger] c[j]).0) == shown(names, c[i].1)
}

/// The name that keeps the value of a variable while that is overwritten.
pub open spec fn saved_name(n: Seq<char>) -> Seq<char> {
    n + "_old"@
}

/// The copies that keep what the first `k` copies read and others overwrite.
pub open spec fn saves(
    names: Map<Seq<char>, Seq<char>>,
    c: Seq<(Seq<char>, Seq<char>)>,
    k: nat,
) -> Seq<(Seq<char>, Seq<char>)>
    decreases k,
{
    if k == 0 {
        Seq::empty()
    } else {
        let before = saves(names, c, (k - 1) as nat);
        if overwritten(names, c, k - 1) {
            before.push((saved_name(c[k - 1].1), c[k - 1].1))
        } else {
            before
        }
    }
}

/// The copies, with what is overwritten read from where it is kept.
pub open spec fn moves(names: Map<Seq<char>, Seq<char>>, c: Seq<(Seq<char>, Seq<char>)>) -> Seq<
    (Seq<char>, Seq<char>),
> {
    Seq::new(
        c.len(),
        |i: int|
            if overwritten(names, c, i) {
                (c[i].0, saved_name(c[i].1))
            } else {
                c[i]
            },
    )
}

/// The copies of one edge as they are written one after another: first what would
/// be lost is kept, then all results are set.
pub open spec fn in_turn(names: Map<Seq<char>, Seq<char>>, c: Seq<(Seq<char>, Seq<char>)>) -> Seq<
    (Seq<char>, Seq<char>),
> {
    saves(names, c, c.len()) + moves(names, c)
}

/// An edge and the copies that it has to carry, in their order.
pub ghost struct EdgePlan {
    pub from: int,
    pub to: int,
    pub copies: Seq<(Seq<char>, Seq<char>)>,
}

/// The edges from block `f` to the first `t` blocks that have to carry copies.
pub open spec fn plan_row(
    blocks: Seq<SsaBlock>,
    names: Map<Seq<char>, Seq<char>>,
    f: int,
    t: nat,
) -> Seq<EdgePlan>
    decreases t,
{
    if t == 0 {
        Seq::empty()
    } else {
        let before = plan_row(blocks, names, f, (t - 1) as nat);
        let copies = edge_copies(blocks, names, f, t - 1, blocks[t - 1].phis@.len());
        if copies.len() == 0 {
            before
        } else {
            before.push(EdgePlan { from: f, to: t - 1, copies: in_turn(names, name_pairs(copies)) })
        }
    }
}

/// The edges from the first `f` blocks that have to carry copies, by source and
/// then by target.
pub open spec fn plan(blocks: Seq<SsaBlock>, names: Map<Seq<char>, Seq<char>>, f: nat) -> Seq<EdgePlan>
    decreases f,
{
    if f == 0 {
        Seq::empty()
    } else {
        plan(blocks, names, (f - 1) as nat) + plan_row(blocks, names, f - 1, blocks.len())
    }
}

proof fn lemma_row_len(blocks: Seq<SsaBlock>, names: Map<Seq<char>, Seq<char>>, f: int, t: nat)
    ensures
        plan_row(blocks, names, f, t).len() <= t,
    decreases t,
{
    if t > 0 {
        lemma_row_len(blocks, names, f, (t - 1) as nat);
    }
}

/// At most one edge between any two blocks has to carry copies.
pub proof fn lemma_plan_len(blocks: Seq<SsaBlock>, names: Map<Seq<char>, Seq<char>>, f: nat)
    ensures
        plan(blocks, names, f).len() <= f * blocks.len(),
    decreases f,
{
    if f > 0 {
        let n = blocks.len();
        lemma_plan_len(blocks, names, (f - 1) as nat);
        lemma_row_len(blocks, names, f - 1, n);
        assert((f - 1) * n + n == f * n) by (nonlinear_arith);
    }
}

/// Copies as statements at the address `va`.
pub open spec fn copy_stmts(copies: Seq<(Seq<char>, Seq<char>)>, va: Va) -> Seq<StmtNode> {
    copies.map_values(|c: (Seq<char>, Seq<char>)| StmtNode::Copy { va, dst: c.0, src: c.1 })
}

/// All edges lead to one place.
pub open spec fn one_target(s: Seq<Edge>) -> bool {
    forall|a: int, b: int| 0 <= a < s.len() && 0 <= b < s.len() ==> (#[trigger] s[a]).to == (#[trigger] s[b]).to
}

/// The edges with those to `old_to` sent to `new_to`.
pub open spec fn redirected(s: Seq<Edge>, old_to: Va, new_to: Va) -> Seq<Edge> {
    s.map_values(
        |e: Edge|
            if e.to == old_to {
                Edge { to: new_to, kind: e.kind, confidence: e.confidence }
            } else {
                e
            },
    )
}

/// Both views of a function while its edges are given their copies.
pub ghost struct Splitting {
    pub cfg: Seq<CfgNode>,
    pub ssa: Seq<SsaNode>,
    pub next_id: int,
    pub synth: int,
}

/// Puts the copies of one edge in place: at the end of its source when control
/// can go nowhere else from there, and in a new block on the edge otherwise.
pub open spec fn place(st: Splitting, e: EdgePlan) -> Splitting {
    let to_start = st.ssa[e.to].start;
    let stmts = copy_stmts(e.copies, to_start);
    if one_target(st.cfg[e.from].successors) {
        let b = st.ssa[e.from];
        Splitting { ssa: st.ssa.update(e.from, SsaNode { stmts: b.stmts + stmts, ..b }), ..st }
    } else {
        let start = Va((SYNTHETIC_VA_BASE + st.synth) as u64);
        let jump = seq![Edge { to: to_start, kind: "jmp"@, confidence: 100 }];
        let c = st.cfg[e.from];
        let b = st.ssa[e.from];
        Splitting {
            cfg: st.cfg.update(
                e.from,
                CfgNode { successors: redirected(c.successors, to_start, start), ..c },
            ).push(
                CfgNode {
                    id: st.next_id,
                    start,
                    end: start,
                    terminator: "jmp"@,
                    successors: jump,
                    insns: Seq::empty(),
                },
            ),
            ssa: st.ssa.update(
                e.from,
                SsaNode { successors: redirected(b.successors, to_start, start), ..b },
            ).push(
                SsaNode {
                    id: st.next_id,
                    start,
                    end: start,
                    terminator: "jmp"@,
                    successors: jump,
                    phis: Seq::empty(),
                    stmts,
                    condition: None,
                },
            ),
            next_id: st.next_id + 1,
            synth: st.synth + 1,
        }
    }
}

/// Both views after the first `k` edges of the plan.
pub open spec fn place_all(st: Splitting, edges: Seq<EdgePlan>, k: nat) -> Splitting
    decreases k,
{
    if k == 0 {
        st
    } else {
        place(place_all(st, edges, (k - 1) as nat), edges[k - 1])
    }
}

/// One more than the largest block number.
pub open spec fn next_block_id(blocks: Seq<SsaBlock>, k: nat) -> int
    decreases k,
{
    if k == 0 {
        1
    } else {
        let before = next_block_id(blocks, (k - 1) as nat);
        if blocks[k - 1].id + 1 > before {
            blocks[k - 1].id + 1
        } else {
            before
        }
    }
}

/// Both views before any edge has got its copies.
pub open spec fn unsplit(cfg: Seq<CfgBlock>, blocks: Seq<SsaBlock>) -> Splitting {
    Splitting {
        cfg: cfg_nodes(cfg),
        ssa: ssa_nodes(blocks),
        next_id: next_block_id(blocks, blocks.len()),
        synth: 0,
    }
}

/// Both views once every edge has got its copies.
pub open spec fn destructed(
    cfg: Seq<CfgBlock>,
    blocks: Seq<SsaBlock>,
    names: Map<Seq<char>, Seq<char>>,
) -> Splitting {
    let edges = plan(blocks, names, blocks.len());
    place_all(unsplit(cfg, blocks), edges, edges.len())
}

/// An edge and the copies that it has to carry.
struct PlannedEdge {
    from: usize,
    to: usize,
    copies: Vec<(String, String)>,
}

spec fn edge_plan(e: PlannedEdge) -> EdgePlan {
    EdgePlan { from: e.from as int, to: e.to as int, copies: name_pairs(e.copies@) }
}

fn shown_name(names: &NameMap<String>, n: &String) -> (r: String)
    requires
        names.wf(),
    ensures
        r@ == shown(texts(*names), n@),
{
    match names.get(n) {
        Some(d) => d.clone(),
        None => n.clone(),
    }
}

fn copies_on(blocks: &[SsaBlock], names: &NameMap<String>, f: usize, t: usize) -> (copies: Vec<(String, String)>)
    requires
        names.wf(),
        t < blocks@.len(),
    ensures
        copies@ == edge_copies(blocks@, texts(*names), f as int, t as int, blocks@[t as int].phis@.len()),
{
    let b = &blocks[t];
    let mut copies: Vec<(String, String)> = Vec::new();
    let mut k: usize = 0;
    while k < b.phis.len()
        invariant
            names.wf(),
            t < blocks@.len(),
            *b == blocks@[t as int],
            k <= b.phis@.len(),
            copies@ == edge_copies(blocks@, texts(*names), f as int, t as int, k as nat),
        decreases b.phis@.len() - k,
    {
        let phi = &b.phis[k];
        if !phi.dst.as_str().is_empty() {
            let dst = shown_name(names, &phi.dst);
            let ghost before = copies@;
            proof {
                assert(before + phi_copies(blocks@, texts(*names), f as int, t as int, k as int, 0) =~= before);
            }
            let mut m: usize = 0;
            while m < phi.inputs.len()
                invariant
                    names.wf(),
                    t < blocks@.len(),
                    *b == blocks@[t as int],
                    k < b.phis@.len(),
                    *phi == b.phis@[k as int],
                    m <= phi.inputs@.len(),
                    dst@ == shown(texts(*names), phi.dst@),
                    copies@ == before + phi_copies(
                        blocks@,
                        texts(*names),
                        f as int,
                        t as int,
                        k as int,
                        m as nat,
                    ),
                decreases phi.inputs@.len() - m,
            {
                let input = &phi.inputs[m];
                let from_here = match find_id(blocks, input.from_block) {
                    Some(i) => i == f,
                    None => false,
                };
                let value = shown_name(names, &input.value);
                if from_here && !same(value.as_str(), dst.as_str()) {
                    copies.push((phi.dst.clone(), input.value.clone()));
                }
                m = m + 1;
                proof {
                    assert(copies@ =~= before + phi_copies(
                        blocks@,
                        texts(*names),
                        f as int,
                        t as int,
                        k as int,
                        m as nat,
                    ));
                }
            }
        }
        k = k + 1;
    }
    copies
}

fn is_overwritten(names: &NameMap<String>, copies: &Vec<(String, String)>, i: usize) -> (r: bool)
    requires
        names.wf(),
        i < copies@.len(),
    ensures
        r == overwritten(texts(*names), name_pairs(copies@), i as int),
{
    let src = shown_name(names, &copies[i].1);
    let ghost c = name_pairs(copies@);
    let mut j: usize = 0;
    while j < i
        invariant
            names.wf(),
            i < copies@.len(),
            j <= i,
            c == name_pairs(copies@),
            src@ == shown(texts(*names), c[i as int].1),
            forall|m: int| 0 <= m < j ==> shown(texts(*names), (#[trigger] c[m]).0) != src@,
        decreases i - j,
    {
        let dst = shown_name(names, &copies[j].0);
        assert(dst@ == shown(texts(*names), c[j as int].0));
        if same(dst.as_str(), src.as_str()) {
            return true;
        }
        j = j + 1;
    }
    false
}

/// Puts the copies of one edge into an order in which none reads what another has
/// overwritten.
fn in_order(names: &NameMap<String>, copies: &Vec<(String, String)>) -> (r: Vec<(String, String)>)
    requires
        names.wf(),
    ensures
        name_pairs(r@) == in_turn(texts(*names), name_pairs(copies@)),
{
    let ghost c = name_pairs(copies@);
    let ghost tn = texts(*names);
    let mut out: Vec<(String, String)> = Vec::new();
    let mut i: usize = 0;
    assert(name_pairs(out@) =~= saves(tn, c, 0));
    while i < copies.len()
        invariant
            names.wf(),
            c == name_pairs(copies@),
            tn == texts(*names),
            i <= copies@.len(),
            name_pairs(out@) == saves(tn, c, i as nat),
        decreases copies@.len() - i,
    {
        if is_overwritten(names, copies, i) {
            let kept = copies[i].1.clone().concat("_old");
            let ghost before = out@;
            out.push((kept, copies[i].1.clone()));
            assert(name_pairs(out@) =~= name_pairs(before).push((saved_name(c[i as int].1), c[i as int].1)));
        }
        i = i + 1;
    }
    let ghost first = saves(tn, c, c.len());
    let mut k: usize = 0;
    assert(name_pairs(out@) =~= first + moves(tn, c).take(0));
    while k < copies.len()
        invariant
            names.wf(),
            c == name_pairs(copies@),
            tn == texts(*names),
            k <= copies@.len(),
            name_pairs(out@) == first + moves(tn, c).take(k as int),
        decreases copies@.len() - k,
    {
        let ghost before = out@;
        let src: String = if is_overwritten(names, copies, k) {
            copies[k].1.clone().concat("_old")
        } else {
            copies[k].1.clone()
        };
        out.push((copies[k].0.clone(), src));
        k = k + 1;
        proof {
            let m = moves(tn, c);
            assert(name_pairs(out@) =~= name_pairs(before).push(m[k - 1]));
            assert(first + m.take(k as int) =~= (first + m.take(k - 1)).push(m[k - 1]));
        }
    }
    assert(moves(tn, c).take(k as int) =~= moves(tn, c));
    out
}

fn plan_edges(blocks: &[SsaBlock], names: &NameMap<String>) -> (edges: Vec<PlannedEdge>)
    requires
        names.wf(),
    ensures
        edges@.map_values(|e: PlannedEdge| edge_plan(e)) == plan(blocks@, texts(*names), blocks@.len()),
        forall|k: int|
            0 <= k < edges@.len() ==> (#[trigger] edges@[k]).from < blocks@.len() && edges@[k].to < blocks@.len(),
{
    let mut edges: Vec<PlannedEdge> = Vec::new();
    let mut f: usize = 0;
    proof {
        assert(edges@.map_values(|e: PlannedEdge| edge_plan(e)) =~= plan(blocks@, texts(*names), 0));
    }
    while f < blocks.len()
        invariant
            names.wf(),
            f <= blocks@.len(),
            edges@.map_values(|e: PlannedEdge| edge_plan(e)) == plan(blocks@, texts(*names), f as nat),
            forall|k: int|
                0 <= k < edges@.len() ==> (#[trigger] edges@[k]).from < blocks@.len() && edges@[k].to
                    < blocks@.len(),
        decreases blocks@.len() - f,
    {
        let ghost before = edges@.map_values(|e: PlannedEdge| edge_plan(e));
        let mut t: usize = 0;
        proof {
            assert(before + plan_row(blocks@, texts(*names), f as int, 0) =~= before);
        }
        while t < blocks.len()
            invariant
                names.wf(),
                f < blocks@.len(),
                t <= blocks@.len(),
                edges@.map_values(|e: PlannedEdge| edge_plan(e)) == before + plan_row(
                    blocks@,
                    texts(*names),
                    f as int,
                    t as nat,
                ),
                forall|k: int|
                    0 <= k < edges@.len() ==> (#[trigger] edges@[k]).from < blocks@.len() && edges@[k].to
                        < blocks@.len(),
            decreases blocks@.len() - t,
        {
            let copies = copies_on(blocks, names, f, t);
            let ghost edges0 = edges@.map_values(|e: PlannedEdge| edge_plan(e));
            let ghost row0 = plan_row(blocks@, texts(*names), f as int, t as nat);
            if copies.len() > 0 {
                let ordered = in_order(names, &copies);
                let ghost cs = name_pairs(ordered@);
                edges.push(PlannedEdge { from: f, to: t, copies: ordered });
                proof {
                    let p = EdgePlan { from: f as int, to: t as int, copies: cs };
                    assert(edges@.map_values(|e: PlannedEdge| edge_plan(e)) =~= edges0.push(p));
                    assert(plan_row(blocks@, texts(*names), f as int, (t + 1) as nat) == row0.push(p));
                }
            } else {
                assert(plan_row(blocks@, texts(*names), f as int, (t + 1) as nat) == row0);
            }
            t = t + 1;
            proof {
                assert(edges@.map_values(|e: PlannedEdge| edge_plan(e)) =~= before + plan_row(
                    blocks@,
                    texts(*names),
                    f as int,
                    t as nat,
                ));
            }
        }
        f = f + 1;
    }
    edges
}

fn has_one_target(s: &Vec<Successor>) -> (r: bool)
    ensures
        r == one_target(edges_of(s@)),
{
    let mut k: usize = 1;
    while k < s.len()
        invariant
            1 <= k,
            k <= s@.len() || s@.len() == 0,
            forall|j: int| 0 <= j < k && j < s@.len() ==> (#[trigger] s@[j]).to == s@[0].to,
        decreases s@.len() - k,
    {
        if s[k].to.0 != s[0].to.0 {
            proof {
                let e = edges_of(s@);
                assert(e[k as int].to != e[0].to);
            }
            return false;
        }
        k = k + 1;
    }
    proof {
        let e = edges_of(s@);
        assert forall|a: int, b: int| 0 <= a < e.len() && 0 <= b < e.len() implies (#[trigger] e[a]).to == (
        #[trigger] e[b]).to by {
            assert(s@[a].to == s@[0].to);
            assert(s@[b].to == s@[0].to);
        }
    }
    true
}

fn redirect(s: &mut Vec<Successor>, old_to: Va, new_to: Va)
    ensures
        edges_of(final(s)@) == redirected(edges_of(old(s)@), old_to, new_to),
{
    let mut k: usize = 0;
    while k < s.len()
        invariant
            k <= s@.len(),
            s@.len() == old(s)@.len(),
            forall|j: int|
                0 <= j < k ==> edges_of(s@)[j] == #[trigger] redirected(edges_of(old(s)@), old_to, new_to)[j],
            forall|j: int| k <= j < s@.len() ==> s@[j] == old(s)@[j],
        decreases s@.len() - k,
    {
        if s[k].to.0 == old_to.0 {
            s[k].to = new_to;
        }
        k = k + 1;
    }
    assert(edges_of(s@) =~= redirected(edges_of(old(s)@), old_to, new_to));
}

fn jump_to(to: Va) -> (s: Vec<Successor>)
    ensures
        edges_of(s@) == seq![Edge { to, kind: "jmp"@, confidence: 100 }],
{
    let mut s: Vec<Successor> = Vec::new();
    s.push(Successor { to, kind: String::from_str("jmp"), confidence: 100 });
    assert(edges_of(s@) =~= seq![Edge { to, kind: "jmp"@, confidence: 100 }]);
    s
}

/// Completes the way out of static single assignment form: every phi whose
/// members are not all shown under one name becomes copies on its incoming
/// edges. The copies of one edge act as one assignment: an input that another of
/// them overwrites is kept under a name of its own first. An edge whose source
/// can also go elsewhere is split by a new block that carries its copies. `cfg`
/// and `blocks` are two views of one function and stay aligned.
pub fn destruct_ssa(
    cfg: CfgArtifact,
    blocks: Vec<SsaBlock>,
    names: &NameMap<String>,
) -> (r: (CfgArtifact, Vec<SsaBlock>))
    requires
        names.wf(),
        blocks@.len() <= cfg.blocks@.len(),
        next_block_id(blocks@, blocks@.len()) + plan(blocks@, texts(*names), blocks@.len()).len()
            <= usize::MAX,
        SYNTHETIC_VA_BASE + plan(blocks@, texts(*names), blocks@.len()).len() <= u64::MAX,
    ensures
        cfg_nodes(r.0.blocks@) == destructed(cfg.blocks@, blocks@, texts(*names)).cfg,
        ssa_nodes(r.1@) == destructed(cfg.blocks@, blocks@, texts(*names)).ssa,
        r.0 == (CfgArtifact { blocks: r.0.blocks, ..cfg }),
{
    let mut cfg = cfg;
    let mut blocks = blocks;
    let ghost cfg0 = cfg;
    let ghost blocks0 = blocks@;
    let ghost tn = texts(*names);
    let edges = plan_edges(blocks.as_slice(), names);
    let ghost es = plan(blocks0, tn, blocks0.len());
    let ghost st0 = unsplit(cfg0.blocks@, blocks0);
    let mut next_id: usize = 1;
    let mut i: usize = 0;
    while i < blocks.len()
        invariant
            i <= blocks@.len(),
            blocks@ == blocks0,
            next_block_id(blocks0, blocks0.len()) <= usize::MAX,
            next_id == next_block_id(blocks0, i as nat),
        decreases blocks@.len() - i,
    {
        proof {
            lemma_next_id_grows(blocks0, (i + 1) as nat, blocks0.len());
        }
        if blocks[i].id + 1 > next_id {
            next_id = blocks[i].id + 1;
        }
        i = i + 1;
    }
    let mut synth: u64 = 0;
    let mut k: usize = 0;
    let ghost n = blocks0.len();
    while k < edges.len()
        invariant
            k <= edges@.len(),
            edges@.map_values(|e: PlannedEdge| edge_plan(e)) == es,
            forall|j: int| 0 <= j < edges@.len() ==> (#[trigger] edges@[j]).from < n && edges@[j].to < n,
            n <= blocks@.len(),
            n <= cfg.blocks@.len(),
            next_id + (es.len() - k) <= usize::MAX,
            SYNTHETIC_VA_BASE + synth + (es.len() - k) <= u64::MAX,
            cfg_nodes(cfg.blocks@) == place_all(st0, es, k as nat).cfg,
            ssa_nodes(blocks@) == place_all(st0, es, k as nat).ssa,
            next_id == place_all(st0, es, k as nat).next_id,
            synth == place_all(st0, es, k as nat).synth,
            cfg == (CfgArtifact { blocks: cfg.blocks, ..cfg0 }),
        decreases edges@.len() - k,
    {
        let e = &edges[k];
        let ghost st = place_all(st0, es, k as nat);
        let ghost blocks1 = blocks@;
        let ghost cfg1 = cfg.blocks@;
        proof {
            assert(es[k as int] == edge_plan(*e));
            assert(ssa_nodes(blocks@)[e.to as int] == ssa_node(blocks@[e.to as int]));
            assert(cfg_nodes(cfg.blocks@)[e.from as int] == cfg_node(cfg.blocks@[e.from as int]));
        }
        let to_start = blocks[e.to].start;
        let mut stmts: Vec<SsaStmt> = Vec::new();
        let mut c: usize = 0;
        while c < e.copies.len()
            invariant
                c <= e.copies@.len(),
                stmt_nodes(stmts@) == copy_stmts(name_pairs(e.copies@).take(c as int), to_start),
            decreases e.copies@.len() - c,
        {
            let ghost before = stmts@;
            stmts.push(
                SsaStmt {
                    va: to_start,
                    stmt: MicroStmt::Assign {
                        dst: e.copies[c].0.clone(),
                        value: MicroExpr::Var(e.copies[c].1.clone()),
                    },
                },
            );
            c = c + 1;
            proof {
                let all = name_pairs(e.copies@);
                assert(all.take(c as int) =~= all.take(c - 1).push(all[c - 1]));
                assert(stmt_nodes(stmts@) =~= stmt_nodes(before).push(stmt_node(stmts@.last())));
                assert(stmt_nodes(stmts@) =~= copy_stmts(all.take(c as int), to_start));
            }
        }
        let ghost put = stmts@;
        proof {
            assert(name_pairs(e.copies@).take(c as int) =~= name_pairs(e.copies@));
        }
        if has_one_target(&cfg.blocks[e.from].successors) {
            blocks[e.from].stmts.append(&mut stmts);
            proof {
                let f = e.from as int;
                assert(ssa_nodes(blocks@) =~= place(st, es[k as int]).ssa) by {
                    assert forall|j: int| 0 <= j < blocks@.len() implies ssa_nodes(blocks@)[j] == place(
                        st,
                        es[k as int],
                    ).ssa[j] by {
                        assert(ssa_nodes(blocks1)[j] == ssa_node(blocks1[j]));
                        if j != f {
                            assert(blocks@[j] == blocks1[j]);
                        } else {
                            assert(stmt_nodes(blocks@[j].stmts@) =~= stmt_nodes(blocks1[j].stmts@) + stmt_nodes(put));
                        }
                    }
                }
            }
        } else {
            let start = Va(SYNTHETIC_VA_BASE + synth);
            redirect(&mut cfg.blocks[e.from].successors, to_start, start);
            redirect(&mut blocks[e.from].successors, to_start, start);
            let ghost blocks2 = blocks@;
            let ghost cfg2 = cfg.blocks@;
            cfg.blocks.push(
                CfgBlock {
                    id: next_id,
                    start,
                    end: start,
                    terminator: String::from_str("jmp"),
                    successors: jump_to(to_start),
                    insns: Vec::new(),
                },
            );
            blocks.push(
                SsaBlock {
                    id: next_id,
                    start,
                    end: start,
                    terminator: String::from_str("jmp"),
                    successors: jump_to(to_start),
                    phis: Vec::new(),
                    stmts,
                    condition: None,
                },
            );
            next_id = next_id + 1;
            synth = synth + 1;
            proof {
                let f = e.from as int;
                assert(ssa_nodes(blocks@) =~= place(st, es[k as int]).ssa) by {
                    assert forall|j: int| 0 <= j < blocks@.len() implies ssa_nodes(blocks@)[j] == place(
                        st,
                        es[k as int],
                    ).ssa[j] by {
                        if j < blocks1.len() {
                            assert(ssa_nodes(blocks1)[j] == ssa_node(blocks1[j]));
                            assert(blocks@[j] == blocks2[j]);
                            if j != f {
                                assert(blocks2[j] == blocks1[j]);
                            }
                        }
                    }
                }
                assert(cfg_nodes(cfg.blocks@) =~= place(st, es[k as int]).cfg) by {
                    assert forall|j: int| 0 <= j < cfg.blocks@.len() implies cfg_nodes(cfg.blocks@)[j] == place(
                        st,
                        es[k as int],
                    ).cfg[j] by {
                        if j < cfg1.len() {
                            assert(cfg_nodes(cfg1)[j] == cfg_node(cfg1[j]));
                            assert(cfg.blocks@[j] == cfg2[j]);
                            if j != f {
                                assert(cfg2[j] == cfg1[j]);
                            }
                        }
                    }
                }
            }
        }
        k = k + 1;
    }
    (cfg, blocks)
}

proof fn lemma_next_id_grows(blocks: Seq<SsaBlock>, a: nat, b: nat)
    requires
        a <= b,
    ensures
        next_block_id(blocks, a) <= next_block_id(blocks, b),
    decreases b,
{
    if a < b {
        lemma_next_id_grows(blocks, a, (b - 1) as nat);
    }
}

/// The `c`-th copy of `e` stands in block `x`, which is the source of the edge
/// or a new block on it.
pub open spec fn placed_in(st: Splitting, n: int, e: EdgePlan, to_start: Va, c: int, x: int) -> bool {
    &&& 0 <= x < st.ssa.len()
    &&& st.ssa[x].stmts.contains(copy_stmts(e.copies, to_start)[c])
    &&& x == e.from || (x >= n && st.ssa[x].successors == seq![
        Edge { to: to_start, kind: "jmp"@, confidence: 100 },
    ])
}

proof fn lemma_place_keeps(st: Splitting, n: int, e: EdgePlan)
    requires
        0 <= e.from < n,
        0 <= e.to < n,
        n <= st.ssa.len(),
    ensures
        place(st, e).ssa.len() >= st.ssa.len(),
        forall|x: int| 0 <= x < st.ssa.len() ==> (#[trigger] place(st, e).ssa[x]).start == st.ssa[x].start,
        forall|x: int, s: StmtNode|
            0 <= x < st.ssa.len() && st.ssa[x].stmts.contains(s) ==> #[trigger] place(st, e).ssa[x].stmts.contains(s),
        forall|x: int| n <= x < st.ssa.len() ==> #[trigger] place(st, e).ssa[x] == st.ssa[x],
{
    let after = place(st, e);
    assert forall|x: int, s: StmtNode|
        0 <= x < st.ssa.len() && st.ssa[x].stmts.contains(s) implies #[trigger] after.ssa[x].stmts.contains(s) by {
        let j = choose|j: int| 0 <= j < st.ssa[x].stmts.len() && st.ssa[x].stmts[j] == s;
        assert(after.ssa[x].stmts[j] == s);
    }
}

proof fn lemma_placed(
    cfg: Seq<CfgBlock>,
    blocks: Seq<SsaBlock>,
    edges: Seq<EdgePlan>,
    k: nat,
    e: int,
    c: int,
)
    requires
        blocks.len() <= cfg.len(),
        k <= edges.len(),
        forall|j: int|
            0 <= j < edges.len() ==> 0 <= (#[trigger] edges[j]).from < blocks.len() && 0 <= edges[j].to
                < blocks.len(),
        0 <= e < edges.len(),
        0 <= c < edges[e].copies.len(),
    ensures
        place_all(unsplit(cfg, blocks), edges, k).ssa.len() >= blocks.len(),
        forall|x: int|
            0 <= x < blocks.len() ==> (#[trigger] place_all(unsplit(cfg, blocks), edges, k).ssa[x]).start
                == blocks[x].start,
        e < k ==> exists|x: int| #[trigger]
            placed_in(
                place_all(unsplit(cfg, blocks), edges, k),
                blocks.len() as int,
                edges[e],
                blocks[edges[e].to].start,
                c,
                x,
            ),
    decreases k,
{
    if k > 0 {
        let n = blocks.len() as int;
        let st = place_all(unsplit(cfg, blocks), edges, (k - 1) as nat);
        lemma_placed(cfg, blocks, edges, (k - 1) as nat, e, c);
        let last = edges[k - 1];
        lemma_place_keeps(st, n, last);
        let after = place(st, last);
        let to_start = blocks[edges[e].to].start;
        if e < k - 1 {
            let x = choose|x: int| #[trigger] placed_in(st, n, edges[e], to_start, c, x);
            assert(placed_in(after, n, edges[e], to_start, c, x));
        } else if e == k - 1 {
            assert(st.ssa[last.to].start == to_start);
            let stmts = copy_stmts(last.copies, to_start);
            if one_target(st.cfg[last.from].successors) {
                let x = last.from;
                let at = st.ssa[x].stmts.len() + c;
                assert(after.ssa[x].stmts[at] == stmts[c]);
                assert(placed_in(after, n, edges[e], to_start, c, x));
            } else {
                let x = st.ssa.len() as int;
                assert(after.ssa[x].stmts[c] == stmts[c]);
                assert(placed_in(after, n, edges[e], to_start, c, x));
            }
        }
    }
}

proof fn lemma_plan_in_range(blocks: Seq<SsaBlock>, names: Map<Seq<char>, Seq<char>>, f: nat)
    requires
        f <= blocks.len(),
    ensures
        forall|j: int|
            0 <= j < plan(blocks, names, f).len() ==> 0 <= (#[trigger] plan(blocks, names, f)[j]).from
                < blocks.len() && 0 <= plan(blocks, names, f)[j].to < blocks.len(),
    decreases f,
{
    if f > 0 {
        lemma_plan_in_range(blocks, names, (f - 1) as nat);
        lemma_row_in_range(blocks, names, f - 1, blocks.len());
        let prev = plan(blocks, names, (f - 1) as nat);
        let row = plan_row(blocks, names, f - 1, blocks.len());
        let now = plan(blocks, names, f);
        assert forall|j: int| 0 <= j < now.len() implies 0 <= (#[trigger] now[j]).from < blocks.len() && 0
            <= now[j].to < blocks.len() by {
            if j < prev.len() {
                assert(now[j] == prev[j]);
            } else {
                assert(now[j] == row[j - prev.len()]);
            }
        }
    }
}

proof fn lemma_row_in_range(blocks: Seq<SsaBlock>, names: Map<Seq<char>, Seq<char>>, f: int, t: nat)
    requires
        0 <= f < blocks.len(),
        t <= blocks.len(),
    ensures
        forall|j: int|
            0 <= j < plan_row(blocks, names, f, t).len() ==> (#[trigger] plan_row(blocks, names, f, t)[j]).from
                == f && 0 <= plan_row(blocks, names, f, t)[j].to < blocks.len(),
    decreases t,
{
    if t > 0 {
        lemma_row_in_range(blocks, names, f, (t - 1) as nat);
        let prev = plan_row(blocks, names, f, (t - 1) as nat);
        let now = plan_row(blocks, names, f, t);
        assert forall|j: int| 0 <= j < now.len() implies (#[trigger] now[j]).from == f && 0 <= now[j].to
            < blocks.len() by {
            if j < prev.len() {
                assert(now[j] == prev[j]);
            }
        }
    }
}

/// Every copy that a phi needs is there afterwards: at the end of the block it
/// comes from, or in a new block that goes on to the phi and nowhere else. So
/// no result of a phi is read without a definition in sight.
pub proof fn every_needed_copy_is_placed(
    cfg: Seq<CfgBlock>,
    blocks: Seq<SsaBlock>,
    names: Map<Seq<char>, Seq<char>>,
    e: int,
    c: int,
)
    requires
        blocks.len() <= cfg.len(),
        0 <= e < plan(blocks, names, blocks.len()).len(),
        0 <= c < plan(blocks, names, blocks.len())[e].copies.len(),
    ensures
        exists|x: int| #[trigger]
            placed_in(
                destructed(cfg, blocks, names),
                blocks.len() as int,
                plan(blocks, names, blocks.len())[e],
                blocks[plan(blocks, names, blocks.len())[e].to].start,
                c,
                x,
            ),
{
    let edges = plan(blocks, names, blocks.len());
    lemma_plan_in_range(blocks, names, blocks.len());
    lemma_placed(cfg, blocks, edges, edges.len(), e, c);
    let st = place_all(unsplit(cfg, blocks), edges, edges.len());
    let to_start = blocks[edges[e].to].start;
    let x = choose|x: int| #[trigger] placed_in(st, blocks.len() as int, edges[e], to_start, c, x);
    assert(st == destructed(cfg, blocks, names));
}

/// What the first `k` copies leave behind, run one after another: the values by the
/// names under which they are shown.
pub open spec fn after_copies(
    names: Map<Seq<char>, Seq<char>>,
    c: Seq<(Seq<char>, Seq<char>)>,
    k: nat,
    env: spec_fn(Seq<char>) -> int,
) -> spec_fn(Seq<char>) -> int
    decreases k,
{
    if k == 0 {
        env
    } else {
        let before = after_copies(names, c, (k - 1) as nat, env);
        |n: Seq<char>|
            if n == shown(names, c[k - 1].0) {
                before(shown(names, c[k - 1].1))
            } else {
                before(n)
            }
    }
}

/// The names that keep values are in no other use: none of them is a name of a
/// copy, or a name that is shown as another.
pub open spec fn saved_names_are_free(names: Map<Seq<char>, Seq<char>>, c: Seq<(Seq<char>, Seq<char>)>) -> bool {
    forall|i: int, j: int|
        0 <= i < c.len() && 0 <= j < c.len() ==> {
            let kept = saved_name((#[trigger] c[i]).1);
            &&& !names.contains_key(kept)
            &&& kept != shown(names, (#[trigger] c[j]).0)
            &&& kept != shown(names, c[j].1)
        }
}

/// The copies of one edge act as one assignment of all results at once: each gets
/// what its input held before the first copy ran, and no other name changes but
/// those that keep values. So two phis that swap their inputs do swap.
pub proof fn copies_act_at_once(
    names: Map<Seq<char>, Seq<char>>,
    c: Seq<(Seq<char>, Seq<char>)>,
    env: spec_fn(Seq<char>) -> int,
)
    requires
        saved_names_are_free(names, c),
        forall|i: int, j: int|
            0 <= i < j < c.len() ==> shown(names, (#[trigger] c[i]).0) != shown(names, (#[trigger] c[j]).0),
    ensures
        forall|i: int|
            0 <= i < c.len() ==> after_copies(names, in_turn(names, c), in_turn(names, c).len(), env)(
                shown(names, (#[trigger] c[i]).0),
            ) == env(shown(names, c[i].1)),
        forall|n: Seq<char>|
            (forall|i: int| 0 <= i < c.len() ==> n != shown(names, (#[trigger] c[i]).0) && n != saved_name(c[i].1))
                ==> #[trigger] after_copies(names, in_turn(names, c), in_turn(names, c).len(), env)(n) == env(n),
{
    let all = in_turn(names, c);
    let m = saves(names, c, c.len()).len();
    lemma_saved(names, c, env, c.len());
    lemma_after_prefix(names, saves(names, c, c.len()), all, m, env);
    lemma_moved(names, c, env, c.len());
    let end = after_copies(names, all, all.len(), env);
    assert forall|n: Seq<char>|
        (forall|i: int| 0 <= i < c.len() ==> n != shown(names, (#[trigger] c[i]).0) && n != saved_name(c[i].1))
        implies #[trigger] end(n) == env(n) by {
        assert(!is_kept(c, n));
    }
}

/// The name keeps the value of an input.
spec fn is_kept(c: Seq<(Seq<char>, Seq<char>)>, n: Seq<char>) -> bool {
    exists|i: int| 0 <= i < c.len() && n == saved_name((#[trigger] c[i]).1)
}

/// Two lists of copies that start alike leave the same behind so far.
proof fn lemma_after_prefix(
    names: Map<Seq<char>, Seq<char>>,
    a: Seq<(Seq<char>, Seq<char>)>,
    b: Seq<(Seq<char>, Seq<char>)>,
    k: nat,
    env: spec_fn(Seq<char>) -> int,
)
    requires
        k <= a.len(),
        k <= b.len(),
        forall|i: int| 0 <= i < k ==> a[i] == b[i],
    ensures
        after_copies(names, a, k, env) == after_copies(names, b, k, env),
    decreases k,
{
    if k > 0 {
        lemma_after_prefix(names, a, b, (k - 1) as nat, env);
    }
}

/// Keeping values changes nothing but the names that keep them.
proof fn lemma_saved(
    names: Map<Seq<char>, Seq<char>>,
    c: Seq<(Seq<char>, Seq<char>)>,
    env: spec_fn(Seq<char>) -> int,
    k: nat,
)
    requires
        saved_names_are_free(names, c),
        k <= c.len(),
    ensures
        ({
            let s = saves(names, c, k);
            let now = after_copies(names, s, s.len(), env);
            &&& forall|n: Seq<char>| !is_kept(c, n) ==> #[trigger] now(n) == env(n)
            &&& forall|i: int|
                0 <= i < k && overwritten(names, c, i) ==> now(saved_name((#[trigger] c[i]).1)) == env(
                    shown(names, c[i].1),
                )
        }),
    decreases k,
{
    if k > 0 {
        lemma_saved(names, c, env, (k - 1) as nat);
        let s0 = saves(names, c, (k - 1) as nat);
        let s = saves(names, c, k);
        if overwritten(names, c, k - 1) {
            lemma_after_prefix(names, s0, s, s0.len(), env);
            let before = after_copies(names, s0, s0.len(), env);
            let now = after_copies(names, s, s.len(), env);
            let kept = saved_name(c[k - 1].1);
            assert(s[s.len() - 1] == (kept, c[k - 1].1));
            assert(c[k - 1] == c[k - 1]);
            assert(shown(names, kept) == kept);
            let src = shown(names, c[k - 1].1);
            assert(!is_kept(c, src)) by {
                if is_kept(c, src) {
                    let i = choose|i: int| 0 <= i < c.len() && src == saved_name((#[trigger] c[i]).1);
                    assert(saved_name(c[i].1) != shown(names, c[k - 1].1));
                }
            }
            assert(now(kept) == env(src));
            assert forall|n: Seq<char>| !is_kept(c, n) implies #[trigger] now(n) == env(n) by {
                assert(n != kept);
                assert(before(n) == env(n));
            }
            assert forall|i: int| 0 <= i < k && overwritten(names, c, i) implies now(saved_name((#[trigger] c[i]).1))
                == env(shown(names, c[i].1)) by {
                if saved_name(c[i].1) == kept {
                    let t = "_old"@;
                    assert(c[i].1 =~= saved_name(c[i].1).take(saved_name(c[i].1).len() - t.len()));
                    assert(c[k - 1].1 =~= kept.take(kept.len() - t.len()));
                }
            }
        }
    }
}

/// After the first `k` results are set they hold what their inputs held at first.
proof fn lemma_moved(
    names: Map<Seq<char>, Seq<char>>,
    c: Seq<(Seq<char>, Seq<char>)>,
    env: spec_fn(Seq<char>) -> int,
    k: nat,
)
    requires
        saved_names_are_free(names, c),
        forall|i: int, j: int|
            0 <= i < j < c.len() ==> shown(names, (#[trigger] c[i]).0) != shown(names, (#[trigger] c[j]).0),
        k <= c.len(),
    ensures
        ({
            let s = saves(names, c, c.len());
            let kept = after_copies(names, s, s.len(), env);
            let now = after_copies(names, in_turn(names, c), (s.len() + k) as nat, env);
            &&& forall|i: int|
                0 <= i < k ==> now(shown(names, (#[trigger] c[i]).0)) == env(shown(names, c[i].1))
            &&& forall|n: Seq<char>|
                (forall|i: int| 0 <= i < k ==> n != shown(names, (#[trigger] c[i]).0)) ==> #[trigger] now(n) == kept(n)
        }),
    decreases k,
{
    let s = saves(names, c, c.len());
    let all = in_turn(names, c);
    let kept = after_copies(names, s, s.len(), env);
    lemma_saved(names, c, env, c.len());
    if k == 0 {
        lemma_after_prefix(names, s, all, s.len(), env);
    } else {
        lemma_moved(names, c, env, (k - 1) as nat);
        let before = after_copies(names, all, (s.len() + k - 1) as nat, env);
        let now = after_copies(names, all, (s.len() + k) as nat, env);
        let x = k - 1;
        let dst = shown(names, c[x].0);
        let src = shown(names, c[x].1);
        assert(all[s.len() + x] == moves(names, c)[x]);
        let read = shown(names, moves(names, c)[x].1);
        assert(now(dst) == before(read));
        assert(before(read) == env(src)) by {
            if overwritten(names, c, x) {
                assert(c[x] == c[x]);
                assert(read == saved_name(c[x].1));
                assert forall|i: int| 0 <= i < x implies read != shown(names, (#[trigger] c[i]).0) by {
                    assert(saved_name(c[x].1) != shown(names, c[i].0));
                }
                assert(before(read) == kept(read));
            } else {
                assert(read == src);
                assert forall|i: int| 0 <= i < x implies read != shown(names, (#[trigger] c[i]).0) by {}
                assert(before(read) == kept(read));
                assert(!is_kept(c, src)) by {
                    if is_kept(c, src) {
                        let i = choose|i: int| 0 <= i < c.len() && src == saved_name((#[trigger] c[i]).1);
                        assert(saved_name(c[i].1) != shown(names, c[x].1));
                    }
                }
            }
        }
        assert forall|i: int| 0 <= i < k implies now(shown(names, (#[trigger] c[i]).0)) == env(shown(names, c[i].1)) by {
            if i < x {
                assert(shown(names, c[i].0) != shown(names, c[x].0));
            }
        }
        assert forall|n: Seq<char>|
            (forall|i: int| 0 <= i < k ==> n != shown(names, (#[trigger] c[i]).0)) implies #[trigger] now(n) == kept(n) by {
            assert(n != shown(names, c[x].0));
            assert(before(n) == kept(n));
        }
    }
}

/// Where no copy reads what an earlier one has overwritten, the copies stay as they
/// are.
pub proof fn apart_copies_stay(names: Map<Seq<char>, Seq<char>>, c: Seq<(Seq<char>, Seq<char>)>)
    requires
        forall|i: int| 0 <= i < c.len() ==> !#[trigger] overwritten(names, c, i),
    ensures
        in_turn(names, c) == c,
{
    lemma_no_saves(names, c, c.len());
    assert(moves(names, c) =~= c);
    assert(in_turn(names, c) =~= c);
}

proof fn lemma_no_saves(names: Map<Seq<char>, Seq<char>>, c: Seq<(Seq<char>, Seq<char>)>, k: nat)
    requires
        k <= c.len(),
        forall|i: int| 0 <= i < c.len() ==> !#[trigger] overwritten(names, c, i),
    ensures
        saves(names, c, k).len() == 0,
    decreases k,
{
    if k > 0 {
        lemma_no_saves(names, c, (k - 1) as nat);
        assert(!overwritten(names, c, k - 1));
    }
}

// ---------------------------------------------------------------------------
// What is read, defined and live
// ---------------------------------------------------------------------------

/// A statement reads the variables of each expression in it, and defines what it assigns
/// or what its call returns; what it defines it does not read on that account.
pub proof fn statements_read_their_expressions(s: MicroStmt, v: Seq<char>)
    ensures
        s matches MicroStmt::Assign { dst, value } ==> def_of(s) == Some(dst@) && uses_of(s) == vars_of(value),
        s matches MicroStmt::Store { addr, value, .. } ==> def_of(s) is None && (uses_of(s).contains(v) <==> vars_of(
            addr,
        ).contains(v) || vars_of(value).contains(v)),
        s matches MicroStmt::Return(Some(e)) ==> def_of(s) is None && uses_of(s) == vars_of(e),
        s matches MicroStmt::Call { target, args, ret } ==> {
            &&& ret matches Some(r) ==> def_of(s) == Some(r@)
            &&& ret is None ==> def_of(s) is None
            &&& (target matches CallTarget::Indirect(t) && vars_of(*t).contains(v)) || (exists|i: int|
                0 <= i < args@.len() && vars_of(#[trigger] args@[i]).contains(v)) ==> uses_of(s).contains(v)
        },
        s is Nop || s is Unlifted ==> def_of(s) is None && uses_of(s) == Set::<Seq<char>>::empty(),
{
    match s {
        MicroStmt::Call { target, args, .. } => {
            if exists|i: int| 0 <= i < args@.len() && vars_of(#[trigger] args@[i]).contains(v) {
                let i = choose|i: int| 0 <= i < args@.len() && vars_of(#[trigger] args@[i]).contains(v);
                lemma_argument_read(args, args@.len(), i, v);
            }
        },
        _ => {},
    }
}

proof fn lemma_argument_read(args: Vec<MicroExpr>, k: nat, i: int, v: Seq<char>)
    requires
        0 <= i < k <= args@.len(),
        vars_of(args@[i]).contains(v),
    ensures
        list_vars(args, k).contains(v),
    decreases k,
{
    if i < k - 1 {
        lemma_argument_read(args, (k - 1) as nat, i, v);
    }
}

/// What a statement reads flows into the block unless a phi or an earlier statement of it
/// defines it.
pub proof fn reads_flow_in_unless_defined_before(b: SsaBlock, j: int, v: Seq<char>)
    requires
        0 <= j < b.stmts@.len(),
        uses_of(b.stmts@[j].stmt).contains(v),
        forall|i: int| 0 <= i < j ==> def_of((#[trigger] b.stmts@[i]).stmt) != Some(v),
        forall|i: int| 0 <= i < b.phis@.len() ==> (#[trigger] b.phis@[i]).dst@ != v,
    ensures
        block_uses(b, v),
{
    assert(!defined_before(b, j, v));
    assert(uses_of(b.stmts@[j].stmt).contains(v));
}

/// What lives at the start of a block lives at the end of each block before it; and what
/// lives at the end of a block lives at the start of one behind it, or a phi takes it
/// from there.
pub proof fn liveness_flows_backwards(blocks: Seq<SsaBlock>, i: int, j: int, v: Seq<char>)
    requires
        0 <= i < blocks.len(),
        0 <= j < blocks.len(),
    ensures
        flows(blocks, i, j) && live_in_at(blocks, j, v) ==> live_out_at(blocks, i, v),
        feeds_phi(blocks, i, v) ==> live_out_at(blocks, i, v),
        live_out_at(blocks, i, v) ==> feeds_phi(blocks, i, v) || exists|k: int|
            0 <= k < blocks.len() && #[trigger] flows(blocks, i, k) && live_in_at(blocks, k, v),
        live_out_at(blocks, i, v) && !block_defines(blocks[i], v) ==> live_in_at(blocks, i, v),
        block_uses(blocks[i], v) ==> live_in_at(blocks, i, v),
        block_defines(blocks[i], v) && !block_uses(blocks[i], v) ==> !live_in_at(blocks, i, v),
{
    if feeds_phi(blocks, i, v) {
        assert(wanted_after(blocks, i, v, 0));
    }
    if flows(blocks, i, j) && live_in_at(blocks, j, v) {
        if block_uses(blocks[j], v) {
            assert(wanted_after(blocks, i, v, 1));
        } else {
            let k = choose|k: nat| #[trigger] wanted_after(blocks, j, v, k);
            assert(wanted_after(blocks, i, v, k + 1));
        }
    }
    if live_out_at(blocks, i, v) {
        let k = choose|k: nat| #[trigger] wanted_after(blocks, i, v, k);
        if !feeds_phi(blocks, i, v) {
            let m = choose|m: int|
                0 <= m < blocks.len() && #[trigger] flows(blocks, i, m) && (block_uses(blocks[m], v) || (!block_defines(
                    blocks[m],
                    v,
                ) && wanted_after(blocks, m, v, (k - 1) as nat)));
            assert(flows(blocks, i, m) && live_in_at(blocks, m, v));
        }
    }
}

/// Control goes from a block to the one that starts where an edge of it leads.
pub proof fn control_goes_where_edges_lead(blocks: Seq<SsaBlock>, i: int, s: int, j: int)
    requires
        0 <= i < blocks.len(),
        0 <= s < blocks[i].successors@.len(),
        0 <= j < blocks.len(),
        blocks[j].start == blocks[i].successors@[s].to,
        forall|k: int| j < k < blocks.len() ==> (#[trigger] blocks[k]).start != blocks[j].start,
    ensures
        flows(blocks, i, j),
{
    lemma_block_at(blocks, blocks[j].start, j, blocks.len() as int);
    assert(block_at(blocks, blocks[i].successors@[s].to, blocks.len() as int) == Some(j));
}

proof fn lemma_block_at(blocks: Seq<SsaBlock>, va: Va, j: int, k: int)
    requires
        0 <= j < k <= blocks.len(),
        blocks[j].start == va,
        forall|m: int| j < m < k ==> (#[trigger] blocks[m]).start != va,
    ensures
        block_at(blocks, va, k) == Some(j),
    decreases k,
{
    if j < k - 1 {
        lemma_block_at(blocks, va, j, k - 1);
    }
}

/// The result of a phi and each of its inputs are of one class, the flags aside.
pub proof fn phis_join_their_versions(blocks: Seq<SsaBlock>, b: int, k: int, m: int)
    requires
        0 <= b < blocks.len(),
        0 <= k < blocks[b].phis@.len(),
        0 <= m < blocks[b].phis@[k].inputs@.len(),
        blocks[b].phis@[k].dst@.len() > 0,
        !flag_name(blocks[b].phis@[k].dst@),
        !flag_name(blocks[b].phis@[k].inputs@[m].value@),
    ensures
        web_rep(blocks, blocks[b].phis@[k].dst@) == web_rep(blocks, blocks[b].phis@[k].inputs@[m].value@),
{
    let pair = (blocks[b].phis@[k].dst@, blocks[b].phis@[k].inputs@[m].value@);
    let ps = web_pairs(blocks, blocks.len());
    let i = lemma_pair_listed(blocks, blocks.len(), b, k, m);
    lemma_pair_merged(ps, ps.len(), i);
}

proof fn lemma_phi_pair(p: Phi, n: nat, m: int) -> (i: int)
    requires
        0 <= m < n <= p.inputs@.len(),
        !flag_name(p.inputs@[m].value@),
    ensures
        0 <= i < phi_pairs(p, n).len(),
        phi_pairs(p, n)[i] == (p.dst@, p.inputs@[m].value@),
    decreases n,
{
    if m == n - 1 {
        phi_pairs(p, (n - 1) as nat).len() as int
    } else {
        lemma_phi_pair(p, (n - 1) as nat, m)
    }
}

proof fn lemma_block_pair(b: SsaBlock, n: nat, k: int, m: int) -> (i: int)
    requires
        0 <= k < n <= b.phis@.len(),
        web_phi(b.phis@[k]),
        0 <= m < b.phis@[k].inputs@.len(),
        !flag_name(b.phis@[k].inputs@[m].value@),
    ensures
        0 <= i < block_pairs(b, n).len(),
        block_pairs(b, n)[i] == (b.phis@[k].dst@, b.phis@[k].inputs@[m].value@),
    decreases n,
{
    if k == n - 1 {
        let j = lemma_phi_pair(b.phis@[k], b.phis@[k].inputs@.len(), m);
        block_pairs(b, (n - 1) as nat).len() + j
    } else {
        lemma_block_pair(b, (n - 1) as nat, k, m)
    }
}

proof fn lemma_pair_listed(blocks: Seq<SsaBlock>, n: nat, b: int, k: int, m: int) -> (i: int)
    requires
        0 <= b < n <= blocks.len(),
        0 <= k < blocks[b].phis@.len(),
        web_phi(blocks[b].phis@[k]),
        0 <= m < blocks[b].phis@[k].inputs@.len(),
        !flag_name(blocks[b].phis@[k].inputs@[m].value@),
    ensures
        0 <= i < web_pairs(blocks, n).len(),
        web_pairs(blocks, n)[i] == (blocks[b].phis@[k].dst@, blocks[b].phis@[k].inputs@[m].value@),
    decreases n,
{
    if b == n - 1 {
        let j = lemma_block_pair(blocks[b], blocks[b].phis@.len(), k, m);
        web_pairs(blocks, (n - 1) as nat).len() + j
    } else {
        lemma_pair_listed(blocks, (n - 1) as nat, b, k, m)
    }
}

proof fn lemma_pair_merged(pairs: Seq<(Seq<char>, Seq<char>)>, n: nat, i: int)
    requires
        0 <= i < n <= pairs.len(),
    ensures
        rep_after(pairs, n, pairs[i].0) == rep_after(pairs, n, pairs[i].1),
    decreases n,
{
    if i < n - 1 {
        lemma_pair_merged(pairs, (n - 1) as nat, i);
    }
}

/// A version that no phi joins is of a class of its own.
pub proof fn other_versions_stay_apart(pairs: Seq<(Seq<char>, Seq<char>)>, n: nat, x: Seq<char>)
    requires
        n <= pairs.len(),
        forall|i: int| 0 <= i < n ==> (#[trigger] pairs[i]).0 != x && pairs[i].1 != x,
    ensures
        rep_after(pairs, n, x) == x,
        forall|y: Seq<char>| y != x ==> #[trigger] rep_after(pairs, n, y) != x,
    decreases n,
{
    if n > 0 {
        other_versions_stay_apart(pairs, (n - 1) as nat, x);
        assert(pairs[n - 1].0 != x && pairs[n - 1].1 != x);
        assert(rep_after(pairs, (n - 1) as nat, pairs[n - 1].0) != x);
        assert forall|y: Seq<char>| y != x implies #[trigger] rep_after(pairs, n, y) != x by {
            assert(rep_after(pairs, (n - 1) as nat, y) != x);
            assert(rep_after(pairs, (n - 1) as nat, pairs[n - 1].1) != x);
        }
    }
}

/// An edge carries a copy for each input of a phi that comes along it and is shown under
/// another name than the phi's result: the result gets the input.
pub proof fn edges_carry_the_inputs_of_phis(
    blocks: Seq<SsaBlock>,
    names: Map<Seq<char>, Seq<char>>,
    f: int,
    t: int,
    n: nat,
    k: int,
    m: int,
)
    requires
        0 <= t < blocks.len(),
        0 <= k < n <= blocks[t].phis@.len(),
        blocks[t].phis@[k].dst@.len() > 0,
        0 <= m < blocks[t].phis@[k].inputs@.len(),
        block_with_id(blocks, blocks[t].phis@[k].inputs@[m].from_block, blocks.len() as int) == Some(f),
        shown(names, blocks[t].phis@[k].inputs@[m].value@) != shown(names, blocks[t].phis@[k].dst@),
    ensures
        edge_copies(blocks, names, f, t, n).contains((blocks[t].phis@[k].dst, blocks[t].phis@[k].inputs@[m].value)),
    decreases n,
{
    let pair = (blocks[t].phis@[k].dst, blocks[t].phis@[k].inputs@[m].value);
    let before = edge_copies(blocks, names, f, t, (n - 1) as nat);
    let now = edge_copies(blocks, names, f, t, n);
    if k == n - 1 {
        let phi = blocks[t].phis@[k];
        let more = phi_copies(blocks, names, f, t, k, phi.inputs@.len());
        lemma_phi_copy(blocks, names, f, t, k, phi.inputs@.len(), m);
        let i = choose|i: int| 0 <= i < more.len() && more[i] == pair;
        assert(now[before.len() + i] == pair);
    } else {
        edges_carry_the_inputs_of_phis(blocks, names, f, t, (n - 1) as nat, k, m);
        let i = choose|i: int| 0 <= i < before.len() && before[i] == pair;
        assert(now[i] == pair);
    }
}

proof fn lemma_phi_copy(
    blocks: Seq<SsaBlock>,
    names: Map<Seq<char>, Seq<char>>,
    f: int,
    t: int,
    k: int,
    n: nat,
    m: int,
)
    requires
        0 <= t < blocks.len(),
        0 <= k < blocks[t].phis@.len(),
        0 <= m < n <= blocks[t].phis@[k].inputs@.len(),
        block_with_id(blocks, blocks[t].phis@[k].inputs@[m].from_block, blocks.len() as int) == Some(f),
        shown(names, blocks[t].phis@[k].inputs@[m].value@) != shown(names, blocks[t].phis@[k].dst@),
    ensures
        phi_copies(blocks, names, f, t, k, n).contains((blocks[t].phis@[k].dst, blocks[t].phis@[k].inputs@[m].value)),
    decreases n,
{
    let pair = (blocks[t].phis@[k].dst, blocks[t].phis@[k].inputs@[m].value);
    let before = phi_copies(blocks, names, f, t, k, (n - 1) as nat);
    let now = phi_copies(blocks, names, f, t, k, n);
    if m == n - 1 {
        assert(now[before.len() as int] == pair);
    } else {
        lemma_phi_copy(blocks, names, f, t, k, (n - 1) as nat, m);
        let i = choose|i: int| 0 <= i < before.len() && before[i] == pair;
        assert(now[i] == pair);
    }
}

/// Copies go to the end of a block that goes one way; otherwise into a new block, to
/// which only the edges to the phi's block are sent, and which goes on there.
pub proof fn copies_go_onto_their_edge(st: Splitting, e: EdgePlan, i: int)
    requires
        0 <= e.from < st.ssa.len(),
        0 <= e.to < st.ssa.len(),
        st.cfg.len() >= st.ssa.len(),
        0 <= st.synth,
        SYNTHETIC_VA_BASE + st.synth <= u64::MAX,
        0 <= i < st.ssa.len(),
    ensures
        ({
            let r = place(st, e);
            let to = st.ssa[e.to].start;
            let one = one_target(st.cfg[e.from].successors);
            &&& i != e.from ==> r.ssa[i] == st.ssa[i]
            &&& one ==> r.ssa.len() == st.ssa.len() && r.cfg == st.cfg && r.ssa[e.from].stmts == st.ssa[e.from].stmts
                + copy_stmts(e.copies, to) && r.ssa[e.from].successors == st.ssa[e.from].successors
            &&& !one ==> r.ssa.len() == st.ssa.len() + 1 && r.ssa[e.from].stmts == st.ssa[e.from].stmts
                && r.ssa.last().stmts == copy_stmts(e.copies, to) && r.ssa.last().successors.len() == 1
                && r.ssa.last().successors[0].to == to && r.ssa.last().start.0 == 0xF000_0000_0000_0000 + st.synth
                && r.ssa.last().id == st.next_id && r.next_id == st.next_id + 1
            &&& !one ==> forall|k: int|
                0 <= k < st.ssa[e.from].successors.len() ==> (#[trigger] r.ssa[e.from].successors[k]).to == (
                if st.ssa[e.from].successors[k].to == to {
                    r.ssa.last().start
                } else {
                    st.ssa[e.from].successors[k].to
                }) && r.ssa[e.from].successors[k].kind == st.ssa[e.from].successors[k].kind
        }),
{
    let r = place(st, e);
    let to = st.ssa[e.to].start;
    if !one_target(st.cfg[e.from].successors) {
        let start = Va((SYNTHETIC_VA_BASE + st.synth) as u64);
        let old_edges = st.ssa[e.from].successors;
        assert(r.ssa[e.from].successors == redirected(old_edges, to, start));
        assert(r.ssa.last().start == start);
    }
}


/// A parameter is shown under its name when its register enters the function.
pub proof fn parameters_are_shown_under_their_name(params: Seq<ParamInfo>, k: nat)
    requires
        k < params.len(),
    ensures
        param_names(params, k + 1).contains_key(params[k as int].reg@ + ".0"@),
        param_names(params, k + 1)[params[k as int].reg@ + ".0"@] == params[k as int].name@,
        param_names(params, 0) == Map::<Seq<char>, Seq<char>>::empty(),
{
}

/// A statement makes live what it reads, and what is live behind it but for what it
/// defines; behind the last statement lives what the block's condition reads and what
/// lives at its end.
pub proof fn liveness_goes_through_statements(blocks: Seq<SsaBlock>, i: int, t: int, v: Seq<char>)
    requires
        0 <= i < blocks.len(),
        0 <= t < blocks[i].stmts@.len(),
    ensures
        live_before(blocks, i, t).contains(v) <==> uses_of(blocks[i].stmts@[t].stmt).contains(v) || (def_of(
            blocks[i].stmts@[t].stmt,
        ) != Some(v) && live_before(blocks, i, t + 1).contains(v)),
        live_before(blocks, i, blocks[i].stmts@.len() as int).contains(v) <==> live_out_at(blocks, i, v) || (
        blocks[i].condition matches Some(c) && vars_of(c).contains(v)),
{
}

/// Two versions interfere, in either order, where one is assigned while the other is
/// still read later; a version never interferes with itself.
pub proof fn versions_that_live_together_interfere(blocks: Seq<SsaBlock>, i: int, t: int, a: Seq<char>, b: Seq<char>)
    requires
        0 <= i < blocks.len(),
        0 <= t < blocks[i].stmts@.len(),
        def_of(blocks[i].stmts@[t].stmt) == Some(a),
        live_before(blocks, i, t + 1).contains(b),
        a != b,
    ensures
        interferes(blocks, a, b),
        interferes(blocks, b, a),
        !interferes(blocks, a, a),
{
    assert(clash_at_stmt(blocks, i, t, a, b));
    assert(clash_from(blocks, i, 0, a, b));
    assert(clash_in_block(blocks, i, a, b));
}

/// A join defines its result at the head of its block, where the other live versions
/// interfere with it.
pub proof fn joins_interfere_with_what_lives_at_their_head(blocks: Seq<SsaBlock>, i: int, a: Seq<char>, b: Seq<char>)
    requires
        0 <= i < blocks.len(),
        blocks[i].phis@.len() > 0,
        blocks[i].phis@[0].dst@ == a,
        a.len() > 0,
        a != b,
        live_before(blocks, i, 0).contains(b),
    ensures
        interferes(blocks, a, b),
        interferes(blocks, b, a),
{
    assert(live_at_phi(blocks, i, 0).contains(b));
    assert(clash_at_phi(blocks, i, 0, a, b));
    assert(clash_in_phis(blocks, i, blocks[i].phis@.len() as int, a, b));
    assert(clash_in_block(blocks, i, a, b));
}

/// New blocks are numbered behind all that there are.
pub proof fn new_numbers_are_free(blocks: Seq<SsaBlock>, k: nat, i: int)
    requires
        0 <= i < k <= blocks.len(),
    ensures
        blocks[i].id < next_block_id(blocks, k),
        next_block_id(blocks, k) >= 1,
        next_block_id(blocks, k) == 1 || exists|j: int| 0 <= j < k && next_block_id(blocks, k) == (#[trigger] blocks[j]).id + 1,
    decreases k,
{
    let n = (k - 1) as nat;
    if n > 0 {
        new_numbers_are_free(blocks, n, if i < n {
            i
        } else {
            0
        });
        if next_block_id(blocks, k) == next_block_id(blocks, n) && next_block_id(blocks, n) != 1 {
            let j = choose|j: int| 0 <= j < n && next_block_id(blocks, n) == (#[trigger] blocks[j]).id + 1;
            assert(0 <= j < k && next_block_id(blocks, k) == blocks[j].id + 1);
        }
    }
    assert(next_block_id(blocks, 0) == 1);
    if next_block_id(blocks, k) != next_block_id(blocks, n) {
        let j = k - 1;
        assert(0 <= j < k && next_block_id(blocks, k) == blocks[j].id + 1);
    }
}

/// A class with a parameter bears that parameter's name, and another one `v` and a
/// number from one on.
pub proof fn classes_are_named_after_parameters(
    blocks: Seq<SsaBlock>,
    params: Map<Seq<char>, Seq<char>>,
    r: Seq<char>,
    name: Seq<char>,
)
    requires
        class_named(blocks, params, r, name),
    ensures
        has_param(blocks, params, r) ==> exists|x: Seq<char>|
            #[trigger] in_class(blocks, r, x) && params.contains_key(x) && params[x] == name,
        !has_param(blocks, params, r) ==> exists|n: nat| n >= 1 && name == "v"@ + #[trigger] dec(n),
{
    if has_param(blocks, params, r) {
        let x = choose|x: Seq<char>| #[trigger] first_param(blocks, params, r, x) && name == params[x];
        assert(in_class(blocks, r, x));
    } else {
        let n = (1 + fresh_before(blocks, params, r).len()) as nat;
        assert(name == "v"@ + dec(n));
    }
}

} // verus!
