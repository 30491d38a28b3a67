//! Graphviz rendering of a control-flow graph. Edges whose target is a block
//! point from block to block; all others point to a node of their own, so that
//! the flow out of the function stays visible. The cases of a switch that lie
//! on no block are no edges of the graph, but they are drawn like those.

use vstd::prelude::*;
use vstd::string::StringExecFns;

use crate::arch::ResolvedSwitch;
use crate::ir::{CfgArtifact, CfgBlock, Successor};
use crate::sorted::{holds, lemma_map_at, SortKey, SortedMap};
use crate::text::{chars_of, dec, decimal};
use crate::va::Va;

verus! {

/// A rendered graph and a few counts.
#[derive(Clone, Debug, PartialEq, Eq)]
pub struct DotArtifact {
    pub start: Va,
    pub end: Va,
    pub block_count: usize,
    /// How many edges the blocks have.
    pub edge_count: usize,
    /// How many edges leave the blocks, those to the cases of a switch included.
    pub external_count: usize,
    /// The source of the graph.
    pub dot: String,
}

/// A label with its quotes and lone backslashes escaped. A backslash before an
/// `n` is a line break and stays.
pub open spec fn escaped(s: Seq<char>, k: int) -> Seq<char>
    decreases s.len() - k,
{
    if k < 0 || k >= s.len() {
        Seq::empty()
    } else if s[k] == '\\' {
        if k + 1 < s.len() && s[k + 1] == 'n' {
            seq!['\\', 'n'] + escaped(s, k + 2)
        } else {
            seq!['\\', '\\'] + escaped(s, k + 1)
        }
    } else if s[k] == '"' {
        seq!['\\', '"'] + escaped(s, k + 1)
    } else {
        seq![s[k]] + escaped(s, k + 1)
    }
}

/// Escapes a label.
pub fn escape_dot(s: &str) -> (r: String)
    ensures
        r@ == escaped(s@, 0),
{
    let v = chars_of(s);
    let mut out: String = String::new();
    let mut k: usize = 0;
    while k < v.len()
        invariant
            k <= v@.len(),
            out@ + escaped(v@, k as int) == escaped(v@, 0),
        decreases v@.len() - k,
    {
        let ghost out0 = out@;
        let ghost rest = escaped(v@, k as int);
        if v[k] == '\\' {
            if k + 1 < v.len() && v[k + 1] == 'n' {
                out.push('\\');
                out.push('n');
                k = k + 2;
            } else {
                out.push('\\');
                out.push('\\');
                k = k + 1;
            }
        } else if v[k] == '"' {
            out.push('\\');
            out.push('"');
            k = k + 1;
        } else {
            out.push(v[k]);
            k = k + 1;
        }
        assert(out@ + escaped(v@, k as int) =~= out0 + rest);
    }
    assert(out@ + Seq::<char>::empty() =~= out@);
    out
}

/// The number of the last of the first `k` blocks that starts at the address.
pub open spec fn block_id_at(blocks: Seq<CfgBlock>, va: Va, k: int) -> Option<int>
    decreases k,
{
    if k <= 0 {
        None
    } else if blocks[k - 1].start == va {
        Some(blocks[k - 1].id as int)
    } else {
        block_id_at(blocks, va, k - 1)
    }
}

fn find_block_id(blocks: &[CfgBlock], va: Va) -> (r: Option<usize>)
    ensures
        match (r, block_id_at(blocks@, va, blocks@.len() as int)) {
            (Some(a), Some(b)) => a == b,
            (None, None) => true,
            _ => false,
        },
{
    let mut k: usize = blocks.len();
    while k > 0
        invariant
            k <= blocks@.len(),
            block_id_at(blocks@, va, blocks@.len() as int) == block_id_at(blocks@, va, k as int),
        decreases k,
    {
        if blocks[k - 1].start.0 == va.0 {
            return Some(blocks[k - 1].id);
        }
        k = k - 1;
    }
    None
}

/// The line that declares a block.
pub open spec fn node_line(b: CfgBlock) -> Seq<char> {
    let label = "B"@ + dec(b.id as nat) + "\\n"@ + b.start.text() + ".."@ + b.end.text() + "\\n"@ + b.terminator@
        + " · "@ + dec(b.insns@.len()) + " insns"@;
    "  b"@ + dec(b.id as nat) + " [label=\""@ + escaped(label, 0) + "\"];\n"@
}

/// The lines that declare the first `k` blocks.
pub open spec fn node_lines(blocks: Seq<CfgBlock>, k: nat) -> Seq<char>
    decreases k,
{
    if k == 0 {
        Seq::empty()
    } else {
        node_lines(blocks, (k - 1) as nat) + node_line(blocks[k - 1])
    }
}

/// A confidence in hundredths as a decimal fraction.
pub open spec fn fraction(c: u32) -> Seq<char> {
    dec((c / 100) as nat) + "."@ + dec(((c % 100) / 10) as nat) + dec((c % 10) as nat)
}

/// What stands at an edge.
pub open spec fn edge_label(e: Successor) -> Seq<char> {
    escaped(e.kind@ + " (q="@ + fraction(e.confidence) + ")"@, 0)
}

/// An arrow out of a block: where it points, and what stands at it.
pub ghost struct Arrow {
    pub to: Va,
    pub label: Seq<char>,
}

/// The arrows for the edges of a block.
pub open spec fn edge_arrows(s: Seq<Successor>) -> Seq<Arrow> {
    s.map_values(|e: Successor| Arrow { to: e.to, label: edge_label(e) })
}

/// The switch is in the block.
pub open spec fn switch_in(s: ResolvedSwitch, b: CfgBlock) -> bool {
    b.start.0 <= s.at.0 < b.end.0
}

/// An edge of the block leads to the address.
pub open spec fn leads_to(b: CfgBlock, va: Va) -> bool {
    exists|k: int| 0 <= k < b.successors@.len() && (#[trigger] b.successors@[k]).to == va
}

/// The arrows from a block to those of the first `m` cases of a switch that lie on
/// no block and have no edge.
pub open spec fn case_arrows(blocks: Seq<CfgBlock>, b: CfgBlock, s: ResolvedSwitch, m: nat) -> Seq<Arrow>
    decreases m,
{
    if m == 0 {
        Seq::empty()
    } else {
        let before = case_arrows(blocks, b, s, (m - 1) as nat);
        let to = s.cases@[m - 1];
        if block_id_at(blocks, to, blocks.len() as int) is None && !leads_to(b, to) {
            before.push(Arrow { to, label: "switch-case"@ })
        } else {
            before
        }
    }
}

/// The arrows from a block to the cases outside of the first `n` switches.
pub open spec fn switch_arrows(blocks: Seq<CfgBlock>, b: CfgBlock, switches: Seq<ResolvedSwitch>, n: nat) -> Seq<Arrow>
    decreases n,
{
    if n == 0 {
        Seq::empty()
    } else {
        let before = switch_arrows(blocks, b, switches, (n - 1) as nat);
        let s = switches[n - 1];
        if switch_in(s, b) {
            before + case_arrows(blocks, b, s, s.cases@.len())
        } else {
            before
        }
    }
}

/// The arrows out of a block.
pub open spec fn arrows(blocks: Seq<CfgBlock>, switches: Seq<ResolvedSwitch>, b: CfgBlock) -> Seq<Arrow> {
    edge_arrows(b.successors@) + switch_arrows(blocks, b, switches, switches.len())
}

/// How many arrows point to no block.
pub open spec fn outside(blocks: Seq<CfgBlock>, a: Seq<Arrow>) -> nat
    decreases a.len(),
{
    if a.len() == 0 {
        0
    } else if block_id_at(blocks, a.last().to, blocks.len() as int) is None {
        outside(blocks, a.drop_last()) + 1
    } else {
        outside(blocks, a.drop_last())
    }
}

/// How many arrows out of the first `b` blocks point to no block.
pub open spec fn outside_total(blocks: Seq<CfgBlock>, switches: Seq<ResolvedSwitch>, b: nat) -> nat
    decreases b,
{
    if b == 0 {
        0
    } else {
        outside_total(blocks, switches, (b - 1) as nat) + outside(blocks, arrows(blocks, switches, blocks[b - 1]))
    }
}

/// The text so far, and the targets outside the blocks, numbered in the order in
/// which they are met.
pub ghost struct Drawing {
    pub out: Seq<char>,
    pub ext: Map<u64, int>,
}

/// The drawing with one more arrow.
pub open spec fn draw_arrow(blocks: Seq<CfgBlock>, d: Drawing, from: int, a: Arrow) -> Drawing {
    match block_id_at(blocks, a.to, blocks.len() as int) {
        Some(to) => Drawing {
            out: d.out + "  b"@ + dec(from as nat) + " -> b"@ + dec(to as nat) + " [label=\""@ + a.label + "\"];\n"@,
            ext: d.ext,
        },
        None => {
            let ext = if d.ext.contains_key(a.to.0) {
                d.ext
            } else {
                d.ext.insert(a.to.0, d.ext.len() as int)
            };
            Drawing {
                out: d.out + "  b"@ + dec(from as nat) + " -> ext"@ + dec(ext[a.to.0] as nat)
                    + " [style=dashed, label=\""@ + a.label + "\"];\n"@,
                ext,
            }
        },
    }
}

/// The drawing with arrows out of one block.
pub open spec fn draw_arrows(blocks: Seq<CfgBlock>, d: Drawing, from: int, a: Seq<Arrow>) -> Drawing
    decreases a.len(),
{
    if a.len() == 0 {
        d
    } else {
        draw_arrow(blocks, draw_arrows(blocks, d, from, a.drop_last()), from, a.last())
    }
}

/// The drawing with the arrows out of the first `b` blocks.
pub open spec fn draw_blocks(blocks: Seq<CfgBlock>, switches: Seq<ResolvedSwitch>, d: Drawing, b: nat) -> Drawing
    decreases b,
{
    if b == 0 {
        d
    } else {
        let before = draw_blocks(blocks, switches, d, (b - 1) as nat);
        draw_arrows(blocks, before, blocks[b - 1].id as int, arrows(blocks, switches, blocks[b - 1]))
    }
}

/// The lines that declare the targets of `keys`, which lie outside.
pub open spec fn ext_lines(keys: Seq<u64>, ext: Map<u64, int>, k: nat) -> Seq<char>
    decreases k,
{
    if k == 0 {
        Seq::empty()
    } else {
        let a = keys[k - 1];
        ext_lines(keys, ext, (k - 1) as nat) + "  ext"@ + dec(ext[a] as nat)
            + " [shape=oval, style=dashed, label=\""@ + escaped(Va(a).text(), 0) + "\"];\n"@
    }
}

/// `keys` lists the addresses of a map in ascending order.
pub open spec fn lists_keys(keys: Seq<u64>, m: Map<u64, int>) -> bool {
    &&& forall|i: int, j: int| 0 <= i < j < keys.len() ==> keys[i] < keys[j]
    &&& forall|a: u64| #[trigger] m.contains_key(a) <==> keys.contains(a)
}

/// The start of every graph.
pub open spec fn preamble() -> Seq<char> {
    "digraph n0xis_cfg {\n  rankdir=TB;\n  node [shape=box, fontname=\"Consolas\", fontsize=10];\n  edge [fontname=\"Consolas\", fontsize=9];\n"@
}

/// The drawing of all arrows of a graph.
pub open spec fn drawn(blocks: Seq<CfgBlock>, switches: Seq<ResolvedSwitch>) -> Drawing {
    draw_blocks(
        blocks,
        switches,
        Drawing { out: preamble() + node_lines(blocks, blocks.len()), ext: Map::empty() },
        blocks.len(),
    )
}

/// How many edges the first `b` blocks have.
pub open spec fn edge_total(blocks: Seq<CfgBlock>, b: nat) -> nat
    decreases b,
{
    if b == 0 {
        0
    } else {
        edge_total(blocks, (b - 1) as nat) + blocks[b - 1].successors@.len()
    }
}

/// The numbers of the outside targets as a map.
spec fn numbers(m: SortedMap<u64, usize>) -> Map<u64, int> {
    m.map().map_values(|n: usize| n as int)
}

fn put(s: &mut String, n: usize)
    ensures
        final(s)@ == old(s)@ + dec(n as nat),
{
    s.append(decimal(n as u64).as_str());
}

fn edge_label_text(e: &Successor) -> (s: String)
    ensures
        s@ == edge_label(*e),
{
    let mut s = e.kind.clone();
    s.append(" (q=");
    let mut q: String = decimal((e.confidence / 100) as u64);
    q.append(".");
    q.append(decimal(((e.confidence % 100) / 10) as u64).as_str());
    q.append(decimal((e.confidence % 10) as u64).as_str());
    s.append(q.as_str());
    s.append(")");
    escape_dot(s.as_str())
}

/// The number of entries of a sorted map is the size of the map it stands for.
proof fn lemma_numbers_len(m: SortedMap<u64, usize>)
    requires
        m.wf(),
    ensures
        numbers(m).len() == m.keys@.len(),
{
    let set = crate::sorted::SortedSet { items: m.keys };
    crate::sorted::lemma_set_len(&set);
    assert(numbers(m).dom() =~= set.set());
}

/// What has been drawn: the text, the numbers of the outside targets, and how many
/// arrows point to those.
struct Canvas {
    out: String,
    ext: SortedMap<u64, usize>,
    outside: usize,
}

impl Canvas {
    /// The canvas holds a drawing with `n` arrows to the outside.
    spec fn shows(self, d: Drawing, n: nat) -> bool {
        &&& self.ext.wf()
        &&& self.out@ == d.out
        &&& numbers(self.ext) == d.ext
        &&& self.outside == n
    }

    fn arrow(
        &mut self,
        blocks: &[CfgBlock],
        from: usize,
        to: Va,
        label: &str,
        d: Ghost<Drawing>,
        a: Ghost<Seq<Arrow>>,
        n: Ghost<nat>,
    )
        requires
            old(self).shows(draw_arrows(blocks@, d@, from as int, a@), n@ + outside(blocks@, a@)),
            n@ + outside(blocks@, a@.push(Arrow { to, label: label@ })) <= usize::MAX,
        ensures
            final(self).shows(
                draw_arrows(blocks@, d@, from as int, a@.push(Arrow { to, label: label@ })),
                n@ + outside(blocks@, a@.push(Arrow { to, label: label@ })),
            ),
    {
        let ghost d0 = draw_arrows(blocks@, d@, from as int, a@);
        let ghost b = a@.push(Arrow { to, label: label@ });
        proof {
            assert(b.drop_last() =~= a@);
            assert(b.last() == Arrow { to, label: label@ });
        }
        self.out.append("  b");
        put(&mut self.out, from);
        match find_block_id(blocks, to) {
            Some(id) => {
                self.out.append(" -> b");
                put(&mut self.out, id);
                self.out.append(" [label=\"");
            },
            None => {
                let ghost ext0 = self.ext;
                let known: Option<usize> = match self.ext.get(&to.0) {
                    Some(n) => Some(*n),
                    None => None,
                };
                let number: usize = match known {
                    Some(n) => n,
                    None => {
                        let n: usize = self.ext.keys.len();
                        proof {
                            lemma_numbers_len(ext0);
                        }
                        self.ext.insert(to.0, n);
                        proof {
                            assert(numbers(self.ext) =~= numbers(ext0).insert(to.0, n as int));
                        }
                        n
                    },
                };
                self.out.append(" -> ext");
                put(&mut self.out, number);
                self.out.append(" [style=dashed, label=\"");
                self.outside = self.outside + 1;
            },
        }
        self.out.append(label);
        self.out.append("\"];\n");
        proof {
            assert(self.out@ == draw_arrow(blocks@, d0, from as int, b.last()).out);
            assert(numbers(self.ext) == draw_arrow(blocks@, d0, from as int, b.last()).ext);
        }
    }

    /// Draws the arrows of a block.
    fn block(&mut self, blocks: &[CfgBlock], switches: &[ResolvedSwitch], b: &CfgBlock, d: Ghost<Drawing>, n: Ghost<nat>)
        requires
            old(self).shows(d@, n@),
            n@ + outside(blocks@, arrows(blocks@, switches@, *b)) <= usize::MAX,
        ensures
            final(self).shows(
                draw_arrows(blocks@, d@, b.id as int, arrows(blocks@, switches@, *b)),
                n@ + outside(blocks@, arrows(blocks@, switches@, *b)),
            ),
    {
        let ghost all = arrows(blocks@, switches@, *b);
        let ghost first = edge_arrows(b.successors@);
        let mut e: usize = 0;
        while e < b.successors.len()
            invariant
                e <= b.successors@.len(),
                all == arrows(blocks@, switches@, *b),
                first == edge_arrows(b.successors@),
                n@ + outside(blocks@, all) <= usize::MAX,
                self.shows(draw_arrows(blocks@, d@, b.id as int, first.take(e as int)), n@ + outside(blocks@, first.take(e as int))),
            decreases b.successors@.len() - e,
        {
            let x = &b.successors[e];
            let label = edge_label_text(x);
            proof {
                assert(first.take(e as int).push(Arrow { to: x.to, label: label@ }) =~= first.take(e + 1));
                assert(first.take(e + 1) =~= all.take(e + 1));
                lemma_outside_grows(blocks@, all, e + 1);
            }
            self.arrow(blocks, b.id, x.to, label.as_str(), d, Ghost(first.take(e as int)), n);
            e = e + 1;
        }
        proof {
            assert(first.take(first.len() as int) =~= first);
            assert(first + switch_arrows(blocks@, *b, switches@, 0) =~= first);
        }
        let mut i: usize = 0;
        while i < switches.len()
            invariant
                i <= switches@.len(),
                all == arrows(blocks@, switches@, *b),
                first == edge_arrows(b.successors@),
                n@ + outside(blocks@, all) <= usize::MAX,
                self.shows(
                    draw_arrows(blocks@, d@, b.id as int, first + switch_arrows(blocks@, *b, switches@, i as nat)),
                    n@ + outside(blocks@, first + switch_arrows(blocks@, *b, switches@, i as nat)),
                ),
            decreases switches@.len() - i,
        {
            let s = &switches[i];
            if b.start.0 <= s.at.0 && s.at.0 < b.end.0 {
                let ghost before = first + switch_arrows(blocks@, *b, switches@, i as nat);
                let mut m: usize = 0;
                assert(before + case_arrows(blocks@, *b, *s, 0) =~= before);
                while m < s.cases.len()
                    invariant
                        m <= s.cases@.len(),
                        i < switches@.len(),
                        *s == switches@[i as int],
                        switch_in(*s, *b),
                        all == arrows(blocks@, switches@, *b),
                        first == edge_arrows(b.successors@),
                        before == first + switch_arrows(blocks@, *b, switches@, i as nat),
                        n@ + outside(blocks@, all) <= usize::MAX,
                        self.shows(
                            draw_arrows(blocks@, d@, b.id as int, before + case_arrows(blocks@, *b, *s, m as nat)),
                            n@ + outside(blocks@, before + case_arrows(blocks@, *b, *s, m as nat)),
                        ),
                    decreases s.cases@.len() - m,
                {
                    let to: Va = s.cases[m];
                    if find_block_id(blocks, to).is_none() && !has_edge(b, to) {
                        let ghost done = before + case_arrows(blocks@, *b, *s, m as nat);
                        let ghost next = before + case_arrows(blocks@, *b, *s, (m + 1) as nat);
                        proof {
                            assert(done.push(Arrow { to, label: "switch-case"@ }) =~= next);
                            lemma_cases_prefix(blocks@, *b, *s, (m + 1) as nat, s.cases@.len());
                            lemma_switches_prefix(blocks@, *b, switches@, (i + 1) as nat, switches@.len());
                            let rest = switch_arrows(blocks@, *b, switches@, switches@.len());
                            let now = switch_arrows(blocks@, *b, switches@, (i + 1) as nat);
                            let k = next.len() - first.len();
                            assert(now.take(k) =~= switch_arrows(blocks@, *b, switches@, i as nat) + case_arrows(
                                blocks@,
                                *b,
                                *s,
                                s.cases@.len(),
                            ).take(case_arrows(blocks@, *b, *s, (m + 1) as nat).len() as int));
                            assert(rest.take(now.len() as int).take(k) =~= rest.take(k));
                            assert(all.take(next.len() as int) =~= first + rest.take(k));
                            assert(next =~= all.take(next.len() as int));
                            lemma_outside_grows(blocks@, all, next.len() as int);
                        }
                        self.arrow(blocks, b.id, to, "switch-case", d, Ghost(done), n);
                    }
                    m = m + 1;
                }
                proof {
                    assert(before + case_arrows(blocks@, *b, *s, s.cases@.len()) =~= first + switch_arrows(
                        blocks@,
                        *b,
                        switches@,
                        (i + 1) as nat,
                    ));
                }
            }
            i = i + 1;
        }
    }
}

fn has_edge(b: &CfgBlock, va: Va) -> (r: bool)
    ensures
        r == leads_to(*b, va),
{
    let mut k: usize = 0;
    while k < b.successors.len()
        invariant
            k <= b.successors@.len(),
            forall|j: int| 0 <= j < k ==> (#[trigger] b.successors@[j]).to != va,
        decreases b.successors@.len() - k,
    {
        if b.successors[k].to.0 == va.0 {
            assert(b.successors@[k as int].to == va);
            return true;
        }
        k = k + 1;
    }
    false
}

/// The first arrows point to the outside at most as often as all.
proof fn lemma_outside_grows(blocks: Seq<CfgBlock>, a: Seq<Arrow>, k: int)
    requires
        0 <= k <= a.len(),
    ensures
        outside(blocks, a.take(k)) <= outside(blocks, a),
    decreases a.len(),
{
    if k < a.len() {
        lemma_outside_grows(blocks, a.drop_last(), k);
        assert(a.drop_last().take(k) =~= a.take(k));
    } else {
        assert(a.take(k) =~= a);
    }
}

proof fn lemma_cases_prefix(blocks: Seq<CfgBlock>, b: CfgBlock, s: ResolvedSwitch, m: nat, n: nat)
    requires
        m <= n,
    ensures
        case_arrows(blocks, b, s, m).len() <= case_arrows(blocks, b, s, n).len(),
        case_arrows(blocks, b, s, n).take(case_arrows(blocks, b, s, m).len() as int) == case_arrows(blocks, b, s, m),
    decreases n,
{
    if m < n {
        lemma_cases_prefix(blocks, b, s, m, (n - 1) as nat);
        let k = case_arrows(blocks, b, s, m).len() as int;
        assert(case_arrows(blocks, b, s, n).take(k) =~= case_arrows(blocks, b, s, (n - 1) as nat).take(k));
    } else {
        assert(case_arrows(blocks, b, s, n).take(case_arrows(blocks, b, s, m).len() as int) =~= case_arrows(blocks, b, s, m));
    }
}

proof fn lemma_switches_prefix(blocks: Seq<CfgBlock>, b: CfgBlock, switches: Seq<ResolvedSwitch>, m: nat, n: nat)
    requires
        m <= n,
    ensures
        switch_arrows(blocks, b, switches, m).len() <= switch_arrows(blocks, b, switches, n).len(),
        switch_arrows(blocks, b, switches, n).take(switch_arrows(blocks, b, switches, m).len() as int) == switch_arrows(
            blocks,
            b,
            switches,
            m,
        ),
    decreases n,
{
    let k = switch_arrows(blocks, b, switches, m).len() as int;
    if m < n {
        lemma_switches_prefix(blocks, b, switches, m, (n - 1) as nat);
        assert(switch_arrows(blocks, b, switches, n).take(k) =~= switch_arrows(blocks, b, switches, (n - 1) as nat).take(k));
    } else {
        assert(switch_arrows(blocks, b, switches, n).take(k) =~= switch_arrows(blocks, b, switches, m));
    }
}

/// Renders a graph.
pub fn dot(art: &CfgArtifact) -> (r: DotArtifact)
    requires
        edge_total(art.blocks@, art.blocks@.len()) <= usize::MAX,
        outside_total(art.blocks@, art.switches@, art.blocks@.len()) <= usize::MAX,
    ensures
        r.start == art.start,
        r.end == art.end,
        r.block_count == art.block_count,
        r.edge_count == edge_total(art.blocks@, art.blocks@.len()),
        r.external_count == outside_total(art.blocks@, art.switches@, art.blocks@.len()),
        exists|keys: Seq<u64>| #[trigger]
            lists_keys(keys, drawn(art.blocks@, art.switches@).ext) && r.dot@ == drawn(art.blocks@, art.switches@).out + ext_lines(
                keys,
                drawn(art.blocks@, art.switches@).ext,
                keys.len(),
            ) + "}\n"@,
{
    let blocks = art.blocks.as_slice();
    let mut out: String = String::from_str(
        "digraph n0xis_cfg {\n  rankdir=TB;\n  node [shape=box, fontname=\"Consolas\", fontsize=10];\n  edge [fontname=\"Consolas\", fontsize=9];\n",
    );
    let mut k: usize = 0;
    assert(out@ + node_lines(blocks@, 0) =~= out@);
    while k < blocks.len()
        invariant
            k <= blocks@.len(),
            out@ == preamble() + node_lines(blocks@, k as nat),
        decreases blocks@.len() - k,
    {
        let b = &blocks[k];
        let ghost out0 = out@;
        let mut label: String = String::from_str("B");
        put(&mut label, b.id);
        label.append("\\n");
        label.append(b.start.to_text().as_str());
        label.append("..");
        label.append(b.end.to_text().as_str());
        label.append("\\n");
        label.append(b.terminator.as_str());
        label.append(" · ");
        put(&mut label, b.insns.len());
        label.append(" insns");
        let mut line: String = String::from_str("  b");
        put(&mut line, b.id);
        line.append(" [label=\"");
        line.append(escape_dot(label.as_str()).as_str());
        line.append("\"];\n");
        assert(line@ == node_line(*b));
        out.append(line.as_str());
        k = k + 1;
        assert(out@ =~= preamble() + node_lines(blocks@, k as nat));
    }
    let ghost start = Drawing { out: out@, ext: Map::<u64, int>::empty() };
    let switches = art.switches.as_slice();
    let mut canvas = Canvas { out, ext: SortedMap::new(), outside: 0 };
    assert(numbers(canvas.ext) =~= Map::<u64, int>::empty());
    let mut edge_count: usize = 0;
    let mut b: usize = 0;
    while b < blocks.len()
        invariant
            b <= blocks@.len(),
            edge_total(blocks@, blocks@.len()) <= usize::MAX,
            outside_total(blocks@, switches@, blocks@.len()) <= usize::MAX,
            edge_count == edge_total(blocks@, b as nat),
            canvas.shows(draw_blocks(blocks@, switches@, start, b as nat), outside_total(blocks@, switches@, b as nat)),
        decreases blocks@.len() - b,
    {
        let blk = &blocks[b];
        proof {
            lemma_total_grows(blocks@, (b + 1) as nat, blocks@.len());
            lemma_outside_total_grows(blocks@, switches@, (b + 1) as nat, blocks@.len());
        }
        canvas.block(
            blocks,
            switches,
            blk,
            Ghost(draw_blocks(blocks@, switches@, start, b as nat)),
            Ghost(outside_total(blocks@, switches@, b as nat)),
        );
        edge_count = edge_count + blk.successors.len();
        b = b + 1;
    }
    let external_count: usize = canvas.outside;
    let ext = canvas.ext;
    let mut out: String = canvas.out;
    let ghost all = drawn(art.blocks@, art.switches@);
    let ghost keys = ext.keys@;
    proof {
        assert(lists_keys(keys, all.ext)) by {
            assert forall|a: u64| #[trigger] all.ext.contains_key(a) <==> keys.contains(a) by {
                assert(ext.map().contains_key(a) <==> holds(keys, a));
                if holds(keys, a) {
                    let i = choose|i: int| 0 <= i < keys.len() && (#[trigger] keys[i]).model() == a;
                    assert(keys[i] == a);
                }
                if keys.contains(a) {
                    let i = choose|i: int| 0 <= i < keys.len() && keys[i] == a;
                    assert(keys[i].model() == a);
                }
            }
            assert forall|i: int, j: int| 0 <= i < j < keys.len() implies keys[i] < keys[j] by {
                assert(u64::before(keys[i].model(), keys[j].model()));
            }
        }
    }
    let mut m: usize = 0;
    assert(out@ + ext_lines(keys, all.ext, 0) =~= out@);
    while m < ext.keys.len()
        invariant
            m <= ext.keys@.len(),
            ext.wf(),
            keys == ext.keys@,
            numbers(ext) == all.ext,
            out@ == all.out + ext_lines(keys, all.ext, m as nat),
        decreases ext.keys@.len() - m,
    {
        let a: u64 = ext.keys[m];
        proof {
            lemma_map_at(&ext, m as int);
            assert(all.ext[a] == ext.vals@[m as int]);
        }
        out.append("  ext");
        put(&mut out, ext.vals[m]);
        out.append(" [shape=oval, style=dashed, label=\"");
        out.append(escape_dot(Va(a).to_text().as_str()).as_str());
        out.append("\"];\n");
        m = m + 1;
        assert(out@ =~= all.out + ext_lines(keys, all.ext, m as nat));
    }
    out.append("}\n");
    proof {
        assert(lists_keys(keys, drawn(art.blocks@, art.switches@).ext));
    }
    DotArtifact {
        start: art.start,
        end: art.end,
        block_count: art.block_count,
        edge_count,
        external_count,
        dot: out,
    }
}

proof fn lemma_total_grows(blocks: Seq<CfgBlock>, a: nat, b: nat)
    requires
        a <= b,
    ensures
        edge_total(blocks, a) <= edge_total(blocks, b),
    decreases b,
{
    if a < b {
        lemma_total_grows(blocks, a, (b - 1) as nat);
    }
}

proof fn lemma_outside_total_grows(blocks: Seq<CfgBlock>, switches: Seq<ResolvedSwitch>, a: nat, b: nat)
    requires
        a <= b,
    ensures
        outside_total(blocks, switches, a) <= outside_total(blocks, switches, b),
    decreases b,
{
    if a < b {
        lemma_outside_total_grows(blocks, switches, a, (b - 1) as nat);
    }
}

// ---------------------------------------------------------------------------
// What the drawing shows
// ---------------------------------------------------------------------------

/// In a label a quote stands behind a backslash, and so does a backslash that starts no
/// line break; all else stands for itself.
pub proof fn labels_are_escaped(s: Seq<char>, k: int)
    requires
        0 <= k < s.len(),
    ensures
        s[k] == '"' ==> escaped(s, k) == seq!['\\', '"'] + escaped(s, k + 1),
        s[k] != '"' && s[k] != '\\' ==> escaped(s, k) == seq![s[k]] + escaped(s, k + 1),
        s[k] == '\\' && k + 1 < s.len() && s[k + 1] == 'n' ==> escaped(s, k) == seq!['\\', 'n'] + escaped(s, k + 2),
        s[k] == '\\' && !(k + 1 < s.len() && s[k + 1] == 'n') ==> escaped(s, k) == seq!['\\', '\\'] + escaped(s, k + 1),
        escaped(s, s.len() as int) == Seq::<char>::empty(),
{
}

/// A block is drawn under its number, with its range, how it ends and the number of its
/// instructions.
pub proof fn blocks_are_drawn_with_their_range(b: CfgBlock)
    ensures
        node_line(b) == "  b"@ + dec(b.id as nat) + " [label=\""@ + escaped(
            "B"@ + dec(b.id as nat) + "\\n"@ + ("0x"@ + crate::text::hex(b.start.0 as nat)) + ".."@ + ("0x"@ + crate::text::hex(
                b.end.0 as nat,
            )) + "\\n"@ + b.terminator@ + " · "@ + dec(b.insns@.len()) + " insns"@,
            0,
        ) + "\"];\n"@,
{
}

/// An arrow goes from its block to the block that starts at its target; where none does,
/// it goes, dashed, to a node of its own for the address.
pub proof fn arrows_go_from_their_block_to_their_target(blocks: Seq<CfgBlock>, d: Drawing, from: int, a: Arrow, to: int)
    ensures
        block_id_at(blocks, a.to, blocks.len() as int) == Some(to) ==> draw_arrow(blocks, d, from, a).out == d.out + "  b"@
            + dec(from as nat) + " -> b"@ + dec(to as nat) + " [label=\""@ + a.label + "\"];\n"@ && draw_arrow(
            blocks,
            d,
            from,
            a,
        ).ext == d.ext,
        block_id_at(blocks, a.to, blocks.len() as int) is None && d.ext.contains_key(a.to.0) ==> draw_arrow(
            blocks,
            d,
            from,
            a,
        ).out == d.out + "  b"@ + dec(from as nat) + " -> ext"@ + dec(d.ext[a.to.0] as nat) + " [style=dashed, label=\""@
            + a.label + "\"];\n"@ && draw_arrow(blocks, d, from, a).ext == d.ext,
        block_id_at(blocks, a.to, blocks.len() as int) is None && !d.ext.contains_key(a.to.0) ==> draw_arrow(
            blocks,
            d,
            from,
            a,
        ).out == d.out + "  b"@ + dec(from as nat) + " -> ext"@ + dec(d.ext.len()) + " [style=dashed, label=\""@ + a.label
            + "\"];\n"@ && draw_arrow(blocks, d, from, a).ext.contains_key(a.to.0) && draw_arrow(blocks, d, from, a).ext[a.to.0]
            == d.ext.len(),
{
}

/// The number for an address is that of the last block that starts there.
pub proof fn targets_are_found_by_their_start(blocks: Seq<CfgBlock>, i: int, k: int)
    requires
        0 <= i < k <= blocks.len(),
        forall|j: int| i < j < k ==> (#[trigger] blocks[j]).start != blocks[i].start,
    ensures
        block_id_at(blocks, blocks[i].start, k) == Some(blocks[i].id as int),
    decreases k,
{
    if i < k - 1 {
        targets_are_found_by_their_start(blocks, i, k - 1);
    }
}

/// A block has an arrow for each of its edges, in order, with the edge's kind and its
/// confidence; then come those of its switches' cases that lie outside.
pub proof fn blocks_have_an_arrow_for_each_edge(blocks: Seq<CfgBlock>, switches: Seq<ResolvedSwitch>, b: CfgBlock, i: int)
    requires
        0 <= i < b.successors@.len(),
    ensures
        arrows(blocks, switches, b).len() >= b.successors@.len(),
        arrows(blocks, switches, b)[i].to == b.successors@[i].to,
        arrows(blocks, switches, b)[i].label == escaped(
            b.successors@[i].kind@ + " (q="@ + fraction(b.successors@[i].confidence) + ")"@,
            0,
        ),
{
}

/// A confidence is shown with two decimals.
pub proof fn confidences_are_shown_in_hundredths(c: u32)
    requires
        c <= 100,
    ensures
        c == 100 ==> fraction(c) == dec(1) + "."@ + dec(0) + dec(0),
        c < 100 ==> fraction(c) == dec(0) + "."@ + dec((c / 10) as nat) + dec((c % 10) as nat),
{
}

/// A case of a switch in a block is drawn where it lies on no block and no edge of the
/// block leads there.
pub proof fn cases_outside_are_drawn(blocks: Seq<CfgBlock>, b: CfgBlock, s: ResolvedSwitch, m: nat)
    requires
        m < s.cases@.len(),
    ensures
        ({
            let before = case_arrows(blocks, b, s, m);
            let now = case_arrows(blocks, b, s, m + 1);
            let to = s.cases@[m as int];
            let out = block_id_at(blocks, to, blocks.len() as int) is None && !(exists|k: int|
                0 <= k < b.successors@.len() && (#[trigger] b.successors@[k]).to == to);
            &&& out ==> now.len() == before.len() + 1 && now.last().to == to && now.last().label == "switch-case"@
                && now.drop_last() == before
            &&& !out ==> now == before
        }),
{
    let before = case_arrows(blocks, b, s, m);
    let to = s.cases@[m as int];
    assert(before.push(Arrow { to, label: "switch-case"@ }).drop_last() =~= before);
}

/// The arrows of one more block are drawn behind those before, from its own number; and a
/// graph starts with its blocks.
pub proof fn every_block_is_drawn_with_its_arrows(
    blocks: Seq<CfgBlock>,
    switches: Seq<ResolvedSwitch>,
    d: Drawing,
    b: nat,
)
    requires
        b < blocks.len(),
    ensures
        draw_blocks(blocks, switches, d, 0) == d,
        draw_blocks(blocks, switches, d, b + 1) == draw_arrows(
            blocks,
            draw_blocks(blocks, switches, d, b),
            blocks[b as int].id as int,
            arrows(blocks, switches, blocks[b as int]),
        ),
{
}

/// Arrows are drawn one after another, and an arrow never takes anything back.
pub proof fn drawings_only_grow(blocks: Seq<CfgBlock>, d: Drawing, from: int, a: Seq<Arrow>, x: Arrow)
    ensures
        draw_arrows(blocks, d, from, a.push(x)) == draw_arrow(blocks, draw_arrows(blocks, d, from, a), from, x),
        draw_arrow(blocks, d, from, x).out.len() >= d.out.len(),
        draw_arrow(blocks, d, from, x).out.take(d.out.len() as int) == d.out,
{
    assert(a.push(x).drop_last() =~= a);
    match block_id_at(blocks, x.to, blocks.len() as int) {
        Some(to) => {
            let rest = "  b"@ + dec(from as nat) + " -> b"@ + dec(to as nat) + " [label=\""@ + x.label + "\"];\n"@;
            assert(draw_arrow(blocks, d, from, x).out =~= d.out + rest);
        },
        None => {
            let ext = if d.ext.contains_key(x.to.0) {
                d.ext
            } else {
                d.ext.insert(x.to.0, d.ext.len() as int)
            };
            let rest = "  b"@ + dec(from as nat) + " -> ext"@ + dec(ext[x.to.0] as nat) + " [style=dashed, label=\""@
                + x.label + "\"];\n"@;
            assert(draw_arrow(blocks, d, from, x).out =~= d.out + rest);
        },
    }
}

/// Each block has a line of its own, in order.
pub proof fn blocks_are_declared_in_order(blocks: Seq<CfgBlock>, k: nat)
    requires
        k < blocks.len(),
    ensures
        node_lines(blocks, k + 1) == node_lines(blocks, k) + node_line(blocks[k as int]),
        node_lines(blocks, 0).len() == 0,
{
}

/// A target outside is declared with its number and its address.
pub proof fn targets_outside_are_declared(keys: Seq<u64>, ext: Map<u64, int>, k: nat)
    requires
        k < keys.len(),
    ensures
        ext_lines(keys, ext, k + 1) == ext_lines(keys, ext, k) + ("  ext"@ + dec(ext[keys[k as int]] as nat)
            + " [shape=oval, style=dashed, label=\""@ + escaped("0x"@ + crate::text::hex(keys[k as int] as nat), 0)
            + "\"];\n"@),
{
    let a = keys[k as int];
    let rest = "  ext"@ + dec(ext[a] as nat) + " [shape=oval, style=dashed, label=\""@ + escaped(Va(a).text(), 0) + "\"];\n"@;
    assert(ext_lines(keys, ext, k + 1) =~= ext_lines(keys, ext, k) + rest);
}

/// An arrow that leads to no block counts as one to the outside, and another does not.
pub proof fn arrows_outside_are_counted(blocks: Seq<CfgBlock>, a: Seq<Arrow>, x: Arrow)
    ensures
        outside(blocks, Seq::empty()) == 0,
        block_id_at(blocks, x.to, blocks.len() as int) is None ==> outside(blocks, a.push(x)) == outside(blocks, a) + 1,
        block_id_at(blocks, x.to, blocks.len() as int) is Some ==> outside(blocks, a.push(x)) == outside(blocks, a),
{
    assert(a.push(x).drop_last() =~= a);
}

/// All edges of all blocks are counted.
pub proof fn edges_are_counted(blocks: Seq<CfgBlock>, b: nat)
    requires
        b < blocks.len(),
    ensures
        edge_total(blocks, b + 1) == edge_total(blocks, b) + blocks[b as int].successors@.len(),
        edge_total(blocks, 0) == 0,
{
}

} // verus!
