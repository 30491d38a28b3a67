//! What changed between two texts, line by line.

use vstd::prelude::*;

use crate::ctx::Ctx;
use crate::ir::text_list;
use crate::source::CoreError;
use crate::text::same;

verus! {

/// Beyond this product of the two lengths, the whole text is replaced.
pub const MAX_LCS_CELLS: usize = 2_000_000;

#[derive(Clone, Copy, Debug, PartialEq, Eq, Structural)]
pub enum DiffOp {
    Equal,
    Insert,
    Delete,
}

/// A line that stayed, came or went.
#[derive(Clone, Debug, PartialEq, Eq)]
pub struct DiffHunk {
    pub op: DiffOp,
    /// The number of the line in the first text, from one on.
    pub a_line: Option<usize>,
    /// The number of the line in the second text, from one on.
    pub b_line: Option<usize>,
    pub text: String,
}

/// What changed. The similarity of the two texts is `equal` over `denom`.
#[derive(Clone, Debug, PartialEq, Eq)]
pub struct DiffArtifact {
    pub hunks: Vec<DiffHunk>,
    pub equal: usize,
    pub inserted: usize,
    pub deleted: usize,
    /// The number of lines of the longer text, and at least one.
    pub denom: usize,
}

/// The two texts.
#[derive(Debug, Default, PartialEq, Eq)]
pub struct DiffInput {
    pub a: Vec<String>,
    pub b: Vec<String>,
}

/// A hunk, by contents.
pub ghost struct HunkNode {
    pub op: DiffOp,
    pub a_line: Option<usize>,
    pub b_line: Option<usize>,
    pub text: Seq<char>,
}

pub open spec fn hunk_node(h: DiffHunk) -> HunkNode {
    HunkNode { op: h.op, a_line: h.a_line, b_line: h.b_line, text: h.text@ }
}

pub open spec fn hunk_nodes(v: Seq<DiffHunk>) -> Seq<HunkNode> {
    v.map_values(|h: DiffHunk| hunk_node(h))
}

/// Line `i` of the first text went.
pub open spec fn gone(a: Seq<Seq<char>>, i: int) -> HunkNode {
    HunkNode { op: DiffOp::Delete, a_line: Some((i + 1) as usize), b_line: None, text: a[i] }
}

/// Line `j` of the second text came.
pub open spec fn come(b: Seq<Seq<char>>, j: int) -> HunkNode {
    HunkNode { op: DiffOp::Insert, a_line: None, b_line: Some((j + 1) as usize), text: b[j] }
}

/// Line `i` of the first text stayed, as line `j` of the second.
pub open spec fn stayed(a: Seq<Seq<char>>, i: int, j: int) -> HunkNode {
    HunkNode { op: DiffOp::Equal, a_line: Some((i + 1) as usize), b_line: Some((j + 1) as usize), text: a[i] }
}

/// The first text goes from line `i` on.
pub open spec fn all_gone(a: Seq<Seq<char>>, i: int) -> Seq<HunkNode>
    decreases a.len() - i,
{
    if i < 0 || i >= a.len() {
        Seq::empty()
    } else {
        seq![gone(a, i)] + all_gone(a, i + 1)
    }
}

/// The second text comes from line `j` on.
pub open spec fn all_come(b: Seq<Seq<char>>, j: int) -> Seq<HunkNode>
    decreases b.len() - j,
{
    if j < 0 || j >= b.len() {
        Seq::empty()
    } else {
        seq![come(b, j)] + all_come(b, j + 1)
    }
}

/// The length of the longest sequence of lines that both texts hold in this
/// order, from lines `i` and `j` on.
pub open spec fn lcs(a: Seq<Seq<char>>, b: Seq<Seq<char>>, i: int, j: int) -> nat
    decreases a.len() - i + b.len() - j,
{
    if i < 0 || j < 0 || i >= a.len() || j >= b.len() {
        0
    } else if a[i] == b[j] {
        lcs(a, b, i + 1, j + 1) + 1
    } else {
        let down = lcs(a, b, i + 1, j);
        let right = lcs(a, b, i, j + 1);
        if down >= right {
            down
        } else {
            right
        }
    }
}

/// What changed from lines `i` and `j` on: equal lines stay, and of two unequal
/// ones that goes or comes whose loss leaves the longer common sequence.
pub open spec fn changes(a: Seq<Seq<char>>, b: Seq<Seq<char>>, i: int, j: int) -> Seq<HunkNode>
    decreases a.len() - i + b.len() - j,
{
    if i < 0 || j < 0 || i >= a.len() || j >= b.len() {
        all_gone(a, i) + all_come(b, j)
    } else if a[i] == b[j] {
        seq![stayed(a, i, j)] + changes(a, b, i + 1, j + 1)
    } else if lcs(a, b, i + 1, j) >= lcs(a, b, i, j + 1) {
        seq![gone(a, i)] + changes(a, b, i + 1, j)
    } else {
        seq![come(b, j)] + changes(a, b, i, j + 1)
    }
}

/// The number of hunks of a kind.
pub open spec fn count_of(h: Seq<HunkNode>, op: DiffOp) -> nat
    decreases h.len(),
{
    if h.len() == 0 {
        0
    } else {
        count_of(h.drop_last(), op) + (if h.last().op == op {
            1nat
        } else {
            0
        })
    }
}

/// What changed between the two texts.
pub open spec fn diff_of(a: Seq<Seq<char>>, b: Seq<Seq<char>>) -> Seq<HunkNode> {
    if a.len() * b.len() > MAX_LCS_CELLS {
        all_gone(a, 0) + all_come(b, 0)
    } else {
        changes(a, b, 0, 0)
    }
}

// ---------------------------------------------------------------------------
// The functions
// ---------------------------------------------------------------------------

fn push_hunk(out: &mut Vec<DiffHunk>, h: DiffHunk)
    ensures
        hunk_nodes(final(out)@) == hunk_nodes(old(out)@).push(hunk_node(h)),
{
    assert(hunk_nodes(out@.push(h)) =~= hunk_nodes(out@).push(hunk_node(h)));
    out.push(h);
}

fn push_gone(out: &mut Vec<DiffHunk>, a: &[String], from: usize)
    requires
        from <= a@.len(),
    ensures
        hunk_nodes(final(out)@) == hunk_nodes(old(out)@) + all_gone(text_list(a@), from as int),
{
    let ghost first = hunk_nodes(out@);
    let ghost t = text_list(a@);
    let mut i: usize = from;
    while i < a.len()
        invariant
            from <= i <= a@.len(),
            t == text_list(a@),
            first + all_gone(t, from as int) == hunk_nodes(out@) + all_gone(t, i as int),
        decreases a@.len() - i,
    {
        let ghost before = hunk_nodes(out@);
        push_hunk(out, DiffHunk { op: DiffOp::Delete, a_line: Some(i + 1), b_line: None, text: a[i].clone() });
        proof {
            assert(before + (seq![gone(t, i as int)] + all_gone(t, i + 1)) =~= before.push(gone(t, i as int)) + all_gone(
                t,
                i + 1,
            ));
        }
        i = i + 1;
    }
    assert(hunk_nodes(out@) + all_gone(t, i as int) =~= hunk_nodes(out@));
}

fn push_come(out: &mut Vec<DiffHunk>, b: &[String], from: usize)
    requires
        from <= b@.len(),
    ensures
        hunk_nodes(final(out)@) == hunk_nodes(old(out)@) + all_come(text_list(b@), from as int),
{
    let ghost first = hunk_nodes(out@);
    let ghost t = text_list(b@);
    let mut j: usize = from;
    while j < b.len()
        invariant
            from <= j <= b@.len(),
            t == text_list(b@),
            first + all_come(t, from as int) == hunk_nodes(out@) + all_come(t, j as int),
        decreases b@.len() - j,
    {
        let ghost before = hunk_nodes(out@);
        push_hunk(out, DiffHunk { op: DiffOp::Insert, a_line: None, b_line: Some(j + 1), text: b[j].clone() });
        proof {
            assert(before + (seq![come(t, j as int)] + all_come(t, j + 1)) =~= before.push(come(t, j as int)) + all_come(
                t,
                j + 1,
            ));
        }
        j = j + 1;
    }
    assert(hunk_nodes(out@) + all_come(t, j as int) =~= hunk_nodes(out@));
}

/// Replaces the first text by the second.
pub fn whole_block_replace(a: &[String], b: &[String]) -> (hunks: Vec<DiffHunk>)
    ensures
        hunk_nodes(hunks@) == all_gone(text_list(a@), 0) + all_come(text_list(b@), 0),
{
    let mut hunks: Vec<DiffHunk> = Vec::new();
    assert(hunk_nodes(hunks@) + all_gone(text_list(a@), 0) =~= all_gone(text_list(a@), 0));
    push_gone(&mut hunks, a, 0);
    push_come(&mut hunks, b, 0);
    hunks
}

proof fn lemma_lcs_bound(a: Seq<Seq<char>>, b: Seq<Seq<char>>, i: int, j: int)
    requires
        0 <= i <= a.len(),
        0 <= j <= b.len(),
    ensures
        lcs(a, b, i, j) <= a.len() - i,
        lcs(a, b, i, j) <= b.len() - j,
    decreases a.len() - i + b.len() - j,
{
    if i < a.len() && j < b.len() {
        if a[i] == b[j] {
            lemma_lcs_bound(a, b, i + 1, j + 1);
        } else {
            lemma_lcs_bound(a, b, i + 1, j);
            lemma_lcs_bound(a, b, i, j + 1);
        }
    }
}

/// Row `i` of the table holds the lengths from line `i` of the first text on.
spec fn is_row(a: Seq<Seq<char>>, b: Seq<Seq<char>>, row: Seq<usize>, i: int) -> bool {
    row.len() == b.len() + 1 && forall|j: int| 0 <= j <= b.len() ==> #[trigger] row[j] == lcs(a, b, i, j)
}

fn zero_row(b: &[String]) -> (row: Vec<usize>)
    ensures
        row@.len() == b@.len() + 1,
        forall|j: int| 0 <= j < row@.len() ==> #[trigger] row@[j] == 0,
{
    let mut row: Vec<usize> = Vec::new();
    let mut k: usize = 0;
    while k < b.len()
        invariant
            k <= b@.len(),
            row@.len() == k,
            forall|j: int| 0 <= j < k ==> #[trigger] row@[j] == 0,
        decreases b@.len() - k,
    {
        row.push(0);
        k = k + 1;
    }
    row.push(0);
    row
}

/// The row above `below`.
fn next_row(a: &[String], b: &[String], i: usize, below: &Vec<usize>) -> (row: Vec<usize>)
    requires
        i < a@.len(),
        is_row(text_list(a@), text_list(b@), below@, i + 1),
    ensures
        is_row(text_list(a@), text_list(b@), row@, i as int),
{
    let mut row = zero_row(b);
    let ghost ta = text_list(a@);
    let ghost tb = text_list(b@);
    let mut j: usize = b.len();
    while j > 0
        invariant
            i < a@.len(),
            j <= b@.len(),
            ta == text_list(a@),
            tb == text_list(b@),
            is_row(ta, tb, below@, i + 1),
            row@.len() == b@.len() + 1,
            forall|x: int| j <= x <= b@.len() ==> #[trigger] row@[x] == lcs(ta, tb, i as int, x),
        decreases j,
    {
        j = j - 1;
        proof {
            lemma_lcs_bound(ta, tb, i as int, j as int);
        }
        assert(below@[j as int] == lcs(ta, tb, i + 1, j as int));
        assert(below@[j + 1] == lcs(ta, tb, i + 1, j + 1));
        assert(row@[j + 1] == lcs(ta, tb, i as int, j + 1));
        assert(ta[i as int] == a@[i as int]@ && tb[j as int] == b@[j as int]@);
        let v: usize = if same(a[i].as_str(), b[j].as_str()) {
            below[j + 1] + 1
        } else if below[j] >= row[j + 1] {
            below[j]
        } else {
            row[j + 1]
        };
        row.set(j, v);
    }
    row
}

/// The rows of the table, from the last to the first.
fn build_table(a: &[String], b: &[String]) -> (rows: Vec<Vec<usize>>)
    ensures
        rows@.len() == a@.len() + 1,
        forall|k: int|
            0 <= k <= a@.len() ==> is_row(text_list(a@), text_list(b@), (#[trigger] rows@[k])@, a@.len() - k),
{
    let mut rows: Vec<Vec<usize>> = Vec::new();
    let n: usize = a.len();
    rows.push(zero_row(b));
    let mut i: usize = n;
    while i > 0
        invariant
            i <= n,
            n == a@.len(),
            rows@.len() == n - i + 1,
            forall|k: int|
                0 <= k <= n - i ==> is_row(text_list(a@), text_list(b@), (#[trigger] rows@[k])@, n - k),
        decreases i,
    {
        i = i - 1;
        let row = next_row(a, b, i, &rows[n - i - 1]);
        rows.push(row);
    }
    rows
}

/// What changed between the two texts, with a longest common sequence of lines
/// kept.
pub fn lcs_diff(a: &[String], b: &[String]) -> (hunks: Vec<DiffHunk>)
    ensures
        hunk_nodes(hunks@) == changes(text_list(a@), text_list(b@), 0, 0),
{
    let rows = build_table(a, b);
    let n: usize = a.len();
    let m: usize = b.len();
    let ghost ta = text_list(a@);
    let ghost tb = text_list(b@);
    let ghost want = changes(ta, tb, 0, 0);
    let mut hunks: Vec<DiffHunk> = Vec::new();
    let mut i: usize = 0;
    let mut j: usize = 0;
    assert(hunk_nodes(hunks@) + want =~= want);
    while i < n && j < m
        invariant
            n == a@.len(),
            m == b@.len(),
            i <= n,
            j <= m,
            ta == text_list(a@),
            tb == text_list(b@),
            rows@.len() == n + 1,
            forall|k: int| 0 <= k <= n ==> is_row(ta, tb, (#[trigger] rows@[k])@, n - k),
            want == hunk_nodes(hunks@) + changes(ta, tb, i as int, j as int),
        decreases n - i + (m - j),
    {
        let ghost before = hunk_nodes(hunks@);
        let ghost rest = changes(ta, tb, i as int, j as int);
        assert(ta[i as int] == a@[i as int]@ && tb[j as int] == b@[j as int]@);
        let ghost next: HunkNode = rest[0];
        if same(a[i].as_str(), b[j].as_str()) {
            push_hunk(
                &mut hunks,
                DiffHunk { op: DiffOp::Equal, a_line: Some(i + 1), b_line: Some(j + 1), text: a[i].clone() },
            );
            i = i + 1;
            j = j + 1;
        } else {
            let down: usize = rows[n - i - 1][j];
            let right: usize = rows[n - i][j + 1];
            assert(is_row(ta, tb, rows@[n - i - 1]@, i + 1));
            assert(is_row(ta, tb, rows@[n - i]@, i as int));
            if down >= right {
                push_hunk(
                    &mut hunks,
                    DiffHunk { op: DiffOp::Delete, a_line: Some(i + 1), b_line: None, text: a[i].clone() },
                );
                i = i + 1;
            } else {
                push_hunk(
                    &mut hunks,
                    DiffHunk { op: DiffOp::Insert, a_line: None, b_line: Some(j + 1), text: b[j].clone() },
                );
                j = j + 1;
            }
        }
        proof {
            assert(rest == seq![next] + changes(ta, tb, i as int, j as int));
            assert(before + rest =~= before.push(next) + changes(ta, tb, i as int, j as int));
        }
    }
    let ghost before = hunk_nodes(hunks@);
    push_gone(&mut hunks, a, i);
    push_come(&mut hunks, b, j);
    assert(before + (all_gone(ta, i as int) + all_come(tb, j as int)) =~= before + all_gone(ta, i as int) + all_come(
        tb,
        j as int,
    ));
    hunks
}

fn count_hunks(h: &Vec<DiffHunk>, op: DiffOp) -> (n: usize)
    ensures
        n == count_of(hunk_nodes(h@), op),
{
    let mut n: usize = 0;
    let mut k: usize = 0;
    let ghost t = hunk_nodes(h@);
    assert(t.take(0) =~= Seq::<HunkNode>::empty());
    while k < h.len()
        invariant
            t == hunk_nodes(h@),
            n <= k <= h@.len(),
            n == count_of(t.take(k as int), op),
        decreases h@.len() - k,
    {
        assert(t.take(k + 1).drop_last() =~= t.take(k as int));
        assert(t.take(k + 1).last() == hunk_node(h@[k as int]));
        if h[k].op == op {
            n = n + 1;
        }
        k = k + 1;
    }
    assert(t.take(k as int) =~= t);
    n
}

fn too_large(n: usize, m: usize) -> (r: bool)
    ensures
        r == (n * m > MAX_LCS_CELLS),
{
    match n.checked_mul(m) {
        Some(p) => p > MAX_LCS_CELLS,
        None => true,
    }
}

/// Compares two texts line by line.
#[derive(Clone, Copy, Debug, Default)]
pub struct DiffPass;

impl DiffPass {
    pub fn name(&self) -> (r: &'static str)
        ensures
            r@ == "diff"@,
    {
        "diff"
    }

    pub fn run(&self, _ctx: &Ctx, input: DiffInput) -> (r: Result<DiffArtifact, CoreError>)
        ensures
            r matches Ok(d) && {
                let h = diff_of(text_list(input.a@), text_list(input.b@));
                &&& hunk_nodes(d.hunks@) == h
                &&& d.equal == count_of(h, DiffOp::Equal)
                &&& d.inserted == count_of(h, DiffOp::Insert)
                &&& d.deleted == count_of(h, DiffOp::Delete)
                &&& d.denom == if input.a@.len() == 0 && input.b@.len() == 0 {
                    1
                } else if input.a@.len() >= input.b@.len() {
                    input.a@.len()
                } else {
                    input.b@.len()
                }
            },
    {
        let n: usize = input.a.len();
        let m: usize = input.b.len();
        let hunks = if too_large(n, m) {
            whole_block_replace(input.a.as_slice(), input.b.as_slice())
        } else {
            lcs_diff(input.a.as_slice(), input.b.as_slice())
        };
        let equal: usize = count_hunks(&hunks, DiffOp::Equal);
        let inserted: usize = count_hunks(&hunks, DiffOp::Insert);
        let deleted: usize = count_hunks(&hunks, DiffOp::Delete);
        let denom: usize = if n == 0 && m == 0 {
            1
        } else if n >= m {
            n
        } else {
            m
        };
        Ok(DiffArtifact { hunks, equal, inserted, deleted, denom })
    }
}

// ---------------------------------------------------------------------------
// Laws
// ---------------------------------------------------------------------------

/// The first text, as the hunks tell it: what stayed and what went.
pub open spec fn old_side(h: Seq<HunkNode>) -> Seq<Seq<char>>
    decreases h.len(),
{
    if h.len() == 0 {
        Seq::empty()
    } else if h[0].op == DiffOp::Insert {
        old_side(h.skip(1))
    } else {
        seq![h[0].text] + old_side(h.skip(1))
    }
}

/// The second text, as the hunks tell it: what stayed and what came.
pub open spec fn new_side(h: Seq<HunkNode>) -> Seq<Seq<char>>
    decreases h.len(),
{
    if h.len() == 0 {
        Seq::empty()
    } else if h[0].op == DiffOp::Delete {
        new_side(h.skip(1))
    } else {
        seq![h[0].text] + new_side(h.skip(1))
    }
}

proof fn lemma_gone_sides(a: Seq<Seq<char>>, i: int, tail: Seq<HunkNode>)
    requires
        0 <= i <= a.len(),
    ensures
        old_side(all_gone(a, i) + tail) == a.skip(i) + old_side(tail),
        new_side(all_gone(a, i) + tail) == new_side(tail),
    decreases a.len() - i,
{
    if i < a.len() {
        lemma_gone_sides(a, i + 1, tail);
        let h = all_gone(a, i) + tail;
        assert(h.skip(1) =~= all_gone(a, i + 1) + tail);
        assert(a.skip(i) + old_side(tail) =~= seq![a[i]] + (a.skip(i + 1) + old_side(tail)));
    } else {
        assert(all_gone(a, i) + tail =~= tail);
        assert(a.skip(i) + old_side(tail) =~= old_side(tail));
    }
}

proof fn lemma_come_sides(b: Seq<Seq<char>>, j: int)
    requires
        0 <= j <= b.len(),
    ensures
        old_side(all_come(b, j)) == Seq::<Seq<char>>::empty(),
        new_side(all_come(b, j)) == b.skip(j),
    decreases b.len() - j,
{
    if j < b.len() {
        lemma_come_sides(b, j + 1);
        assert(all_come(b, j).skip(1) =~= all_come(b, j + 1));
        assert(b.skip(j) =~= seq![b[j]] + b.skip(j + 1));
    } else {
        assert(b.skip(j) =~= Seq::empty());
    }
}

proof fn lemma_changes_sides(a: Seq<Seq<char>>, b: Seq<Seq<char>>, i: int, j: int)
    requires
        0 <= i <= a.len(),
        0 <= j <= b.len(),
    ensures
        old_side(changes(a, b, i, j)) == a.skip(i),
        new_side(changes(a, b, i, j)) == b.skip(j),
    decreases a.len() - i + b.len() - j,
{
    let h = changes(a, b, i, j);
    if i >= a.len() || j >= b.len() {
        lemma_come_sides(b, j);
        lemma_gone_sides(a, i, all_come(b, j));
        assert(a.skip(i) + Seq::<Seq<char>>::empty() =~= a.skip(i));
    } else {
        if a[i] == b[j] {
            lemma_changes_sides(a, b, i + 1, j + 1);
            assert(h.skip(1) =~= changes(a, b, i + 1, j + 1));
        } else if lcs(a, b, i + 1, j) >= lcs(a, b, i, j + 1) {
            lemma_changes_sides(a, b, i + 1, j);
            assert(h.skip(1) =~= changes(a, b, i + 1, j));
        } else {
            lemma_changes_sides(a, b, i, j + 1);
            assert(h.skip(1) =~= changes(a, b, i, j + 1));
        }
        assert(a.skip(i) =~= seq![a[i]] + a.skip(i + 1));
        assert(b.skip(j) =~= seq![b[j]] + b.skip(j + 1));
    }
}

/// Both texts can be read off the changes, whether compared line by line or replaced
/// as a whole: what stayed and what went is the first, what stayed and what came is
/// the second.
pub proof fn changes_tell_both_texts(a: Seq<Seq<char>>, b: Seq<Seq<char>>)
    ensures
        old_side(diff_of(a, b)) == a,
        new_side(diff_of(a, b)) == b,
        old_side(changes(a, b, 0, 0)) == a,
        new_side(changes(a, b, 0, 0)) == b,
{
    if a.len() * b.len() > MAX_LCS_CELLS {
        lemma_come_sides(b, 0);
        lemma_gone_sides(a, 0, all_come(b, 0));
        assert(a.skip(0) + Seq::<Seq<char>>::empty() =~= a);
    }
    lemma_changes_sides(a, b, 0, 0);
    assert(a.skip(0) =~= a);
    assert(b.skip(0) =~= b);
}

proof fn lemma_count_first(h: HunkNode, t: Seq<HunkNode>, op: DiffOp)
    ensures
        count_of(seq![h] + t, op) == count_of(t, op) + (if h.op == op {
            1nat
        } else {
            0
        }),
    decreases t.len(),
{
    let s = seq![h] + t;
    if t.len() == 0 {
        assert(s.drop_last() =~= Seq::empty());
        assert(s.last() == h);
        assert(count_of(s.drop_last(), op) == 0);
    } else {
        assert(s.drop_last() =~= seq![h] + t.drop_last());
        assert(s.last() == t.last());
        lemma_count_first(h, t.drop_last(), op);
    }
}

proof fn lemma_none_stay(a: Seq<Seq<char>>, b: Seq<Seq<char>>, i: int, j: int)
    requires
        0 <= i <= a.len(),
        0 <= j <= b.len(),
    ensures
        count_of(all_gone(a, i) + all_come(b, j), DiffOp::Equal) == 0,
    decreases a.len() - i + b.len() - j,
{
    if i < a.len() {
        lemma_none_stay(a, b, i + 1, j);
        assert(all_gone(a, i) + all_come(b, j) =~= seq![gone(a, i)] + (all_gone(a, i + 1) + all_come(b, j)));
        lemma_count_first(gone(a, i), all_gone(a, i + 1) + all_come(b, j), DiffOp::Equal);
    } else if j < b.len() {
        lemma_none_stay(a, b, i, j + 1);
        assert(all_gone(a, i) + all_come(b, j) =~= seq![come(b, j)] + (all_gone(a, i) + all_come(b, j + 1)));
        lemma_count_first(come(b, j), all_gone(a, i) + all_come(b, j + 1), DiffOp::Equal);
    }
}

proof fn lemma_equal_count(a: Seq<Seq<char>>, b: Seq<Seq<char>>, i: int, j: int)
    requires
        0 <= i <= a.len(),
        0 <= j <= b.len(),
    ensures
        count_of(changes(a, b, i, j), DiffOp::Equal) == lcs(a, b, i, j),
    decreases a.len() - i + b.len() - j,
{
    if i >= a.len() || j >= b.len() {
        lemma_none_stay(a, b, i, j);
    } else if a[i] == b[j] {
        lemma_equal_count(a, b, i + 1, j + 1);
        lemma_count_first(stayed(a, i, j), changes(a, b, i + 1, j + 1), DiffOp::Equal);
    } else if lcs(a, b, i + 1, j) >= lcs(a, b, i, j + 1) {
        lemma_equal_count(a, b, i + 1, j);
        lemma_count_first(gone(a, i), changes(a, b, i + 1, j), DiffOp::Equal);
    } else {
        lemma_equal_count(a, b, i, j + 1);
        lemma_count_first(come(b, j), changes(a, b, i, j + 1), DiffOp::Equal);
    }
}

/// Lines `xs` of the first text are lines `ys` of the second, in the same order.
pub open spec fn in_both(a: Seq<Seq<char>>, b: Seq<Seq<char>>, xs: Seq<int>, ys: Seq<int>) -> bool {
    &&& xs.len() == ys.len()
    &&& forall|k: int|
        0 <= k < xs.len() ==> 0 <= #[trigger] xs[k] < a.len() && 0 <= ys[k] < b.len() && a[xs[k]] == b[ys[k]]
    &&& forall|k: int, l: int| 0 <= k < l < xs.len() ==> #[trigger] xs[k] < #[trigger] xs[l] && ys[k] < ys[l]
}

proof fn lemma_lcs_longest(a: Seq<Seq<char>>, b: Seq<Seq<char>>, i: int, j: int, xs: Seq<int>, ys: Seq<int>)
    requires
        0 <= i <= a.len(),
        0 <= j <= b.len(),
        in_both(a, b, xs, ys),
        xs.len() > 0 ==> xs[0] >= i && ys[0] >= j,
    ensures
        xs.len() <= lcs(a, b, i, j),
    decreases a.len() - i + b.len() - j,
{
    if xs.len() > 0 {
        assert(a[xs[0]] == b[ys[0]]);
        if a[i] == b[j] {
            let x1 = xs.skip(1);
            let y1 = ys.skip(1);
            assert(in_both(a, b, x1, y1)) by {
                assert forall|k: int| 0 <= k < x1.len() implies 0 <= #[trigger] x1[k] < a.len() && 0 <= y1[k] < b.len()
                    && a[x1[k]] == b[y1[k]] by {
                    assert(x1[k] == xs[k + 1]);
                }
                assert forall|k: int, l: int| 0 <= k < l < x1.len() implies #[trigger] x1[k] < #[trigger] x1[l] && y1[k]
                    < y1[l] by {
                    assert(xs[k + 1] < xs[l + 1]);
                }
            }
            if x1.len() > 0 {
                assert(xs[0] < xs[1]);
            }
            lemma_lcs_longest(a, b, i + 1, j + 1, x1, y1);
        } else if xs[0] > i {
            lemma_lcs_longest(a, b, i + 1, j, xs, ys);
        } else {
            lemma_lcs_longest(a, b, i, j + 1, xs, ys);
        }
    }
}

proof fn lemma_gone_at(a: Seq<Seq<char>>, i: int)
    requires
        0 <= i <= a.len(),
    ensures
        all_gone(a, i).len() == a.len() - i,
        forall|k: int| 0 <= k < a.len() - i ==> #[trigger] all_gone(a, i)[k] == gone(a, i + k),
    decreases a.len() - i,
{
    if i < a.len() {
        lemma_gone_at(a, i + 1);
        assert forall|k: int| 0 <= k < a.len() - i implies #[trigger] all_gone(a, i)[k] == gone(a, i + k) by {
            if k > 0 {
                assert(all_gone(a, i)[k] == all_gone(a, i + 1)[k - 1]);
            }
        }
    }
}

proof fn lemma_come_at(b: Seq<Seq<char>>, j: int)
    requires
        0 <= j <= b.len(),
    ensures
        all_come(b, j).len() == b.len() - j,
        forall|k: int| 0 <= k < b.len() - j ==> #[trigger] all_come(b, j)[k] == come(b, j + k),
    decreases b.len() - j,
{
    if j < b.len() {
        lemma_come_at(b, j + 1);
        assert forall|k: int| 0 <= k < b.len() - j implies #[trigger] all_come(b, j)[k] == come(b, j + k) by {
            if k > 0 {
                assert(all_come(b, j)[k] == all_come(b, j + 1)[k - 1]);
            }
        }
    }
}

proof fn lemma_none_of(h: Seq<HunkNode>, op: DiffOp)
    requires
        forall|k: int| 0 <= k < h.len() ==> (#[trigger] h[k]).op != op,
    ensures
        count_of(h, op) == 0,
    decreases h.len(),
{
    if h.len() > 0 {
        assert(h[h.len() - 1].op != op);
        lemma_none_of(h.drop_last(), op);
    }
}

/// Texts that are too large to be compared line by line are replaced as a whole:
/// every line of the first goes, then every line of the second comes, and none
/// stays.
pub proof fn large_texts_are_replaced(a: Seq<Seq<char>>, b: Seq<Seq<char>>)
    requires
        a.len() * b.len() > MAX_LCS_CELLS,
    ensures
        diff_of(a, b).len() == a.len() + b.len(),
        forall|i: int| 0 <= i < a.len() ==> #[trigger] diff_of(a, b)[i] == gone(a, i),
        forall|j: int| a.len() <= j < a.len() + b.len() ==> #[trigger] diff_of(a, b)[j] == come(b, j - a.len()),
        count_of(diff_of(a, b), DiffOp::Equal) == 0,
{
    lemma_gone_at(a, 0);
    lemma_come_at(b, 0);
    let d = diff_of(a, b);
    assert forall|i: int| 0 <= i < a.len() implies #[trigger] d[i] == gone(a, i) by {
        assert(d[i] == all_gone(a, 0)[i]);
    }
    assert forall|j: int| a.len() <= j < a.len() + b.len() implies #[trigger] d[j] == come(b, j - a.len()) by {
        assert(d[j] == all_come(b, 0)[j - a.len()]);
    }
    lemma_none_of(d, DiffOp::Equal);
}

/// No sequence of lines that both texts hold in the same order is longer than
/// what stays, where texts are compared line by line. Only texts that are too large
/// for that are replaced as a whole.
pub proof fn as_much_stays_as_can(a: Seq<Seq<char>>, b: Seq<Seq<char>>, xs: Seq<int>, ys: Seq<int>)
    requires
        in_both(a, b, xs, ys),
    ensures
        xs.len() <= count_of(changes(a, b, 0, 0), DiffOp::Equal),
        a.len() * b.len() <= MAX_LCS_CELLS ==> xs.len() <= count_of(diff_of(a, b), DiffOp::Equal),
{
    lemma_equal_count(a, b, 0, 0);
    if xs.len() > 0 {
        assert(0 <= xs[0] && 0 <= ys[0]);
    }
    lemma_lcs_longest(a, b, 0, 0, xs, ys);
}

proof fn lemma_same_changes(a: Seq<Seq<char>>, i: int)
    requires
        0 <= i <= a.len(),
    ensures
        lcs(a, a, i, i) == a.len() - i,
        changes(a, a, i, i).len() == a.len() - i,
        forall|k: int| 0 <= k < a.len() - i ==> #[trigger] changes(a, a, i, i)[k] == stayed(a, i + k, i + k),
    decreases a.len() - i,
{
    if i < a.len() {
        lemma_same_changes(a, i + 1);
        assert forall|k: int| 0 <= k < a.len() - i implies #[trigger] changes(a, a, i, i)[k] == stayed(
            a,
            i + k,
            i + k,
        ) by {
            if k > 0 {
                assert(changes(a, a, i, i)[k] == changes(a, a, i + 1, i + 1)[k - 1]);
            }
        }
    } else {
        assert(all_gone(a, i) + all_come(a, i) =~= Seq::empty());
    }
}

/// Every line of a text that is compared with itself line by line stays. Only a text
/// that is too large for that is replaced as a whole.
pub proof fn a_text_equals_itself(a: Seq<Seq<char>>)
    ensures
        changes(a, a, 0, 0).len() == a.len(),
        forall|k: int| 0 <= k < a.len() ==> #[trigger] changes(a, a, 0, 0)[k] == stayed(a, k, k),
        count_of(changes(a, a, 0, 0), DiffOp::Equal) == a.len(),
        a.len() * a.len() <= MAX_LCS_CELLS ==> diff_of(a, a) == changes(a, a, 0, 0),
{
    lemma_same_changes(a, 0);
    lemma_equal_count(a, a, 0, 0);
}

/// Each line of a change is numbered in the text that it is of, and a line that stayed in
/// both.
pub proof fn lines_are_numbered_in_their_text(a: Seq<Seq<char>>, b: Seq<Seq<char>>, i: int, j: int, k: int)
    requires
        0 <= i <= a.len(),
        0 <= j <= b.len(),
        a.len() < usize::MAX,
        b.len() < usize::MAX,
        0 <= k < changes(a, b, i, j).len(),
    ensures
        ({
            let h = changes(a, b, i, j)[k];
            &&& h.op == DiffOp::Delete ==> h.b_line is None && (h.a_line matches Some(n) && i < n <= a.len() && a[n - 1]
                == h.text)
            &&& h.op == DiffOp::Insert ==> h.a_line is None && (h.b_line matches Some(n) && j < n <= b.len() && b[n - 1]
                == h.text)
            &&& h.op == DiffOp::Equal ==> (h.a_line matches Some(n) && i < n <= a.len() && a[n - 1] == h.text) && (
            h.b_line matches Some(n) && j < n <= b.len() && b[n - 1] == h.text)
        }),
    decreases a.len() - i + b.len() - j,
{
    if i >= a.len() || j >= b.len() {
        let g = all_gone(a, i);
        if k < g.len() {
            lemma_gone_numbered(a, i, k);
        } else {
            lemma_come_numbered(b, j, k - g.len());
        }
    } else if k > 0 {
        if a[i] == b[j] {
            lines_are_numbered_in_their_text(a, b, i + 1, j + 1, k - 1);
        } else if lcs(a, b, i + 1, j) >= lcs(a, b, i, j + 1) {
            lines_are_numbered_in_their_text(a, b, i + 1, j, k - 1);
        } else {
            lines_are_numbered_in_their_text(a, b, i, j + 1, k - 1);
        }
    }
}

proof fn lemma_gone_numbered(a: Seq<Seq<char>>, i: int, k: int)
    requires
        0 <= i <= a.len(),
        a.len() < usize::MAX,
        0 <= k < all_gone(a, i).len(),
    ensures
        i + k < a.len(),
        all_gone(a, i)[k] == gone(a, i + k),
    decreases a.len() - i,
{
    if i < a.len() && k > 0 {
        lemma_gone_numbered(a, i + 1, k - 1);
    }
}

proof fn lemma_come_numbered(b: Seq<Seq<char>>, j: int, k: int)
    requires
        0 <= j <= b.len(),
        b.len() < usize::MAX,
        0 <= k < all_come(b, j).len(),
    ensures
        j + k < b.len(),
        all_come(b, j)[k] == come(b, j + k),
    decreases b.len() - j,
{
    if j < b.len() && k > 0 {
        lemma_come_numbered(b, j + 1, k - 1);
    }
}

/// Hunks of a kind are counted one by one.
pub proof fn hunks_are_counted_by_kind(h: Seq<HunkNode>, x: HunkNode, op: DiffOp)
    ensures
        count_of(Seq::empty(), op) == 0,
        x.op == op ==> count_of(h.push(x), op) == count_of(h, op) + 1,
        x.op != op ==> count_of(h.push(x), op) == count_of(h, op),
{
    assert(h.push(x).drop_last() =~= h);
}

} // verus!
