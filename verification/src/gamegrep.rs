//! Ranks documents by how densely they cluster the vocabulary of a concept.
//!
//! A document that mentions five words of the concept matters more than one that
//! mentions a single word fifty times, so documents are ordered by the number of
//! distinct words first. Among documents of equal breadth a score decides that
//! grows with the logarithm of the counts. It is computed outside and handed in
//! as the bits of a number that is not negative, which order as the numbers do.

use vstd::prelude::*;
use vstd::string::{StrSliceExecFns, StringExecFns};

use crate::decomp::at_most_word;
use crate::ir::text_list;
use crate::order::{lemma_stable_map, sort_stable, stable, Ranked, Sortable};
use crate::sorted::{lex_lt, name_less, NameSet, SortKey, SortedSet};
use crate::text::{
    chars_of, find_from, find_text, is_space, lemma_find_from, occurs, occurs_at, same, skip_space, trim, trim_end,
    trim_start, trim_text,
};

verus! {

/// One document.
#[derive(Clone, Debug, PartialEq, Eq)]
pub struct Document {
    /// What the report calls it.
    pub id: String,
    /// What kind of document it is.
    pub kind: String,
    pub text: String,
}

/// How often a word occurs in a document.
#[derive(Clone, Debug, PartialEq, Eq)]
pub struct TermHit {
    pub term: String,
    pub count: usize,
}

/// A document that mentions enough words.
#[derive(Clone, Debug, PartialEq, Eq)]
pub struct RankedHit {
    pub id: String,
    pub kind: String,
    /// The bits of the score.
    pub score: u64,
    /// The number of distinct words that occur.
    pub distinct_terms: usize,
    /// The number of occurrences of all words.
    pub total_hits: usize,
    pub term_hits: Vec<TermHit>,
    /// Some places at which words occur.
    pub snippets: Vec<String>,
}

/// The documents that mention enough words, not yet in order.
#[derive(Clone, Debug, PartialEq, Eq)]
pub struct Gathered {
    /// The words, in order.
    pub concept: Vec<String>,
    pub documents_scanned: usize,
    /// The hits in the order of the documents, each with its words in order and
    /// without a score.
    pub hits: Vec<RankedHit>,
}

/// The report.
#[derive(Clone, Debug, PartialEq, Eq)]
pub struct GameGrepArtifact {
    pub concept: Vec<String>,
    pub documents_scanned: usize,
    pub documents_matched: usize,
    pub hits: Vec<RankedHit>,
}

/// What the report holds.
#[derive(Clone, Copy, Debug, PartialEq, Eq, Structural)]
pub struct RankOptions {
    /// The most documents that are reported.
    pub limit: usize,
    /// The most snippets of one document.
    pub max_snippets: usize,
    /// The fewest distinct words that a document must mention.
    pub min_distinct: usize,
}

impl Default for RankOptions {
    fn default() -> (r: Self)
        ensures
            r == (RankOptions { limit: 40, max_snippets: 3, min_distinct: 1 }),
    {
        RankOptions { limit: 40, max_snippets: 3, min_distinct: 1 }
    }
}

/// The longest line that a snippet shows whole, in bytes.
pub const SNIPPET_MAX_LEN: usize = 160;

/// A hit, by contents.
pub ghost struct HitNode {
    pub id: Seq<char>,
    pub kind: Seq<char>,
    pub score: u64,
    pub distinct_terms: usize,
    pub total_hits: usize,
    pub term_hits: Seq<TermNode>,
    pub snippets: Seq<Seq<char>>,
}

/// How often a word occurs, by contents.
pub ghost struct TermNode {
    pub term: Seq<char>,
    pub count: usize,
}

pub open spec fn term_node(t: TermHit) -> TermNode {
    TermNode { term: t.term@, count: t.count }
}

pub open spec fn term_nodes(v: Seq<TermHit>) -> Seq<TermNode> {
    v.map_values(|t: TermHit| term_node(t))
}

pub open spec fn hit_node(h: RankedHit) -> HitNode {
    HitNode {
        id: h.id@,
        kind: h.kind@,
        score: h.score,
        distinct_terms: h.distinct_terms,
        total_hits: h.total_hits,
        term_hits: term_nodes(h.term_hits@),
        snippets: text_list(h.snippets@),
    }
}

pub open spec fn hit_nodes(v: Seq<RankedHit>) -> Seq<HitNode> {
    v.map_values(|h: RankedHit| hit_node(h))
}

// ---------------------------------------------------------------------------
// Lower case
// ---------------------------------------------------------------------------

/// A text in lower case, as Unicode defines it.
pub uninterp spec fn lower_case(s: Seq<char>) -> Seq<char>;

/// An ASCII letter in lower case; any other character stays.
pub open spec fn ascii_lower(c: char) -> char {
    if 'A' <= c <= 'Z' {
        ((c as u32 + 32) as u8) as char
    } else {
        c
    }
}

pub open spec fn is_ascii(s: Seq<char>) -> bool {
    forall|i: int| 0 <= i < s.len() ==> (#[trigger] s[i] as u32) < 0x80
}

/// A text with each ASCII capital letter in lower case.
pub open spec fn ascii_lowered(s: Seq<char>) -> Seq<char> {
    s.map_values(|c: char| ascii_lower(c))
}

/// `str::to_lowercase` of std. The result is a function of the text alone, and
/// of a text in ASCII it is the text with each capital letter in lower case.
#[verifier::external_body]
fn to_lower(s: &str) -> (r: String)
    ensures
        r@ == lower_case(s@),
        is_ascii(s@) ==> r@ == ascii_lowered(s@),
{
    s.to_lowercase()
}

// ---------------------------------------------------------------------------
// Occurrences
// ---------------------------------------------------------------------------

/// The number of times that `n` occurs in `h` from index `k` on, without
/// overlap.
pub open spec fn count_from(h: Seq<char>, n: Seq<char>, k: int) -> nat
    decreases h.len() - k,
{
    if n.len() == 0 || k < 0 || k > h.len() {
        0
    } else {
        match find_from(h, n, k) {
            Some(i) => if k <= i && i + n.len() <= h.len() {
                1 + count_from(h, n, i + n.len())
            } else {
                0
            },
            None => 0,
        }
    }
}

/// The number of times that `needle` occurs in `haystack`, without overlap.
pub open spec fn occurrences(haystack: Seq<char>, needle: Seq<char>) -> nat {
    count_from(haystack, needle, 0)
}

fn count_in(h: &Vec<char>, n: &Vec<char>) -> (count: usize)
    ensures
        count == occurrences(h@, n@),
        count > 0 ==> n@.len() > 0 && find_from(h@, n@, 0) is Some,
{
    if n.len() == 0 {
        return 0;
    }
    let mut count: usize = 0;
    let mut start: usize = 0;
    let mut going: bool = true;
    let len: usize = h.len();
    while going
        invariant
            n@.len() > 0,
            len == h@.len(),
            count <= start <= len,
            occurrences(h@, n@) == count + if going {
                count_from(h@, n@, start as int)
            } else {
                0
            },
            count > 0 ==> find_from(h@, n@, 0) is Some,
            count == 0 ==> start == 0,
        decreases len - start, going as int,
    {
        match find_text(h, n, start) {
            Some(pos) => {
                count = count + 1;
                start = pos + n.len();
            },
            None => {
                going = false;
            },
        }
    }
    count
}

/// Counts how often `needle` occurs in `haystack`, without overlap. An empty
/// needle does not occur.
pub fn count_occurrences(haystack: &str, needle: &str) -> (count: usize)
    ensures
        count == occurrences(haystack@, needle@),
{
    let h = chars_of(haystack);
    let n = chars_of(needle);
    count_in(&h, &n)
}

// ---------------------------------------------------------------------------
// Places in bytes
// ---------------------------------------------------------------------------

/// The number of bytes of a character in UTF-8.
pub open spec fn width(c: char) -> nat {
    if (c as u32) < 0x80 {
        1
    } else if (c as u32) < 0x800 {
        2
    } else if (c as u32) < 0x1_0000 {
        3
    } else {
        4
    }
}

/// The number of bytes of the first `k` characters in UTF-8.
pub open spec fn bytes_upto(s: Seq<char>, k: int) -> nat
    decreases k,
{
    if k <= 0 || k > s.len() {
        0
    } else {
        bytes_upto(s, k - 1) + width(s[k - 1])
    }
}

/// The index from `k` on at which byte `p` starts a character, or ends the text.
pub open spec fn index_at(s: Seq<char>, p: nat, k: int) -> Option<int>
    decreases s.len() + 1 - k,
{
    if k < 0 || k > s.len() {
        None
    } else if bytes_upto(s, k) == p {
        Some(k)
    } else {
        index_at(s, p, k + 1)
    }
}

/// The last index from `k` on that is not past byte `p`.
pub open spec fn index_below(s: Seq<char>, p: nat, k: int) -> int
    decreases s.len() - k,
{
    if k < 0 || k >= s.len() || bytes_upto(s, k + 1) > p {
        k
    } else {
        index_below(s, p, k + 1)
    }
}

fn char_width(c: char) -> (n: u128)
    ensures
        n == width(c),
        1 <= n <= 4,
{
    let v: u32 = c as u32;
    if v < 0x80 {
        1
    } else if v < 0x800 {
        2
    } else if v < 0x1_0000 {
        3
    } else {
        4
    }
}

proof fn lemma_bytes_bound(s: Seq<char>, k: int)
    requires
        0 <= k <= s.len(),
    ensures
        k <= bytes_upto(s, k) <= 4 * k,
    decreases k,
{
    if k > 0 {
        lemma_bytes_bound(s, k - 1);
    }
}

fn count_bytes(s: &Vec<char>, k: usize) -> (n: u128)
    requires
        k <= s@.len(),
    ensures
        n == bytes_upto(s@, k as int),
        n <= 4 * k,
{
    let mut n: u128 = 0;
    let mut i: usize = 0;
    while i < k
        invariant
            i <= k <= s@.len(),
            n == bytes_upto(s@, i as int),
            n <= 4 * i,
        decreases k - i,
    {
        n = n + char_width(s[i]);
        i = i + 1;
    }
    n
}

fn find_index(s: &Vec<char>, p: u128) -> (r: Option<usize>)
    ensures
        match (r, index_at(s@, p as nat, 0)) {
            (Some(a), Some(b)) => a == b && a <= s@.len(),
            (None, None) => true,
            _ => false,
        },
{
    let len: usize = s.len();
    let mut at: u128 = 0;
    let mut k: usize = 0;
    while k < len
        invariant
            len == s@.len(),
            k <= len,
            at == bytes_upto(s@, k as int),
            at <= 4 * k,
            index_at(s@, p as nat, 0) == index_at(s@, p as nat, k as int),
        decreases len - k,
    {
        if at == p {
            return Some(k);
        }
        at = at + char_width(s[k]);
        k = k + 1;
    }
    assert(index_at(s@, p as nat, len + 1) is None);
    if at == p {
        Some(len)
    } else {
        None
    }
}

/// The last index of a character that starts at byte `p` or before it.
fn floor_char_boundary(s: &Vec<char>, p: u128) -> (r: usize)
    ensures
        r == index_below(s@, p as nat, 0),
        r <= s@.len(),
{
    let len: usize = s.len();
    let mut at: u128 = 0;
    let mut k: usize = 0;
    while k < len
        invariant
            len == s@.len(),
            k <= len,
            at == bytes_upto(s@, k as int),
            at <= 4 * k,
            index_below(s@, p as nat, 0) == index_below(s@, p as nat, k as int),
        decreases len - k,
    {
        at = at + char_width(s[k]);
        if at > p {
            return k;
        }
        k = k + 1;
    }
    len
}

proof fn lemma_below_grows(s: Seq<char>, p: nat, q: nat, k: int)
    requires
        p <= q,
        0 <= k <= s.len(),
    ensures
        k <= index_below(s, p, k) <= index_below(s, q, k) <= s.len(),
    decreases s.len() - k,
{
    if k < s.len() {
        lemma_below_grows(s, p, q, k + 1);
    }
}

// ---------------------------------------------------------------------------
// Snippets
// ---------------------------------------------------------------------------

/// Where the line starts that index `k` lies on.
pub open spec fn line_start(s: Seq<char>, k: int) -> int
    decreases k,
{
    if k <= 0 || s[k - 1] == '\n' {
        k
    } else {
        line_start(s, k - 1)
    }
}

/// Where the line ends that index `k` lies on.
pub open spec fn line_end(s: Seq<char>, k: int) -> int
    decreases s.len() - k,
{
    if k < 0 || k >= s.len() || s[k] == '\n' {
        k
    } else {
        line_end(s, k + 1)
    }
}

/// A line around the byte `rel` of it: the whole line, or a window of it where
/// it is long. An empty line shows nothing.
pub open spec fn window(line: Seq<char>, rel: int) -> Option<Seq<char>> {
    let total = bytes_upto(line, line.len() as int);
    if total > SNIPPET_MAX_LEN {
        let half = SNIPPET_MAX_LEN as int / 2;
        let from = if rel > half {
            rel - half
        } else {
            0
        };
        let to = if from + SNIPPET_MAX_LEN < total {
            from + SNIPPET_MAX_LEN
        } else {
            total as int
        };
        let a = index_below(line, from as nat, 0);
        let b = index_below(line, to as nat, 0);
        Some(seq!['\u{2026}'] + line.subrange(a, if a <= b {
            b
        } else {
            a
        }) + seq!['\u{2026}'])
    } else if line.len() == 0 {
        None
    } else {
        Some(line)
    }
}

/// How far the byte `at` of a line lies behind the white space at its front.
pub open spec fn behind_blanks(line: Seq<char>, at: int) -> int {
    let lead = bytes_upto(line, line.len() - trim_start(line).len());
    if at > lead {
        at - lead
    } else {
        0
    }
}

/// The snippet around the first occurrence of a word. The place is sought in the
/// text in lower case, and taken over to the text itself byte for byte. The outer
/// `None` says that the place is none of the text, because lower case took more
/// or fewer bytes.
pub open spec fn snippet(text: Seq<char>, lower: Seq<char>, term: Seq<char>) -> Option<Option<Seq<char>>> {
    match find_from(lower, term, 0) {
        None => Some(None),
        Some(i) => {
            let p = bytes_upto(lower, i);
            match index_at(text, p, 0) {
                None => None,
                Some(k) => {
                    let a = line_start(text, k);
                    let b = line_end(text, k);
                    let line = text.subrange(a, b);
                    Some(window(trim(line), behind_blanks(line, p - bytes_upto(text, a))))
                },
            }
        },
    }
}

fn find_line_start(s: &Vec<char>, from: usize) -> (r: usize)
    requires
        from <= s@.len(),
    ensures
        r == line_start(s@, from as int),
        r <= from,
{
    let mut k: usize = from;
    while k > 0
        invariant
            k <= from <= s@.len(),
            line_start(s@, from as int) == line_start(s@, k as int),
        decreases k,
    {
        if s[k - 1] == '\n' {
            return k;
        }
        k = k - 1;
    }
    0
}

fn find_line_end(s: &Vec<char>, from: usize) -> (r: usize)
    requires
        from <= s@.len(),
    ensures
        r == line_end(s@, from as int),
        from <= r <= s@.len(),
{
    let mut k: usize = from;
    while k < s.len()
        invariant
            from <= k <= s@.len(),
            line_end(s@, from as int) == line_end(s@, k as int),
        decreases s@.len() - k,
    {
        if s[k] == '\n' {
            return k;
        }
        k = k + 1;
    }
    k
}

proof fn lemma_bytes_mono(s: Seq<char>, a: int, b: int)
    requires
        0 <= a <= b <= s.len(),
    ensures
        bytes_upto(s, a) <= bytes_upto(s, b),
    decreases b - a,
{
    if a < b {
        lemma_bytes_mono(s, a, b - 1);
    }
}

fn show_window(text: &str, rel: u128) -> (r: Option<String>)
    ensures
        match (r, window(text@, rel as int)) {
            (Some(a), Some(b)) => a@ == b,
            (None, None) => true,
            _ => false,
        },
{
    let line = chars_of(text);
    let n: usize = line.len();
    let total: u128 = count_bytes(&line, n);
    if total > SNIPPET_MAX_LEN as u128 {
        let half: u128 = SNIPPET_MAX_LEN as u128 / 2;
        let from: u128 = if rel > half {
            rel - half
        } else {
            0
        };
        let to: u128 = if from < total && total - from > SNIPPET_MAX_LEN as u128 {
            from + SNIPPET_MAX_LEN as u128
        } else {
            total
        };
        let a: usize = floor_char_boundary(&line, from);
        let b: usize = floor_char_boundary(&line, to);
        proof {
            if from <= to {
                lemma_below_grows(line@, from as nat, to as nat, 0);
            }
        }
        let end: usize = if a <= b {
            b
        } else {
            a
        };
        let mut s = String::from_str("");
        s.push('\u{2026}');
        let t = s.concat(text.substring_char(a, end));
        let mut t2 = t;
        t2.push('\u{2026}');
        proof {
            reveal_strlit("");
            let mid = line@.subrange(a as int, end as int);
            assert(t2@ =~= seq!['\u{2026}'] + mid + seq!['\u{2026}']);
        }
        Some(t2)
    } else if n == 0 {
        None
    } else {
        Some(String::from_str(text))
    }
}

/// The snippet around the first occurrence of a word.
pub fn snippet_around(text: &str, lower: &str, term: &str) -> (r: Option<Option<String>>)
    ensures
        match (r, snippet(text@, lower@, term@)) {
            (Some(Some(a)), Some(Some(b))) => a@ == b,
            (Some(None), Some(None)) => true,
            (None, None) => true,
            _ => false,
        },
{
    let l = chars_of(lower);
    let t = chars_of(term);
    let i: usize = match find_text(&l, &t, 0) {
        Some(i) => i,
        None => {
            return Some(None);
        },
    };
    let p: u128 = count_bytes(&l, i);
    let c = chars_of(text);
    let k: usize = match find_index(&c, p) {
        Some(k) => k,
        None => {
            return None;
        },
    };
    let a: usize = find_line_start(&c, k);
    let b: usize = find_line_end(&c, k);
    let before: u128 = count_bytes(&c, a);
    proof {
        lemma_index_at(c@, p as nat, 0);
        lemma_bytes_mono(c@, a as int, k as int);
    }
    let line = text.substring_char(a, b);
    let v = chars_of(line);
    let f: usize = skip_space(&v, 0, v.len());
    let lead: u128 = count_bytes(&v, f);
    proof {
        assert(v@.subrange(0, v@.len() as int) =~= v@);
        assert(v@ =~= text@.subrange(a as int, b as int));
    }
    let at: u128 = p - before;
    let rel: u128 = if at > lead {
        at - lead
    } else {
        0
    };
    Some(show_window(trim_text(line), rel))
}

proof fn lemma_index_at(s: Seq<char>, p: nat, k: int)
    ensures
        index_at(s, p, k) matches Some(i) ==> k <= i <= s.len() && bytes_upto(s, i) == p,
    decreases s.len() + 1 - k,
{
    if 0 <= k <= s.len() && bytes_upto(s, k) != p {
        lemma_index_at(s, p, k + 1);
    }
}

/// Every character takes one byte.
pub open spec fn single_bytes(s: Seq<char>) -> bool {
    forall|i: int| 0 <= i < s.len() ==> width(#[trigger] s[i]) == 1
}

/// A snippet holds the word that it is taken around, as the text spells it: the
/// text and its lower case are of one byte for each character, and the word is of
/// at most half a snippet and holds no white space.
pub proof fn snippets_hold_the_word(text: Seq<char>, lower: Seq<char>, term: Seq<char>, i: int)
    requires
        single_bytes(text),
        single_bytes(lower),
        text.len() == lower.len(),
        find_from(lower, term, 0) == Some(i),
        1 <= term.len() <= SNIPPET_MAX_LEN / 2,
        forall|j: int| i <= j < i + term.len() ==> !is_space(#[trigger] text[j]),
    ensures
        snippet(text, lower, term) matches Some(Some(w)) && occurs(w, text.subrange(i, i + term.len())),
{
    let n = term.len() as int;
    lemma_find_from(lower, term, 0);
    let word = text.subrange(i, i + n);
    lemma_single_bytes(lower, i);
    lemma_single_index(text, i, 0);
    let a = line_start(text, i);
    let b = line_end(text, i);
    lemma_line_start(text, i);
    lemma_line_end(text, i, i + n);
    lemma_single_bytes(text, a);
    let line = text.subrange(a, b);
    let rest = trim_start(line);
    let at = i - a;
    assert forall|j: int| at <= j < at + n implies !is_space(#[trigger] line[j]) by {
        assert(line[j] == text[a + j]);
    }
    lemma_trim_start_keeps(line, at);
    let f = line.len() - rest.len();
    lemma_single_bytes(line, f);
    lemma_trim_end_keeps(rest, at - f + n);
    let shown = trim(line);
    let rel = at - f;
    assert(behind_blanks(line, at) == rel);
    assert(shown.subrange(rel, rel + n) =~= word);
    let total = shown.len() as int;
    lemma_single_bytes(shown, total);
    let w = window(shown, rel)->Some_0;
    if total > SNIPPET_MAX_LEN {
        let half = SNIPPET_MAX_LEN as int / 2;
        let from = if rel > half {
            rel - half
        } else {
            0
        };
        let to = if from + SNIPPET_MAX_LEN < total {
            from + SNIPPET_MAX_LEN
        } else {
            total
        };
        lemma_single_below(shown, from, 0);
        lemma_single_below(shown, to, 0);
        assert(w.subrange(1 + rel - from, 1 + rel - from + n) =~= word);
        assert(occurs_at(w, word, 1 + rel - from));
        lemma_occurs(w, word, 1 + rel - from);
    } else {
        assert(occurs_at(w, word, rel));
        lemma_occurs(w, word, rel);
    }
}

proof fn lemma_occurs(h: Seq<char>, n: Seq<char>, k: int)
    requires
        0 <= k <= h.len(),
        occurs_at(h, n, k),
    ensures
        occurs(h, n),
{
    lemma_find_from(h, n, 0);
}

proof fn lemma_single_bytes(s: Seq<char>, k: int)
    requires
        single_bytes(s),
        0 <= k <= s.len(),
    ensures
        bytes_upto(s, k) == k,
    decreases k,
{
    if k > 0 {
        lemma_single_bytes(s, k - 1);
    }
}

proof fn lemma_single_index(s: Seq<char>, p: int, k: int)
    requires
        single_bytes(s),
        0 <= k <= p <= s.len(),
    ensures
        index_at(s, p as nat, k) == Some(p),
    decreases p - k,
{
    lemma_single_bytes(s, k);
    if k < p {
        lemma_single_index(s, p, k + 1);
    }
}

proof fn lemma_single_below(s: Seq<char>, p: int, k: int)
    requires
        single_bytes(s),
        0 <= k <= p <= s.len(),
    ensures
        index_below(s, p as nat, k) == p,
    decreases p - k,
{
    if k < s.len() {
        lemma_single_bytes(s, k + 1);
    }
    if k < p {
        lemma_single_below(s, p, k + 1);
    }
}

proof fn lemma_line_start(s: Seq<char>, k: int)
    requires
        0 <= k <= s.len(),
    ensures
        0 <= line_start(s, k) <= k,
    decreases k,
{
    if k > 0 && s[k - 1] != '\n' {
        lemma_line_start(s, k - 1);
    }
}

proof fn lemma_line_end(s: Seq<char>, k: int, to: int)
    requires
        0 <= k <= to <= s.len(),
        forall|j: int| k <= j < to ==> !is_space(#[trigger] s[j]),
    ensures
        to <= line_end(s, k) <= s.len(),
    decreases s.len() - k,
{
    if k < to {
        assert(s[k] != '\n');
        lemma_line_end(s, k + 1, to);
    } else if k < s.len() && s[k] != '\n' {
        lemma_line_end(s, k + 1, k + 1);
    }
}

/// White space at the front goes no further than the first character that is none.
proof fn lemma_trim_start_keeps(s: Seq<char>, k: int)
    requires
        0 <= k < s.len(),
        !is_space(s[k]),
    ensures
        s.len() - trim_start(s).len() <= k,
        trim_start(s).len() <= s.len(),
        trim_start(s) == s.skip(s.len() - trim_start(s).len()),
    decreases s.len(),
{
    if is_space(s[0]) {
        lemma_trim_start_keeps(s.drop_first(), k - 1);
        let f = s.len() - trim_start(s).len();
        assert(s.drop_first().skip(f - 1) =~= s.skip(f));
    } else {
        assert(s.skip(0) =~= s);
    }
}

/// White space at the end goes no further back than the last character that is none.
proof fn lemma_trim_end_keeps(s: Seq<char>, k: int)
    requires
        0 < k <= s.len(),
        !is_space(s[k - 1]),
    ensures
        k <= trim_end(s).len() <= s.len(),
        trim_end(s) == s.take(trim_end(s).len() as int),
    decreases s.len(),
{
    if is_space(s.last()) {
        lemma_trim_end_keeps(s.drop_last(), k);
        let e = trim_end(s).len() as int;
        assert(s.drop_last().take(e) =~= s.take(e));
    } else {
        assert(s.take(s.len() as int) =~= s);
    }
}

// ---------------------------------------------------------------------------
// The words of the concept
// ---------------------------------------------------------------------------

/// The words in strictly ascending order.
pub open spec fn ascending_texts(s: Seq<Seq<char>>) -> bool {
    forall|i: int, j: int| 0 <= i < j < s.len() ==> lex_lt(#[trigger] s[i], #[trigger] s[j])
}

/// `terms` holds the words of `lowered` that are not empty, each once and in
/// order.
pub open spec fn is_vocabulary(terms: Seq<Seq<char>>, lowered: Seq<Seq<char>>) -> bool {
    &&& ascending_texts(terms)
    &&& forall|t: Seq<char>| #[trigger] terms.contains(t) <==> t.len() > 0 && lowered.contains(t)
}

/// The words that are not empty, each once and in order.
pub fn vocabulary(lowered: &Vec<String>) -> (terms: Vec<String>)
    ensures
        is_vocabulary(text_list(terms@), text_list(lowered@)),
{
    let mut set: NameSet = SortedSet::new();
    let mut k: usize = 0;
    let ghost l = text_list(lowered@);
    while k < lowered.len()
        invariant
            set.wf(),
            k <= lowered@.len(),
            l == text_list(lowered@),
            forall|t: Seq<char>| #[trigger]
                set.set().contains(t) <==> t.len() > 0 && exists|i: int| 0 <= i < k && #[trigger] l[i] == t,
        decreases lowered@.len() - k,
    {
        let ghost before = set.set();
        assert(l[k as int] == lowered@[k as int]@);
        if !lowered[k].as_str().is_empty() {
            set.insert(lowered[k].clone());
        }
        proof {
            assert forall|t: Seq<char>| #[trigger]
                set.set().contains(t) <==> t.len() > 0 && exists|i: int| 0 <= i < k + 1 && #[trigger] l[i] == t by {
                assert(before.contains(t) <==> t.len() > 0 && exists|i: int| 0 <= i < k && #[trigger] l[i] == t);
                if t == l[k as int] {
                    assert(l[k as int] == t);
                }
            }
        }
        k = k + 1;
    }
    let terms = set.items;
    proof {
        let ts = text_list(terms@);
        assert forall|i: int, j: int| 0 <= i < j < ts.len() implies lex_lt(#[trigger] ts[i], #[trigger] ts[j]) by {
            assert(String::before(terms@[i].model(), terms@[j].model()));
        }
        assert forall|t: Seq<char>| #[trigger] ts.contains(t) <==> t.len() > 0 && l.contains(t) by {
            assert(set.set().contains(t) <==> t.len() > 0 && exists|i: int| 0 <= i < l.len() && #[trigger] l[i] == t);
            if ts.contains(t) {
                let i = choose|i: int| 0 <= i < ts.len() && ts[i] == t;
                assert(terms@[i].model() == t);
                assert(set.set().contains(t));
            }
            if set.set().contains(t) {
                let i = choose|i: int| 0 <= i < terms@.len() && (#[trigger] terms@[i]).model() == t;
                assert(ts[i] == t);
            }
        }
    }
    terms
}

// ---------------------------------------------------------------------------
// One document
// ---------------------------------------------------------------------------

/// The first `k` words that occur in a text, each with its count.
pub open spec fn words_in(terms: Seq<Seq<char>>, lower: Seq<char>, k: int) -> Seq<TermNode>
    decreases k,
{
    if k <= 0 {
        Seq::empty()
    } else {
        let c = occurrences(lower, terms[k - 1]);
        if c > 0 {
            words_in(terms, lower, k - 1).push(TermNode { term: terms[k - 1], count: c as usize })
        } else {
            words_in(terms, lower, k - 1)
        }
    }
}

/// The number of occurrences of the first `k` words.
pub open spec fn total_in(terms: Seq<Seq<char>>, lower: Seq<char>, k: int) -> nat
    decreases k,
{
    if k <= 0 {
        0
    } else {
        total_in(terms, lower, k - 1) + occurrences(lower, terms[k - 1])
    }
}

/// The snippets of the first `k` words: at most `max`, and each once. `None`
/// where the place of a word is none of the text.
pub open spec fn snippets_of(text: Seq<char>, lower: Seq<char>, words: Seq<TermNode>, max: usize, k: int) -> Option<
    Seq<Seq<char>>,
>
    decreases k,
{
    if k <= 0 {
        Some(Seq::empty())
    } else {
        match snippets_of(text, lower, words, max, k - 1) {
            None => None,
            Some(s) => if s.len() >= max {
                Some(s)
            } else {
                match snippet(text, lower, words[k - 1].term) {
                    None => None,
                    Some(None) => Some(s),
                    Some(Some(t)) => if s.contains(t) {
                        Some(s)
                    } else {
                        Some(s.push(t))
                    },
                }
            },
        }
    }
}

/// What a document gives: nothing where it mentions too few words. The outer
/// `None` stands for a word whose place is none of the text.
pub open spec fn hit_of(terms: Seq<Seq<char>>, doc: Document, lower: Seq<char>, opts: RankOptions) -> Option<
    Option<HitNode>,
> {
    let words = words_in(terms, lower, terms.len() as int);
    if words.len() < opts.min_distinct {
        Some(None)
    } else {
        match snippets_of(doc.text@, lower, words, opts.max_snippets, words.len() as int) {
            None => None,
            Some(s) => Some(
                Some(
                    HitNode {
                        id: doc.id@,
                        kind: doc.kind@,
                        score: 0,
                        distinct_terms: words.len() as usize,
                        total_hits: at_most_word(total_in(terms, lower, terms.len() as int)),
                        term_hits: words,
                        snippets: s,
                    },
                ),
            ),
        }
    }
}

/// What the first `k` documents give.
pub open spec fn hits_of(
    terms: Seq<Seq<char>>,
    docs: Seq<Document>,
    lower: Seq<Seq<char>>,
    opts: RankOptions,
    k: int,
) -> Option<Seq<HitNode>>
    decreases k,
{
    if k <= 0 {
        Some(Seq::empty())
    } else {
        match hits_of(terms, docs, lower, opts, k - 1) {
            None => None,
            Some(s) => match hit_of(terms, docs[k - 1], lower[k - 1], opts) {
                None => None,
                Some(None) => Some(s),
                Some(Some(h)) => Some(s.push(h)),
            },
        }
    }
}

fn count_words(terms: &Vec<String>, lower: &str) -> (r: (Vec<TermHit>, usize))
    ensures
        term_nodes(r.0@) == words_in(text_list(terms@), lower@, terms@.len() as int),
        r.1 == at_most_word(total_in(text_list(terms@), lower@, terms@.len() as int)),
{
    let l = chars_of(lower);
    let ghost ts = text_list(terms@);
    let mut out: Vec<TermHit> = Vec::new();
    let mut total: usize = 0;
    let mut k: usize = 0;
    assert(term_nodes(out@) =~= Seq::<TermNode>::empty());
    while k < terms.len()
        invariant
            k <= terms@.len(),
            ts == text_list(terms@),
            l@ == lower@,
            term_nodes(out@) == words_in(ts, lower@, k as int),
            total == at_most_word(total_in(ts, lower@, k as int)),
        decreases terms@.len() - k,
    {
        let n = chars_of(terms[k].as_str());
        assert(ts[k as int] == terms@[k as int]@);
        let c: usize = count_in(&l, &n);
        if c > 0 {
            total = if total <= usize::MAX - c {
                total + c
            } else {
                usize::MAX
            };
            let t = TermHit { term: terms[k].clone(), count: c };
            assert(term_nodes(out@.push(t)) =~= term_nodes(out@).push(term_node(t)));
            out.push(t);
        }
        k = k + 1;
    }
    (out, total)
}

fn is_among(v: &Vec<String>, s: &str) -> (r: bool)
    ensures
        r == text_list(v@).contains(s@),
{
    let ghost t = text_list(v@);
    let mut k: usize = 0;
    while k < v.len()
        invariant
            k <= v@.len(),
            t == text_list(v@),
            forall|j: int| 0 <= j < k ==> #[trigger] t[j] != s@,
        decreases v@.len() - k,
    {
        assert(t[k as int] == v@[k as int]@);
        if same(v[k].as_str(), s) {
            return true;
        }
        k = k + 1;
    }
    false
}

fn take_snippets(text: &str, lower: &str, words: &Vec<TermHit>, max: usize) -> (r: Option<Vec<String>>)
    ensures
        match (r, snippets_of(text@, lower@, term_nodes(words@), max, words@.len() as int)) {
            (Some(a), Some(b)) => text_list(a@) == b,
            (None, None) => true,
            _ => false,
        },
{
    let ghost w = term_nodes(words@);
    let mut out: Vec<String> = Vec::new();
    let mut failed: bool = false;
    let mut k: usize = 0;
    assert(text_list(out@) =~= Seq::<Seq<char>>::empty());
    while k < words.len()
        invariant
            k <= words@.len(),
            w == term_nodes(words@),
            snippets_of(text@, lower@, w, max, k as int) == if failed {
                None
            } else {
                Some(text_list(out@))
            },
        decreases words@.len() - k,
    {
        assert(w[k as int] == term_node(words@[k as int]));
        if !failed && out.len() < max {
            match snippet_around(text, lower, words[k].term.as_str()) {
                None => {
                    failed = true;
                },
                Some(None) => {},
                Some(Some(s)) => {
                    if !is_among(&out, s.as_str()) {
                        assert(text_list(out@.push(s)) =~= text_list(out@).push(s@));
                        out.push(s);
                    }
                },
            }
        }
        k = k + 1;
    }
    if failed {
        None
    } else {
        Some(out)
    }
}

fn take_hit(terms: &Vec<String>, doc: &Document, lower: &str, opts: &RankOptions) -> (r: Option<Option<RankedHit>>)
    ensures
        match (r, hit_of(text_list(terms@), *doc, lower@, *opts)) {
            (Some(Some(a)), Some(Some(b))) => hit_node(a) == b,
            (Some(None), Some(None)) => true,
            (None, None) => true,
            _ => false,
        },
{
    let (term_hits, total_hits) = count_words(terms, lower);
    let distinct_terms: usize = term_hits.len();
    if distinct_terms < opts.min_distinct {
        return Some(None);
    }
    match take_snippets(doc.text.as_str(), lower, &term_hits, opts.max_snippets) {
        None => None,
        Some(snippets) => Some(
            Some(
                RankedHit {
                    id: doc.id.clone(),
                    kind: doc.kind.clone(),
                    score: 0,
                    distinct_terms,
                    total_hits,
                    term_hits,
                    snippets,
                },
            ),
        ),
    }
}

/// The documents that mention enough words. `lower` holds their texts in lower
/// case. `None` where the place of a word is none of the text.
pub fn gather_hits(terms: &Vec<String>, docs: &[Document], lower: &Vec<String>, opts: &RankOptions) -> (r: Option<
    Vec<RankedHit>,
>)
    requires
        lower@.len() == docs@.len(),
    ensures
        match (r, hits_of(text_list(terms@), docs@, text_list(lower@), *opts, docs@.len() as int)) {
            (Some(a), Some(b)) => hit_nodes(a@) == b,
            (None, None) => true,
            _ => false,
        },
{
    let ghost ts = text_list(terms@);
    let ghost ls = text_list(lower@);
    let mut out: Vec<RankedHit> = Vec::new();
    let mut failed: bool = false;
    let mut k: usize = 0;
    assert(hit_nodes(out@) =~= Seq::<HitNode>::empty());
    while k < docs.len()
        invariant
            k <= docs@.len(),
            lower@.len() == docs@.len(),
            ts == text_list(terms@),
            ls == text_list(lower@),
            hits_of(ts, docs@, ls, *opts, k as int) == if failed {
                None
            } else {
                Some(hit_nodes(out@))
            },
        decreases docs@.len() - k,
    {
        assert(ls[k as int] == lower@[k as int]@);
        if !failed {
            match take_hit(terms, &docs[k], lower[k].as_str(), opts) {
                None => {
                    failed = true;
                },
                Some(None) => {},
                Some(Some(h)) => {
                    assert(hit_nodes(out@.push(h)) =~= hit_nodes(out@).push(hit_node(h)));
                    out.push(h);
                },
            }
        }
        k = k + 1;
    }
    if failed {
        None
    } else {
        Some(out)
    }
}

/// The words in lower case, without white space around them.
pub open spec fn lowered(concept: Seq<String>) -> Seq<Seq<char>> {
    concept.map_values(|t: String| lower_case(trim(t@)))
}

/// The texts of the documents in lower case.
pub open spec fn lowered_texts(docs: Seq<Document>) -> Seq<Seq<char>> {
    docs.map_values(|d: Document| lower_case(d.text@))
}

/// Finds the documents that mention enough words of a concept. Its words are
/// taken in lower case, each once, and empty ones are dropped. Of ASCII texts it
/// is known what lower case is. `None` where lower
/// case moves the place of a word so that it is none of the text.
pub fn gather(concept: &[String], docs: &[Document], opts: &RankOptions) -> (r: Option<Gathered>)
    ensures
        match r {
            Some(g) => {
                &&& is_vocabulary(text_list(g.concept@), lowered(concept@))
                &&& g.documents_scanned == docs@.len()
                &&& hits_of(text_list(g.concept@), docs@, lowered_texts(docs@), *opts, docs@.len() as int) == Some(
                    hit_nodes(g.hits@),
                )
            },
            None => exists|terms: Seq<Seq<char>>|
                #[trigger] is_vocabulary(terms, lowered(concept@)) && hits_of(
                    terms,
                    docs@,
                    lowered_texts(docs@),
                    *opts,
                    docs@.len() as int,
                ) is None,
        },
        forall|i: int|
            0 <= i < concept@.len() && is_ascii(trim((#[trigger] concept@[i])@)) ==> lower_case(trim(concept@[i]@))
                == ascii_lowered(trim(concept@[i]@)),
        forall|i: int|
            0 <= i < docs@.len() && is_ascii((#[trigger] docs@[i]).text@) ==> lower_case(docs@[i].text@) == ascii_lowered(
                docs@[i].text@,
            ),
{
    let mut words: Vec<String> = Vec::new();
    let mut k: usize = 0;
    while k < concept.len()
        invariant
            k <= concept@.len(),
            words@.len() == k,
            forall|j: int| 0 <= j < k ==> (#[trigger] words@[j])@ == lower_case(trim(concept@[j]@)),
            forall|j: int|
                0 <= j < k && is_ascii(trim((#[trigger] concept@[j])@)) ==> lower_case(trim(concept@[j]@))
                    == ascii_lowered(trim(concept@[j]@)),
        decreases concept@.len() - k,
    {
        words.push(to_lower(trim_text(concept[k].as_str())));
        k = k + 1;
    }
    assert(text_list(words@) =~= lowered(concept@));
    let terms = vocabulary(&words);
    let mut lower: Vec<String> = Vec::new();
    let mut i: usize = 0;
    while i < docs.len()
        invariant
            i <= docs@.len(),
            lower@.len() == i,
            forall|j: int| 0 <= j < i ==> (#[trigger] lower@[j])@ == lower_case(docs@[j].text@),
            forall|j: int|
                0 <= j < i && is_ascii((#[trigger] docs@[j]).text@) ==> lower_case(docs@[j].text@) == ascii_lowered(
                    docs@[j].text@,
                ),
        decreases docs@.len() - i,
    {
        lower.push(to_lower(docs[i].text.as_str()));
        i = i + 1;
    }
    assert(text_list(lower@) =~= lowered_texts(docs@));
    match gather_hits(&terms, docs, &lower, opts) {
        Some(hits) => Some(Gathered { concept: terms, documents_scanned: docs.len(), hits }),
        None => {
            assert(is_vocabulary(text_list(terms@), lowered(concept@)));
            None
        },
    }
}

// ---------------------------------------------------------------------------
// The order
// ---------------------------------------------------------------------------

/// The most frequent words first; equal ones by name.
pub open spec fn word_at_most(a: TermNode, b: TermNode) -> bool {
    a.count > b.count || (a.count == b.count && !lex_lt(b.term, a.term))
}

/// The broadest hits first; equal ones by score, and then by name.
pub open spec fn hit_at_most(a: HitNode, b: HitNode) -> bool {
    a.distinct_terms > b.distinct_terms || (a.distinct_terms == b.distinct_terms && (a.score > b.score || (a.score
        == b.score && !lex_lt(b.id, a.id))))
}

proof fn lemma_name_order(a: Seq<char>, b: Seq<char>, c: Seq<char>)
    ensures
        !lex_lt(a, b) || !lex_lt(b, a),
        !lex_lt(b, a) && !lex_lt(c, b) ==> !lex_lt(c, a),
{
    <String as SortKey>::order_laws();
    assert(String::before(a, b) == lex_lt(a, b));
    assert(String::before(b, a) == lex_lt(b, a));
    assert(String::before(b, c) == lex_lt(b, c));
    assert(String::before(c, b) == lex_lt(c, b));
    assert(String::before(c, a) == lex_lt(c, a));
}

impl Ranked for TermNode {
    open spec fn at_most(self, other: TermNode) -> bool {
        word_at_most(self, other)
    }

    proof fn rank_laws(a: TermNode, b: TermNode, c: TermNode) {
        lemma_name_order(a.term, b.term, c.term);
    }
}

impl Ranked for TermHit {
    open spec fn at_most(self, other: TermHit) -> bool {
        word_at_most(term_node(self), term_node(other))
    }

    proof fn rank_laws(a: TermHit, b: TermHit, c: TermHit) {
        lemma_name_order(a.term@, b.term@, c.term@);
    }
}

impl Sortable for TermHit {
    fn not_after(&self, other: &TermHit) -> (r: bool) {
        self.count > other.count || (self.count == other.count && !name_less(other.term.as_str(), self.term.as_str()))
    }
}

impl Ranked for HitNode {
    open spec fn at_most(self, other: HitNode) -> bool {
        hit_at_most(self, other)
    }

    proof fn rank_laws(a: HitNode, b: HitNode, c: HitNode) {
        lemma_name_order(a.id, b.id, c.id);
    }
}

impl Ranked for RankedHit {
    open spec fn at_most(self, other: RankedHit) -> bool {
        hit_at_most(hit_node(self), hit_node(other))
    }

    proof fn rank_laws(a: RankedHit, b: RankedHit, c: RankedHit) {
        lemma_name_order(a.id@, b.id@, c.id@);
    }
}

impl Sortable for RankedHit {
    fn not_after(&self, other: &RankedHit) -> (r: bool) {
        self.distinct_terms > other.distinct_terms || (self.distinct_terms == other.distinct_terms && (self.score
            > other.score || (self.score == other.score && !name_less(other.id.as_str(), self.id.as_str()))))
    }
}

/// A hit with its score, and its words in order.
pub open spec fn scored(h: HitNode, score: u64) -> HitNode {
    HitNode { score, term_hits: stable(h.term_hits), ..h }
}

/// The hits with their scores.
pub open spec fn all_scored(hits: Seq<HitNode>, scores: Seq<u64>) -> Seq<HitNode> {
    Seq::new(hits.len(), |i: int| scored(hits[i], scores[i]))
}

/// The first `limit` of the hits in order.
pub open spec fn ranking(hits: Seq<HitNode>, scores: Seq<u64>, limit: usize) -> Seq<HitNode> {
    let s = stable(all_scored(hits, scores));
    if s.len() > limit {
        s.take(limit as int)
    } else {
        s
    }
}

fn score_hit(h: RankedHit, score: u64) -> (r: RankedHit)
    ensures
        hit_node(r) == scored(hit_node(h), score),
{
    let ghost words = h.term_hits@;
    let ghost f = |t: TermHit| term_node(t);
    proof {
        lemma_stable_map(words, f);
        assert(words.map_values(f) =~= term_nodes(words));
        assert(stable(words).map_values(f) =~= term_nodes(stable(words)));
    }
    let sorted = sort_stable(h.term_hits);
    RankedHit {
        id: h.id,
        kind: h.kind,
        score,
        distinct_terms: h.distinct_terms,
        total_hits: h.total_hits,
        term_hits: sorted,
        snippets: h.snippets,
    }
}

/// Puts the hits in order, each with its score, and cuts the report. There is
/// one score for each hit.
pub fn rank(gathered: Gathered, scores: &Vec<u64>, opts: &RankOptions) -> (r: GameGrepArtifact)
    requires
        scores@.len() == gathered.hits@.len(),
    ensures
        r.concept == gathered.concept,
        r.documents_scanned == gathered.documents_scanned,
        r.documents_matched == gathered.hits@.len(),
        hit_nodes(r.hits@) == ranking(hit_nodes(gathered.hits@), scores@, opts.limit),
{
    let matched: usize = gathered.hits.len();
    let ghost want = all_scored(hit_nodes(gathered.hits@), scores@);
    let ghost all = gathered.hits@;
    let mut rest = gathered.hits;
    let mut back: Vec<RankedHit> = Vec::new();
    while rest.len() > 0
        invariant
            all.len() == scores@.len(),
            want == all_scored(hit_nodes(all), scores@),
            rest@.len() + back@.len() == all.len(),
            rest@ == all.take(rest@.len() as int),
            forall|j: int|
                0 <= j < back@.len() ==> hit_node(#[trigger] back@[j]) == want[all.len() - 1 - j],
        decreases rest@.len(),
    {
        let k: usize = rest.len() - 1;
        let ghost was = rest@;
        let h = rest.pop().unwrap();
        proof {
            assert(h == all[k as int]);
            assert(rest@ =~= all.take(k as int));
        }
        let s = score_hit(h, scores[k]);
        assert(want[k as int] == scored(hit_node(all[k as int]), scores@[k as int]));
        back.push(s);
    }
    let mut v: Vec<RankedHit> = Vec::new();
    while back.len() > 0
        invariant
            want.len() == all.len(),
            v@.len() + back@.len() == all.len(),
            forall|j: int| 0 <= j < v@.len() ==> hit_node(#[trigger] v@[j]) == want[j],
            forall|j: int|
                0 <= j < back@.len() ==> hit_node(#[trigger] back@[j]) == want[all.len() - 1 - j],
        decreases back@.len(),
    {
        let h = back.pop().unwrap();
        v.push(h);
    }
    let ghost f = |h: RankedHit| hit_node(h);
    proof {
        assert(v@.map_values(f) =~= want);
        lemma_stable_map(v@, f);
    }
    let mut hits = sort_stable(v);
    let ghost sorted = hits@;
    assert(sorted.map_values(f) == stable(want));
    hits.truncate(opts.limit);
    proof {
        if sorted.len() > opts.limit {
            assert(hits@ =~= sorted.take(opts.limit as int));
            assert(hit_nodes(hits@) =~= stable(want).take(opts.limit as int));
        } else {
            assert(hits@ =~= sorted);
            assert(hit_nodes(hits@) =~= stable(want));
        }
    }
    GameGrepArtifact {
        concept: gathered.concept,
        documents_scanned: gathered.documents_scanned,
        documents_matched: matched,
        hits,
    }
}

// ---------------------------------------------------------------------------
// Laws
// ---------------------------------------------------------------------------

/// A document that mentions more distinct words comes first, however often the
/// other mentions its own.
pub proof fn breadth_outranks_frequency(hits: Seq<HitNode>, scores: Seq<u64>, limit: usize, i: int, j: int)
    requires
        scores.len() == hits.len(),
        0 <= i < j < ranking(hits, scores, limit).len(),
    ensures
        ranking(hits, scores, limit)[i].distinct_terms >= ranking(hits, scores, limit)[j].distinct_terms,
{
    let all = all_scored(hits, scores);
    crate::order::sorting_permutes(all);
    assert(stable(all)[i].at_most(stable(all)[j]));
}

proof fn lemma_vocabulary_subset(a: Seq<Seq<char>>, b: Seq<Seq<char>>, k: int)
    requires
        ascending_texts(a),
        ascending_texts(b),
        forall|t: Seq<char>| #[trigger] a.contains(t) <==> b.contains(t),
        0 <= k <= a.len(),
        k <= b.len(),
    ensures
        a.take(k) == b.take(k),
    decreases k,
{
    if k > 0 {
        lemma_vocabulary_subset(a, b, k - 1);
        <String as SortKey>::order_laws();
        let x = a[k - 1];
        let y = b[k - 1];
        assert(a.contains(x) && b.contains(y));
        assert(b.contains(x) && a.contains(y));
        let i = choose|i: int| 0 <= i < b.len() && b[i] == x;
        let j = choose|j: int| 0 <= j < a.len() && a[j] == y;
        assert(a.take(k - 1) == b.take(k - 1));
        if i < k - 1 {
            assert(a.take(k - 1)[i] == b.take(k - 1)[i]);
            assert(lex_lt(a[i], a[k - 1]));
            assert(!String::before(x, x));
        }
        if j < k - 1 {
            assert(a.take(k - 1)[j] == b.take(k - 1)[j]);
            assert(lex_lt(b[j], b[k - 1]));
            assert(!String::before(y, y));
        }
        if x != y {
            assert(lex_lt(y, x));
            assert(lex_lt(x, y));
            assert(String::before(x, y) && String::before(y, x));
            assert(!String::before(x, x));
        }
        assert(a.take(k) =~= a.take(k - 1).push(x));
        assert(b.take(k) =~= b.take(k - 1).push(y));
    }
}

/// The words of a concept do not depend on the order in which they are given,
/// nor on how often each is given.
pub proof fn a_concept_has_one_vocabulary(
    a: Seq<Seq<char>>,
    b: Seq<Seq<char>>,
    given: Seq<Seq<char>>,
    other: Seq<Seq<char>>,
)
    requires
        is_vocabulary(a, given),
        is_vocabulary(b, other),
        forall|t: Seq<char>| #[trigger] given.contains(t) <==> other.contains(t),
    ensures
        a == b,
{
    assert forall|t: Seq<char>| #[trigger] a.contains(t) <==> b.contains(t) by {
        assert(given.contains(t) <==> other.contains(t));
    }
    if a.len() <= b.len() {
        lemma_vocabulary_subset(a, b, a.len() as int);
        assert(a.take(a.len() as int) =~= a);
        lemma_no_longer(a, b);
    } else {
        lemma_vocabulary_subset(b, a, b.len() as int);
        assert(b.take(b.len() as int) =~= b);
        lemma_no_longer(b, a);
    }
}

proof fn lemma_no_longer(a: Seq<Seq<char>>, b: Seq<Seq<char>>)
    requires
        ascending_texts(b),
        a.len() <= b.len(),
        a == b.take(a.len() as int),
        forall|t: Seq<char>| #[trigger] a.contains(t) <==> b.contains(t),
    ensures
        a == b,
{
    if a.len() < b.len() {
        <String as SortKey>::order_laws();
        let x = b[a.len() as int];
        assert(b.contains(x));
        assert(a.contains(x));
        let i = choose|i: int| 0 <= i < a.len() && a[i] == x;
        assert(b.take(a.len() as int)[i] == b[i]);
        assert(lex_lt(b[i], b[a.len() as int]));
        assert(!String::before(x, x));
    }
    assert(a =~= b);
}

/// A hit mentions at least as many distinct words as were asked for, and its
/// words are exactly those of the concept that occur.
pub proof fn hits_mention_enough(terms: Seq<Seq<char>>, doc: Document, lower: Seq<char>, opts: RankOptions, t: Seq<char>)
    requires
        hit_of(terms, doc, lower, opts) matches Some(Some(_)),
    ensures
        ({
            let h = hit_of(terms, doc, lower, opts)->0->0;
            &&& h.term_hits.len() >= opts.min_distinct
            &&& (exists|i: int| 0 <= i < h.term_hits.len() && (#[trigger] h.term_hits[i]).term == t) <==> terms.contains(t)
                && occurrences(lower, t) > 0
        }),
{
    let w = words_in(terms, lower, terms.len() as int);
    lemma_words(terms, lower, terms.len() as int, t);
    assert(terms.take(terms.len() as int) =~= terms);
    let h = hit_of(terms, doc, lower, opts)->0->0;
    assert(h.term_hits == w);
    if exists|i: int| 0 <= i < h.term_hits.len() && (#[trigger] h.term_hits[i]).term == t {
        let i = choose|i: int| 0 <= i < h.term_hits.len() && (#[trigger] h.term_hits[i]).term == t;
        assert(w[i].term == t);
    }
    if terms.contains(t) && occurrences(lower, t) > 0 {
        let i = choose|i: int| 0 <= i < w.len() && (#[trigger] w[i]).term == t;
        assert(h.term_hits[i].term == t);
    }
}

proof fn lemma_words(terms: Seq<Seq<char>>, lower: Seq<char>, k: int, t: Seq<char>)
    requires
        0 <= k <= terms.len(),
    ensures
        (exists|i: int| 0 <= i < words_in(terms, lower, k).len() && (#[trigger] words_in(terms, lower, k)[i]).term == t)
            <==> terms.take(k).contains(t) && occurrences(lower, t) > 0,
    decreases k,
{
    let w = words_in(terms, lower, k);
    if k > 0 {
        lemma_words(terms, lower, k - 1, t);
        let v = words_in(terms, lower, k - 1);
        let p = terms.take(k - 1);
        let q = terms.take(k);
        assert(q =~= p.push(terms[k - 1]));
        if p.contains(t) {
            let i = choose|i: int| 0 <= i < p.len() && p[i] == t;
            assert(q[i] == t);
        }
        assert(q[k - 1] == terms[k - 1]);
        if exists|i: int| 0 <= i < v.len() && (#[trigger] v[i]).term == t {
            let i = choose|i: int| 0 <= i < v.len() && (#[trigger] v[i]).term == t;
            assert(w[i].term == t);
        }
        if occurrences(lower, terms[k - 1]) > 0 && t == terms[k - 1] {
            assert(w[v.len() as int].term == t);
        }
        if exists|i: int| 0 <= i < w.len() && (#[trigger] w[i]).term == t {
            let i = choose|i: int| 0 <= i < w.len() && (#[trigger] w[i]).term == t;
            if i < v.len() {
                assert(v[i].term == t);
            }
        }
        if q.contains(t) && t != terms[k - 1] {
            let i = choose|i: int| 0 <= i < q.len() && q[i] == t;
            assert(p[i] == t);
        }
    }
}

// ---------------------------------------------------------------------------
// What is counted
// ---------------------------------------------------------------------------

/// A word is counted at each place where it stands, from the first on, and the next is
/// sought behind it.
pub proof fn words_are_counted_without_overlap(h: Seq<char>, n: Seq<char>, k: int)
    requires
        n.len() > 0,
        0 <= k <= h.len(),
    ensures
        find_from(h, n, k) is None ==> count_from(h, n, k) == 0,
        find_from(h, n, k) matches Some(i) ==> count_from(h, n, k) == 1 + count_from(h, n, i + n.len()),
        occurs(h, n) <==> occurrences(h, n) > 0,
        occurrences(h, Seq::empty()) == 0,
{
    lemma_find_from(h, n, k);
    lemma_find_from(h, n, 0);
}

/// Each word that occurs is listed with its count, in the order of the words, and the
/// counts add up to the total.
pub proof fn occurring_words_are_listed(terms: Seq<Seq<char>>, lower: Seq<char>, k: int)
    requires
        0 <= k < terms.len(),
        occurrences(lower, terms[k]) <= usize::MAX,
    ensures
        occurrences(lower, terms[k]) == 0 ==> words_in(terms, lower, k + 1) == words_in(terms, lower, k),
        occurrences(lower, terms[k]) > 0 ==> words_in(terms, lower, k + 1).len() == words_in(terms, lower, k).len() + 1
            && words_in(terms, lower, k + 1).last().term == terms[k] && words_in(terms, lower, k + 1).last().count
            == occurrences(lower, terms[k]),
        total_in(terms, lower, k + 1) == total_in(terms, lower, k) + occurrences(lower, terms[k]),
        total_in(terms, lower, 0) == 0,
{
}

/// A document that mentions fewer words than asked for is no hit; any other is one, with
/// as many words and mentions as it has.
pub proof fn hits_are_documents_that_mention_enough(terms: Seq<Seq<char>>, doc: Document, lower: Seq<char>, opts: RankOptions)
    ensures
        ({
            let words = words_in(terms, lower, terms.len() as int);
            let h = hit_of(terms, doc, lower, opts);
            &&& words.len() < opts.min_distinct ==> h == Some(None::<HitNode>)
            &&& words.len() >= opts.min_distinct && words.len() <= usize::MAX ==> (h matches Some(x) ==> (x matches Some(n)
                && n.id == doc.id@ && n.kind == doc.kind@ && n.distinct_terms == words.len() && n.term_hits == words))
        }),
{
}

/// Hits that mention more words come first; of those that mention as many, the one with
/// the higher score; and of those, the one whose name comes first.
pub proof fn hits_are_ranked_by_breadth_score_and_name(a: HitNode, b: HitNode)
    ensures
        a.distinct_terms > b.distinct_terms ==> a.at_most(b) && !b.at_most(a),
        a.distinct_terms == b.distinct_terms && a.score > b.score ==> a.at_most(b) && !b.at_most(a),
        a.distinct_terms == b.distinct_terms && a.score == b.score && lex_lt(a.id, b.id) && !lex_lt(b.id, a.id)
            ==> a.at_most(b) && !b.at_most(a),
{
}

/// Words are listed by their count, the most frequent first, and then by name.
pub proof fn words_are_ranked_by_count_and_name(a: TermNode, b: TermNode)
    ensures
        a.count > b.count ==> a.at_most(b) && !b.at_most(a),
        a.count == b.count && lex_lt(a.term, b.term) && !lex_lt(b.term, a.term) ==> a.at_most(b) && !b.at_most(a),
{
}

/// No more hits come out than asked for, and those that are left out come behind.
pub proof fn the_best_hits_come_out(hits: Seq<HitNode>, scores: Seq<u64>, limit: usize, i: int)
    requires
        scores.len() == hits.len(),
    ensures
        ranking(hits, scores, limit).len() <= limit || ranking(hits, scores, limit).len() == hits.len(),
        ranking(hits, scores, limit).len() == limit || ranking(hits, scores, limit).len() == hits.len(),
        0 <= i < hits.len() ==> {
            let s = all_scored(hits, scores)[i];
            s.score == scores[i] && s.id == hits[i].id && s.distinct_terms == hits[i].distinct_terms && s.total_hits
                == hits[i].total_hits
        },
{
    crate::order::sorting_permutes(all_scored(hits, scores));
    let all = all_scored(hits, scores);
    assert(stable(all).to_multiset().len() == all.to_multiset().len());
    stable(all).to_multiset_ensures();
    all.to_multiset_ensures();
}

/// A line goes from behind one line break to before the next.
pub proof fn lines_lie_between_line_breaks(s: Seq<char>, k: int, i: int)
    requires
        0 <= k <= s.len(),
    ensures
        0 <= line_start(s, k) <= k <= line_end(s, k) <= s.len(),
        line_start(s, k) == 0 || s[line_start(s, k) - 1] == '\n',
        line_end(s, k) == s.len() || s[line_end(s, k)] == '\n',
        line_start(s, k) <= i < line_end(s, k) ==> s[i] != '\n',
    decreases s.len(),
{
    lemma_before_line(s, k, i);
    lemma_after_line(s, k, i);
}

proof fn lemma_before_line(s: Seq<char>, k: int, i: int)
    requires
        0 <= k <= s.len(),
    ensures
        0 <= line_start(s, k) <= k,
        line_start(s, k) == 0 || s[line_start(s, k) - 1] == '\n',
        line_start(s, k) <= i < k ==> s[i] != '\n',
    decreases k,
{
    if k > 0 && s[k - 1] != '\n' {
        lemma_before_line(s, k - 1, i);
    }
}

proof fn lemma_after_line(s: Seq<char>, k: int, i: int)
    requires
        0 <= k <= s.len(),
    ensures
        k <= line_end(s, k) <= s.len(),
        line_end(s, k) == s.len() || s[line_end(s, k)] == '\n',
        k <= i < line_end(s, k) ==> s[i] != '\n',
    decreases s.len() - k,
{
    if k < s.len() && s[k] != '\n' {
        lemma_after_line(s, k + 1, i);
    }
}

/// Capital letters have their small ones, and all else stays.
pub proof fn capitals_become_small(c: char)
    ensures
        'A' <= c <= 'Z' ==> 'a' <= ascii_lower(c) <= 'z' && ascii_lower(c) as u32 - 'a' as u32 == c as u32 - 'A' as u32,
        !('A' <= c <= 'Z') ==> ascii_lower(c) == c,
{
}

} // verus!
