//! Searches memory for byte patterns with wildcards.

use vstd::prelude::*;
use vstd::string::{StrSliceExecFns, StringExecFns};

use crate::ctx::Ctx;
use crate::source::{CoreError, CoreFault, SourceError};
use crate::text::{chars_of, is_space, is_whitespace, same};
use crate::va::{wrap_add, Va};

verus! {

/// One byte of a pattern.
#[derive(Clone, Copy, Debug, PartialEq, Eq, Structural)]
pub enum AobByte {
    Exact(u8),
    Wildcard,
}

// ---------------------------------------------------------------------------
// Patterns
// ---------------------------------------------------------------------------

/// The first index from `k` on that holds white space, or none where `space` is
/// false; the length where there is no such index.
pub open spec fn skip_to(s: Seq<char>, space: bool, k: int) -> int
    decreases s.len() - k,
{
    if k < 0 || k >= s.len() || is_space(s[k]) == space {
        k
    } else {
        skip_to(s, space, k + 1)
    }
}

/// The words of a text from index `k` on: the runs without white space.
pub open spec fn words_from(s: Seq<char>, k: int) -> Seq<Seq<char>>
    decreases s.len() - k,
{
    let a = skip_to(s, false, k);
    let b = skip_to(s, true, a);
    if k < 0 || a < k || a >= s.len() || b <= a || b > s.len() {
        Seq::empty()
    } else {
        seq![s.subrange(a, b)] + words_from(s, b)
    }
}

/// The value of a hexadecimal digit.
pub open spec fn hex_digit(c: char) -> Option<nat> {
    if '0' <= c <= '9' {
        Some((c as u32 - 48) as nat)
    } else if 'a' <= c <= 'f' {
        Some((c as u32 - 87) as nat)
    } else if 'A' <= c <= 'F' {
        Some((c as u32 - 55) as nat)
    } else {
        None
    }
}

/// The number that the first `k` hexadecimal digits spell.
pub open spec fn hex_value(s: Seq<char>, k: int) -> Option<nat>
    decreases k,
{
    if k <= 0 {
        Some(0)
    } else {
        match (hex_value(s, k - 1), hex_digit(s[k - 1])) {
            (Some(v), Some(d)) => Some(16 * v + d),
            _ => None,
        }
    }
}

/// The byte that a word spells: hexadecimal digits, perhaps behind a plus sign,
/// of a number below 256.
pub open spec fn byte_of(w: Seq<char>) -> Option<u8> {
    let d = if w.len() > 0 && w[0] == '+' {
        w.skip(1)
    } else {
        w
    };
    if d.len() == 0 {
        None
    } else {
        match hex_value(d, d.len() as int) {
            Some(v) => if v <= 255 {
                Some(v as u8)
            } else {
                None
            },
            None => None,
        }
    }
}

/// What a word of a pattern stands for.
pub open spec fn token(w: Seq<char>) -> Option<AobByte> {
    if w == "?"@ || w == "??"@ {
        Some(AobByte::Wildcard)
    } else {
        match byte_of(w) {
            Some(b) => Some(AobByte::Exact(b)),
            None => None,
        }
    }
}

/// The first word from index `k` on that stands for nothing.
pub open spec fn bad_from(w: Seq<Seq<char>>, k: int) -> Option<int>
    decreases w.len() - k,
{
    if k < 0 || k >= w.len() {
        None
    } else if token(w[k]) is None {
        Some(k)
    } else {
        bad_from(w, k + 1)
    }
}

/// A text in quotes, with escapes, as it is shown to a programmer.
pub uninterp spec fn debug_text(s: Seq<char>) -> Seq<char>;

/// `<str as Debug>::fmt` of std, through `format!`. The result is a function of
/// the text alone. How characters are escaped is left unsaid.
#[verifier::external_body]
fn debug_of(s: &str) -> (r: String)
    ensures
        r@ == debug_text(s@),
{
    format!("{:?}", s)
}

/// What is said of a word that stands for nothing and is shown as `shown`.
pub open spec fn complaint(shown: Seq<char>) -> Seq<char> {
    "invalid AOB byte token: "@ + shown
}

/// The complaint about a word that is shown as `shown`.
pub fn complain(shown: &str) -> (s: String)
    ensures
        s@ == complaint(shown@),
{
    String::from_str("invalid AOB byte token: ").concat(shown)
}

fn find_space(v: &Vec<char>, space: bool, from: usize) -> (k: usize)
    requires
        from <= v@.len(),
    ensures
        k == skip_to(v@, space, from as int),
        from <= k <= v@.len(),
{
    let mut k: usize = from;
    while k < v.len()
        invariant
            from <= k <= v@.len(),
            skip_to(v@, space, from as int) == skip_to(v@, space, k as int),
        decreases v@.len() - k,
    {
        if is_whitespace(v[k]) == space {
            return k;
        }
        k = k + 1;
    }
    k
}

fn digit_value(c: char) -> (r: Option<u32>)
    ensures
        match (r, hex_digit(c)) {
            (Some(a), Some(b)) => a == b && a < 16,
            (None, None) => true,
            _ => false,
        },
{
    if '0' <= c && c <= '9' {
        Some(c as u32 - 48)
    } else if 'a' <= c && c <= 'f' {
        Some(c as u32 - 87)
    } else if 'A' <= c && c <= 'F' {
        Some(c as u32 - 55)
    } else {
        None
    }
}

proof fn lemma_hex_grows(s: Seq<char>, i: int, k: int)
    requires
        0 <= i <= k <= s.len(),
    ensures
        hex_value(s, i) is None ==> hex_value(s, k) is None,
        hex_value(s, k) matches Some(w) ==> (hex_value(s, i) matches Some(v) && v <= w),
    decreases k,
{
    if i < k {
        lemma_hex_grows(s, i, k - 1);
    }
}

fn read_byte(w: &str) -> (r: Option<u8>)
    ensures
        r == byte_of(w@),
{
    let v = chars_of(w);
    let n: usize = v.len();
    let from: usize = if n > 0 && v[0] == '+' {
        1
    } else {
        0
    };
    let ghost d = v@.skip(from as int);
    assert(v@.skip(0) =~= v@);
    if from == n {
        return None;
    }
    let mut acc: u32 = 0;
    let mut k: usize = from;
    while k < n
        invariant
            from <= k <= n,
            n == v@.len(),
            d == v@.skip(from as int),
            d.len() > 0,
            byte_of(w@) == match hex_value(d, d.len() as int) {
                Some(v) => if v <= 255 {
                    Some(v as u8)
                } else {
                    None
                },
                None => None,
            },
            acc <= 255,
            hex_value(d, k - from) == Some(acc as nat),
        decreases n - k,
    {
        proof {
            lemma_hex_grows(d, k + 1 - from, d.len() as int);
            assert(d[k - from] == v@[k as int]);
        }
        match digit_value(v[k]) {
            Some(x) => {
                acc = 16 * acc + x;
                if acc > 255 {
                    return None;
                }
            },
            None => {
                return None;
            },
        }
        k = k + 1;
    }
    Some(acc as u8)
}

fn read_token(w: &str) -> (r: Option<AobByte>)
    ensures
        r == token(w@),
{
    if same(w, "?") || same(w, "??") {
        Some(AobByte::Wildcard)
    } else {
        match read_byte(w) {
            Some(b) => Some(AobByte::Exact(b)),
            None => None,
        }
    }
}

/// The words of a pattern.
pub open spec fn pattern_words(s: Seq<char>) -> Seq<Seq<char>> {
    words_from(s, 0)
}

proof fn lemma_bad(w: Seq<Seq<char>>, k: int, i: int)
    requires
        0 <= k <= i < w.len(),
        token(w[i]) is None,
        forall|j: int| k <= j < i ==> token(#[trigger] w[j]) is Some,
    ensures
        bad_from(w, k) == Some(i),
    decreases i - k,
{
    if k < i {
        lemma_bad(w, k + 1, i);
    }
}

proof fn lemma_good(w: Seq<Seq<char>>, k: int)
    requires
        0 <= k,
        forall|j: int| k <= j < w.len() ==> token(#[trigger] w[j]) is Some,
    ensures
        bad_from(w, k) is None,
    decreases w.len() - k,
{
    if k < w.len() {
        lemma_good(w, k + 1);
    }
}

/// A text spells a pattern: each of its words stands for one byte of it.
pub open spec fn spells(s: Seq<char>, p: Seq<AobByte>) -> bool {
    let w = pattern_words(s);
    &&& bad_from(w, 0) is None
    &&& p.len() == w.len()
    &&& forall|i: int| 0 <= i < p.len() ==> Some(#[trigger] p[i]) == token(w[i])
}

/// The first character from `k` on that is white space, or is none, is at `r`.
proof fn lemma_skip_is(s: Seq<char>, space: bool, k: int, r: int)
    requires
        0 <= k <= r <= s.len(),
        forall|j: int| k <= j < r ==> is_space(#[trigger] s[j]) != space,
        r == s.len() || is_space(s[r]) == space,
    ensures
        skip_to(s, space, k) == r,
    decreases r - k,
{
    if k < r {
        lemma_skip_is(s, space, k + 1, r);
    }
}

proof fn lemma_skipped(s: Seq<char>, space: bool, k: int)
    requires
        0 <= k <= s.len(),
    ensures
        k <= skip_to(s, space, k) <= s.len(),
        forall|j: int| k <= j < skip_to(s, space, k) ==> is_space(#[trigger] s[j]) != space,
        skip_to(s, space, k) == s.len() || is_space(s[skip_to(s, space, k)]) == space,
    decreases s.len() - k,
{
    if k < s.len() && is_space(s[k]) != space {
        lemma_skipped(s, space, k + 1);
    }
}

/// The words do not change where white space is skipped.
proof fn lemma_words_skip(s: Seq<char>, k: int, m: int)
    requires
        0 <= k <= m <= s.len(),
        forall|j: int| k <= j < m ==> is_space(#[trigger] s[j]),
    ensures
        words_from(s, k) == words_from(s, m),
{
    lemma_skipped(s, false, m);
    lemma_skip_is(s, false, k, skip_to(s, false, m));
}

/// What stands in front of a text does not change its words.
proof fn lemma_words_behind(front: Seq<char>, b: Seq<char>, k: int)
    requires
        0 <= k <= b.len(),
    ensures
        words_from(front + b, front.len() + k) == words_from(b, k),
    decreases b.len() - k,
{
    let s = front + b;
    let n = front.len() as int;
    let from = skip_to(b, false, k);
    lemma_skipped(b, false, k);
    assert forall|j: int| n + k <= j < n + from implies is_space(#[trigger] s[j]) != false by {
        assert(s[j] == b[j - n]);
    }
    lemma_skip_is(s, false, n + k, n + from);
    let to = skip_to(b, true, from);
    lemma_skipped(b, true, from);
    assert forall|j: int| n + from <= j < n + to implies is_space(#[trigger] s[j]) != true by {
        assert(s[j] == b[j - n]);
    }
    lemma_skip_is(s, true, n + from, n + to);
    if from < b.len() && to > from {
        assert(s.subrange(n + from, n + to) =~= b.subrange(from, to));
        lemma_words_behind(front, b, to);
    }
}

/// White space behind a text ends its last word.
proof fn lemma_words_before(a: Seq<char>, rest: Seq<char>, k: int)
    requires
        0 <= k <= a.len(),
        rest.len() > 0,
        is_space(rest[0]),
    ensures
        words_from(a + rest, k) == words_from(a, k) + words_from(a + rest, a.len() as int),
    decreases a.len() - k,
{
    let s = a + rest;
    let n = a.len() as int;
    let from = skip_to(a, false, k);
    lemma_skipped(a, false, k);
    assert forall|j: int| k <= j < from implies is_space(#[trigger] s[j]) by {
        assert(s[j] == a[j]);
    }
    if from < n {
        lemma_skip_is(s, false, k, from);
        let to = skip_to(a, true, from);
        lemma_skipped(a, true, from);
        assert forall|j: int| from <= j < to implies is_space(#[trigger] s[j]) != true by {
            assert(s[j] == a[j]);
        }
        assert(s[n] == rest[0]);
        lemma_skip_is(s, true, from, to);
        assert(from < to);
        lemma_words_before(a, rest, to);
        let w = a.subrange(from, to);
        assert(s.subrange(from, to) =~= w);
        assert(words_from(s, k) == seq![w] + words_from(s, to));
        assert(seq![w] + (words_from(a, to) + words_from(s, n)) =~= (seq![w] + words_from(a, to)) + words_from(s, n));
    } else {
        lemma_words_skip(s, k, n);
        assert(words_from(a, k) =~= Seq::<Seq<char>>::empty());
        assert(words_from(a, k) + words_from(s, n) =~= words_from(s, n));
    }
}

/// The words of two texts with white space between them are the words of the one
/// and then those of the other.
pub proof fn words_join(a: Seq<char>, gap: Seq<char>, b: Seq<char>)
    requires
        gap.len() > 0,
        forall|i: int| 0 <= i < gap.len() ==> is_space(#[trigger] gap[i]),
    ensures
        pattern_words(a + gap + b) == pattern_words(a) + pattern_words(b),
{
    let s = a + gap + b;
    let n = a.len() as int;
    assert(s =~= a + (gap + b));
    lemma_words_before(a, gap + b, 0);
    assert forall|j: int| n <= j < n + gap.len() implies is_space(#[trigger] s[j]) by {
        assert(s[j] == gap[j - n]);
    }
    lemma_words_skip(s, n, n + gap.len());
    lemma_words_behind(a + gap, b, 0);
}

/// Two patterns with white space between them spell the one pattern and then the
/// other.
pub proof fn patterns_join(a: Seq<char>, gap: Seq<char>, b: Seq<char>, x: Seq<AobByte>, y: Seq<AobByte>)
    requires
        gap.len() > 0,
        forall|i: int| 0 <= i < gap.len() ==> is_space(#[trigger] gap[i]),
        spells(a, x),
        spells(b, y),
    ensures
        spells(a + gap + b, x + y),
{
    words_join(a, gap, b);
    let (wa, wb) = (pattern_words(a), pattern_words(b));
    let w = wa + wb;
    assert forall|i: int| 0 <= i < w.len() implies Some(#[trigger] (x + y)[i]) == token(w[i]) by {
        if i < wa.len() {
            assert(Some(x[i]) == token(wa[i]));
        } else {
            assert(Some(y[i - wa.len()]) == token(wb[i - wa.len()]));
        }
    }
    assert forall|j: int| 0 <= j < w.len() implies token(#[trigger] w[j]) is Some by {
        assert(Some((x + y)[j]) == token(w[j]));
    }
    lemma_good(w, 0);
}

/// White space alone, or nothing, spells the empty pattern.
pub proof fn blanks_spell_nothing(s: Seq<char>)
    requires
        forall|i: int| 0 <= i < s.len() ==> is_space(#[trigger] s[i]),
    ensures
        spells(s, Seq::empty()),
{
    lemma_words_skip(s, 0, s.len() as int);
    assert(pattern_words(s) =~= Seq::<Seq<char>>::empty());
}

/// Reads a pattern: bytes in hexadecimal, with `?` or `??` for any byte, and
/// white space between them. The first word that is neither is an error.
pub fn parse_aob(pattern: &str) -> (r: Result<Vec<AobByte>, String>)
    ensures
        ({
            let w = pattern_words(pattern@);
            match r {
                Ok(p) => spells(pattern@, p@),
                Err(e) => bad_from(w, 0) matches Some(k) && e@ == complaint(debug_text(w[k])),
            }
        }),
{
    let v = chars_of(pattern);
    let n: usize = v.len();
    let ghost w = pattern_words(pattern@);
    let mut out: Vec<AobByte> = Vec::new();
    let mut at: usize = 0;
    let mut going: bool = true;
    let ghost mut done: Seq<Seq<char>> = Seq::empty();
    assert(done + words_from(v@, 0) =~= w);
    while going
        invariant
            v@ == pattern@,
            n == v@.len(),
            at <= n,
            w == pattern_words(pattern@),
            w == if going {
                done + words_from(v@, at as int)
            } else {
                done
            },
            out@.len() == done.len(),
            forall|i: int| 0 <= i < done.len() ==> Some(#[trigger] out@[i]) == token(done[i]),
        decreases n - at, going as int,
    {
        let a: usize = find_space(&v, false, at);
        if a >= n {
            going = false;
            assert(done + Seq::<Seq<char>>::empty() =~= done);
        } else {
            let b: usize = find_space(&v, true, a);
            proof {
                lemma_word(v@, at as int);
            }
            let word = pattern.substring_char(a, b);
            let ghost before = done;
            proof {
                done = done.push(word@);
                assert(before + (seq![word@] + words_from(v@, b as int)) =~= done + words_from(v@, b as int));
            }
            match read_token(word) {
                Some(t) => {
                    out.push(t);
                },
                None => {
                    proof {
                        let i = before.len() as int;
                        assert(w[i] == word@);
                        assert forall|j: int| 0 <= j < i implies token(#[trigger] w[j]) is Some by {
                            assert(w[j] == before[j]);
                            assert(Some(out@[j]) == token(before[j]));
                        }
                        lemma_bad(w, 0, i);
                    }
                    return Err(complain(debug_of(word).as_str()));
                },
            }
            at = b;
        }
    }
    proof {
        assert forall|j: int| 0 <= j < w.len() implies token(#[trigger] w[j]) is Some by {
            assert(Some(out@[j]) == token(done[j]));
        }
        lemma_good(w, 0);
    }
    Ok(out)
}

proof fn lemma_word(s: Seq<char>, k: int)
    requires
        0 <= k <= s.len(),
    ensures
        ({
            let a = skip_to(s, false, k);
            let b = skip_to(s, true, a);
            k <= a <= b <= s.len() && (a < s.len() ==> a < b)
        }),
{
    lemma_skip(s, false, k);
    let a = skip_to(s, false, k);
    lemma_skip(s, true, a);
}

proof fn lemma_skip(s: Seq<char>, space: bool, k: int)
    requires
        0 <= k <= s.len(),
    ensures
        ({
            let a = skip_to(s, space, k);
            k <= a <= s.len() && (a < s.len() ==> is_space(s[a]) == space)
        }),
    decreases s.len() - k,
{
    if k < s.len() && is_space(s[k]) != space {
        lemma_skip(s, space, k + 1);
    }
}

// ---------------------------------------------------------------------------
// The search
// ---------------------------------------------------------------------------

/// What to search, and for what.
#[derive(Clone, Debug, PartialEq, Eq)]
pub struct AobInput {
    pub start: Va,
    pub size: usize,
    pub pattern: Vec<AobByte>,
}

/// Where the pattern was found.
#[derive(Clone, Debug, PartialEq, Eq)]
pub struct AobArtifact {
    pub matches: Vec<Va>,
    pub bytes_scanned: usize,
}

/// A byte fits a byte of a pattern.
pub open spec fn fits(p: AobByte, b: u8) -> bool {
    match p {
        AobByte::Exact(x) => b == x,
        AobByte::Wildcard => true,
    }
}

/// The pattern fits the bytes at index `i`.
pub open spec fn hits(bytes: Seq<u8>, pattern: Seq<AobByte>, i: int) -> bool {
    0 <= i && i + pattern.len() <= bytes.len() && forall|k: int|
        0 <= k < pattern.len() ==> fits(#[trigger] pattern[k], bytes[i + k])
}

/// The addresses of the first `k` bytes at which the pattern fits.
pub open spec fn found(bytes: Seq<u8>, pattern: Seq<AobByte>, start: Va, k: int) -> Seq<Va>
    decreases k,
{
    if k <= 0 || pattern.len() == 0 {
        Seq::empty()
    } else if hits(bytes, pattern, k - 1) {
        found(bytes, pattern, start, k - 1).push(Va(wrap_add(start.0, (k - 1) as u64)))
    } else {
        found(bytes, pattern, start, k - 1)
    }
}

fn is_hit(bytes: &Vec<u8>, pattern: &Vec<AobByte>, i: usize) -> (r: bool)
    requires
        i + pattern@.len() <= bytes@.len(),
    ensures
        r == hits(bytes@, pattern@, i as int),
{
    let n: usize = bytes.len();
    let mut k: usize = 0;
    while k < pattern.len()
        invariant
            n == bytes@.len(),
            k <= pattern@.len(),
            i + pattern@.len() <= n,
            forall|j: int| 0 <= j < k ==> fits(#[trigger] pattern@[j], bytes@[i + j]),
        decreases pattern@.len() - k,
    {
        let ok = match pattern[k] {
            AobByte::Exact(b) => bytes[i + k] == b,
            AobByte::Wildcard => true,
        };
        if !ok {
            assert(!fits(pattern@[k as int], bytes@[i + k]));
            return false;
        }
        k = k + 1;
    }
    true
}

proof fn lemma_no_more(bytes: Seq<u8>, pattern: Seq<AobByte>, start: Va, k: int)
    requires
        bytes.len() + 1 - pattern.len() <= k,
    ensures
        found(bytes, pattern, start, k) == found(bytes, pattern, start, bytes.len() + 1 - pattern.len()),
    decreases k - (bytes.len() + 1 - pattern.len()),
{
    if k > bytes.len() + 1 - pattern.len() {
        lemma_no_more(bytes, pattern, start, k - 1);
    }
}

/// Searches memory for a pattern.
#[derive(Clone, Copy, Debug, Default)]
pub struct AobScanPass;

impl AobScanPass {
    pub fn name(&self) -> (r: &'static str)
        ensures
            r@ == "scan.aob"@,
    {
        "scan.aob"
    }

    /// Finds every place at which the pattern fits, in ascending order. An empty
    /// pattern is found nowhere.
    pub fn run(&self, ctx: &Ctx, input: AobInput) -> (r: Result<AobArtifact, CoreError>)
        ensures
            match r {
                Ok(a) => ctx.source.read_of(input.start.0, input.size as nat) matches Some(b) && a.matches@ == found(
                    b,
                    input.pattern@,
                    input.start,
                    b.len() as int,
                ) && a.bytes_scanned == b.len(),
                Err(e) => ctx.source.read_of(input.start.0, input.size as nat) is None && e.fault()
                    == CoreFault::Source(SourceError::Unmapped(input.start)),
            },
    {
        let bytes = match ctx.source.read(input.start, input.size) {
            Ok(b) => b,
            Err(e) => {
                return Err(CoreError::Source(e));
            },
        };
        let n: usize = bytes.len();
        let plen: usize = input.pattern.len();
        let mut matches: Vec<Va> = Vec::new();
        let ghost p = input.pattern@;
        if plen == 0 || n < plen {
            proof {
                if plen > 0 {
                    lemma_no_more(bytes@, p, input.start, n as int);
                }
                assert(matches@ =~= Seq::<Va>::empty());
            }
            return Ok(AobArtifact { matches, bytes_scanned: n });
        }
        let last: usize = n - plen;
        let mut i: usize = 0;
        let mut going: bool = true;
        while going
            invariant
                n == bytes@.len(),
                p == input.pattern@,
                plen == p.len(),
                0 < plen <= n,
                last == n - plen,
                going ==> i <= last,
                matches@ == found(
                    bytes@,
                    p,
                    input.start,
                    if going {
                        i as int
                    } else {
                        last + 1
                    },
                ),
            decreases n - i, going as int,
        {
            if is_hit(&bytes, &input.pattern, i) {
                matches.push(input.start.offset(i as u64));
            }
            if i == last {
                going = false;
            } else {
                i = i + 1;
            }
        }
        proof {
            lemma_no_more(bytes@, p, input.start, n as int);
        }
        Ok(AobArtifact { matches, bytes_scanned: n })
    }
}

// ---------------------------------------------------------------------------
// Laws
// ---------------------------------------------------------------------------

proof fn lemma_found(bytes: Seq<u8>, pattern: Seq<AobByte>, start: Va, k: int, a: Va)
    requires
        0 <= k <= bytes.len(),
        pattern.len() > 0,
    ensures
        found(bytes, pattern, start, k).contains(a) <==> exists|i: int|
            0 <= i < k && #[trigger] hits(bytes, pattern, i) && a == Va(wrap_add(start.0, i as u64)),
    decreases k,
{
    if k > 0 {
        lemma_found(bytes, pattern, start, k - 1, a);
        let s = found(bytes, pattern, start, k - 1);
        let x = Va(wrap_add(start.0, (k - 1) as u64));
        let t = s.push(x);
        if s.contains(a) {
            let i = choose|i: int| 0 <= i < s.len() && s[i] == a;
            assert(t[i] == a);
        }
        if t.contains(a) && a != x {
            let i = choose|i: int| 0 <= i < t.len() && t[i] == a;
            assert(s[i] == a);
        }
        assert(t[s.len() as int] == x);
    }
}

/// A search reports exactly the addresses at which the pattern fits.
pub proof fn a_search_finds_all_and_nothing_else(bytes: Seq<u8>, pattern: Seq<AobByte>, start: Va, a: Va)
    requires
        pattern.len() > 0,
    ensures
        found(bytes, pattern, start, bytes.len() as int).contains(a) <==> exists|i: int|
            0 <= i < bytes.len() && #[trigger] hits(bytes, pattern, i) && a == Va(wrap_add(start.0, i as u64)),
{
    lemma_found(bytes, pattern, start, bytes.len() as int, a);
}

/// Whether a pattern fits does not depend on the bytes under its wildcards.
pub proof fn wildcards_ignore_their_bytes(bytes: Seq<u8>, pattern: Seq<AobByte>, i: int, k: int, b: u8)
    requires
        0 <= i,
        i + pattern.len() <= bytes.len(),
        0 <= k < pattern.len(),
        pattern[k] is Wildcard,
    ensures
        hits(bytes, pattern, i) == hits(bytes.update(i + k, b), pattern, i),
{
    let c = bytes.update(i + k, b);
    assert forall|j: int| 0 <= j < pattern.len() implies fits(#[trigger] pattern[j], bytes[i + j]) == fits(
        pattern[j],
        c[i + j],
    ) by {}
    if hits(bytes, pattern, i) {
        assert forall|j: int| 0 <= j < pattern.len() implies fits(#[trigger] pattern[j], c[i + j]) by {
            assert(fits(pattern[j], bytes[i + j]));
        }
    }
    if hits(c, pattern, i) {
        assert forall|j: int| 0 <= j < pattern.len() implies fits(#[trigger] pattern[j], bytes[i + j]) by {
            assert(fits(pattern[j], c[i + j]));
        }
    }
}

/// Two hexadecimal digits spell a byte, the higher one first; one digit spells itself;
/// a question mark, or two, stand for any byte; and what holds another character stands
/// for nothing.
pub proof fn tokens_spell_bytes(x: char, y: char, a: nat, b: nat)
    requires
        hex_digit(x) == Some(a),
        hex_digit(y) == Some(b),
    ensures
        token(seq![x, y]) == Some(AobByte::Exact((16 * a + b) as u8)),
        token(seq![x]) == Some(AobByte::Exact(a as u8)),
        token(seq!['?']) == Some(AobByte::Wildcard),
        token(seq!['?', '?']) == Some(AobByte::Wildcard),
        token(seq![x, '?']) is None,
        token(seq!['g', y]) is None,
{
    reveal_strlit("?");
    reveal_strlit("??");
    assert("?"@ =~= seq!['?']);
    assert("??"@ =~= seq!['?', '?']);
    assert("?"@[0] == '?' && "??"@[0] == '?');
    let w = seq![x, y];
    let v = seq![x];
    let u = seq![x, '?'];
    let t = seq!['g', y];
    assert(w[0] == x && w[1] == y && v[0] == x && u[0] == x && u[1] == '?' && t[0] == 'g' && t[1] == y);
    reveal_with_fuel(hex_value, 3);
}

/// The digits have their values, in either case of the letters.
pub proof fn digits_have_their_values(c: char)
    ensures
        '0' <= c <= '9' ==> hex_digit(c) == Some((c as u32 - '0' as u32) as nat),
        'a' <= c <= 'f' ==> hex_digit(c) == Some((10 + c as u32 - 'a' as u32) as nat),
        'A' <= c <= 'F' ==> hex_digit(c) == Some((10 + c as u32 - 'A' as u32) as nat),
        'g' <= c <= 'z' || 'G' <= c <= 'Z' ==> hex_digit(c) is None,
{
}

/// An exact byte fits itself alone, and a wildcard any.
pub proof fn bytes_fit_themselves(x: u8, b: u8)
    ensures
        fits(AobByte::Exact(x), b) <==> x == b,
        fits(AobByte::Wildcard, b),
{
}

} // verus!
