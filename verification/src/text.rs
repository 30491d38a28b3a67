//! Text as sequences of characters: searching, trimming, ordering, and the
//! decimal and hexadecimal spelling of numbers.

use vstd::prelude::*;
use vstd::string::{StrSliceExecFns, StringExecFns};

verus! {

/// `String::push` appends one character.
pub assume_specification[ String::push ](s: &mut String, c: char)
    ensures
        final(s)@ == old(s)@.push(c),
;

/// The characters of `s`.
pub fn chars_of(s: &str) -> (v: Vec<char>)
    ensures
        v@ == s@,
{
    let mut v: Vec<char> = Vec::new();
    for c in it: s.chars()
        invariant
            v@.len() == it.index(),
            forall|j: int| 0 <= j < v@.len() ==> v@[j] == it.seq()[j],
    {
        v.push(c);
    }
    assert(v@ =~= s@);
    v
}

/// The text made of the characters `from..to` of `v`.
pub fn string_of(v: &[char], from: usize, to: usize) -> (s: String)
    requires
        from <= to <= v@.len(),
    ensures
        s@ == v@.subrange(from as int, to as int),
{
    let mut s: String = String::new();
    let mut k: usize = from;
    while k < to
        invariant
            from <= k <= to <= v@.len(),
            s@ == v@.subrange(from as int, k as int),
        decreases to - k,
    {
        s.push(v[k]);
        proof {
            assert(v@.subrange(from as int, k + 1) =~= v@.subrange(from as int, k as int).push(
                v@[k as int],
            ));
        }
        k = k + 1;
    }
    s
}

// ---------------------------------------------------------------------------
// Searching
// ---------------------------------------------------------------------------

/// The first index at or after `k` where `s` holds `c`.
pub open spec fn first_from(s: Seq<char>, c: char, k: int) -> Option<int>
    decreases s.len() - k,
{
    if k < 0 || k >= s.len() {
        None
    } else if s[k] == c {
        Some(k)
    } else {
        first_from(s, c, k + 1)
    }
}

/// The first index where `s` holds `c`.
pub open spec fn first_index(s: Seq<char>, c: char) -> Option<int> {
    first_from(s, c, 0)
}

pub proof fn lemma_first_from(s: Seq<char>, c: char, k: int)
    requires
        0 <= k <= s.len(),
    ensures
        match first_from(s, c, k) {
            Some(i) => k <= i < s.len() && s[i] == c && forall|j: int| k <= j < i ==> s[j] != c,
            None => forall|j: int| k <= j < s.len() ==> s[j] != c,
        },
    decreases s.len() - k,
{
    if k < s.len() && s[k] != c {
        lemma_first_from(s, c, k + 1);
    }
}

/// Where `c` first stands in `v`.
pub fn find_char(v: &[char], c: char) -> (r: Option<usize>)
    ensures
        match (r, first_index(v@, c)) {
            (Some(i), Some(j)) => i == j && i < v@.len(),
            (None, None) => true,
            _ => false,
        },
{
    let mut k: usize = 0;
    while k < v.len()
        invariant
            k <= v@.len(),
            first_index(v@, c) == first_from(v@, c, k as int),
        decreases v@.len() - k,
    {
        if v[k] == c {
            return Some(k);
        }
        k = k + 1;
    }
    None
}

/// `n` stands in `h` at index `k`.
pub open spec fn occurs_at(h: Seq<char>, n: Seq<char>, k: int) -> bool {
    &&& 0 <= k
    &&& k + n.len() <= h.len()
    &&& h.subrange(k, k + n.len()) == n
}

/// Does `n` stand in `h` at index `k`?
pub fn matches_at(h: &[char], n: &[char], k: usize) -> (r: bool)
    ensures
        r == occurs_at(h@, n@, k as int),
{
    if n.len() > h.len() || k > h.len() - n.len() {
        return false;
    }
    let mut j: usize = 0;
    while j < n.len()
        invariant
            j <= n@.len(),
            k + n@.len() <= h.len(),
            forall|i: int| 0 <= i < j ==> h@[k + i] == n@[i],
        decreases n@.len() - j,
    {
        if h[k + j] != n[j] {
            assert(h@.subrange(k as int, k + n@.len())[j as int] != n@[j as int]);
            return false;
        }
        j = j + 1;
    }
    assert(h@.subrange(k as int, k + n@.len()) =~= n@);
    true
}

/// The first index at or after `k` where `n` stands in `h`.
pub open spec fn find_from(h: Seq<char>, n: Seq<char>, k: int) -> Option<int>
    decreases h.len() + 1 - k,
{
    if k < 0 || k > h.len() {
        None
    } else if occurs_at(h, n, k) {
        Some(k)
    } else {
        find_from(h, n, k + 1)
    }
}

/// `h` holds `n` somewhere.
pub open spec fn occurs(h: Seq<char>, n: Seq<char>) -> bool {
    find_from(h, n, 0) is Some
}

pub proof fn lemma_find_from(h: Seq<char>, n: Seq<char>, k: int)
    requires
        0 <= k,
    ensures
        match find_from(h, n, k) {
            Some(i) => k <= i && occurs_at(h, n, i) && forall|j: int| k <= j < i ==> !occurs_at(h, n, j),
            None => forall|j: int| k <= j ==> !occurs_at(h, n, j),
        },
    decreases h.len() + 1 - k,
{
    if k <= h.len() && !occurs_at(h, n, k) {
        lemma_find_from(h, n, k + 1);
    }
}

/// Where `n` first stands in `h`, from index `k` on.
pub fn find_text(h: &[char], n: &[char], k: usize) -> (r: Option<usize>)
    ensures
        match (r, find_from(h@, n@, k as int)) {
            (Some(i), Some(j)) => i == j && i + n@.len() <= h@.len() && k <= i,
            (None, None) => true,
            _ => false,
        },
{
    let mut i: usize = k;
    while i < h.len()
        invariant
            k <= i,
            k <= h@.len() ==> i <= h@.len(),
            find_from(h@, n@, k as int) == find_from(h@, n@, i as int),
        decreases h@.len() - i,
    {
        if matches_at(h, n, i) {
            return Some(i);
        }
        i = i + 1;
    }
    if matches_at(h, n, i) {
        return Some(i);
    }
    proof {
        assert(find_from(h@, n@, i + 1) is None);
    }
    None
}

/// The last index at or below `k` where `n` stands in `h`.
pub open spec fn rfind_from(h: Seq<char>, n: Seq<char>, k: int) -> Option<int>
    decreases k + 1,
{
    if k < 0 {
        None
    } else if occurs_at(h, n, k) {
        Some(k)
    } else {
        rfind_from(h, n, k - 1)
    }
}

/// The last index where `n` stands in `h`.
pub open spec fn last_index(h: Seq<char>, n: Seq<char>) -> Option<int> {
    rfind_from(h, n, h.len() as int)
}

/// Where `n` last stands in `h`.
pub fn rfind_text(h: &[char], n: &[char]) -> (r: Option<usize>)
    ensures
        match (r, last_index(h@, n@)) {
            (Some(i), Some(j)) => i == j && i + n@.len() <= h@.len(),
            (None, None) => true,
            _ => false,
        },
{
    let mut k: usize = h.len();
    if matches_at(h, n, k) {
        return Some(k);
    }
    while k > 0
        invariant
            k <= h@.len(),
            last_index(h@, n@) == rfind_from(h@, n@, k - 1),
        decreases k,
    {
        k = k - 1;
        if matches_at(h, n, k) {
            return Some(k);
        }
    }
    None
}

/// `p` is how `s` starts.
pub open spec fn starts(s: Seq<char>, p: Seq<char>) -> bool {
    occurs_at(s, p, 0)
}

/// `p` is how `s` ends.
pub open spec fn ends(s: Seq<char>, p: Seq<char>) -> bool {
    occurs_at(s, p, s.len() - p.len())
}

/// Does `s` start with `p`?
pub fn starts_with(s: &str, p: &str) -> (r: bool)
    ensures
        r == starts(s@, p@),
{
    matches_at(&chars_of(s), &chars_of(p), 0)
}

/// Does `s` end with `p`?
pub fn ends_with(s: &[char], p: &str) -> (r: bool)
    ensures
        r == ends(s@, p@),
{
    let pc = chars_of(p);
    if pc.len() > s.len() {
        return false;
    }
    matches_at(s, &pc, s.len() - pc.len())
}

/// What follows `p` in a text that starts with it.
pub open spec fn strip(s: Seq<char>, p: Seq<char>) -> Option<Seq<char>> {
    if starts(s, p) {
        Some(s.skip(p.len() as int))
    } else {
        None
    }
}

/// What follows `p` in `s`, if `s` starts with it.
pub fn strip_text<'a>(s: &'a str, p: &str) -> (r: Option<&'a str>)
    ensures
        match (r, strip(s@, p@)) {
            (Some(x), Some(y)) => x@ == y,
            (None, None) => true,
            _ => false,
        },
{
    if starts_with(s, p) {
        let r = s.substring_char(p.unicode_len(), s.unicode_len());
        assert(r@ =~= s@.skip(p@.len() as int));
        Some(r)
    } else {
        None
    }
}

/// The text before the last `c` and the text after it.
pub open spec fn split_at_last(s: Seq<char>, c: char) -> Option<(Seq<char>, Seq<char>)> {
    match last_index(s, seq![c]) {
        Some(k) => Some((s.take(k), s.skip(k + 1))),
        None => None,
    }
}

/// Splits `s` at its last `c`.
pub fn split_last<'a>(s: &'a str, c: char) -> (r: Option<(&'a str, &'a str)>)
    ensures
        match (r, split_at_last(s@, c)) {
            (Some((a, b)), Some((x, y))) => a@ == x && b@ == y,
            (None, None) => true,
            _ => false,
        },
{
    let v = chars_of(s);
    let n: usize = v.len();
    let mut one: Vec<char> = Vec::new();
    one.push(c);
    assert(one@ =~= seq![c]);
    match rfind_text(&v, &one) {
        Some(k) => {
            let a = s.substring_char(0, k);
            let b = s.substring_char(k + 1, n);
            assert(a@ =~= s@.take(k as int));
            assert(b@ =~= s@.skip(k + 1));
            Some((a, b))
        },
        None => None,
    }
}

/// A text up to the first `c`, or all of it.
pub open spec fn up_to(s: Seq<char>, c: char) -> Seq<char> {
    match first_index(s, c) {
        Some(k) => s.take(k),
        None => s,
    }
}

/// The part of a text before the first `c`.
pub fn before_char(s: &str, c: char) -> (r: &str)
    ensures
        r@ == up_to(s@, c),
{
    let v = chars_of(s);
    match find_char(&v, c) {
        Some(k) => {
            assert(v@.subrange(0, k as int) == v@.take(k as int));
            s.substring_char(0, k)
        },
        None => s,
    }
}

/// A text without the white space around it.
pub fn trim_text(s: &str) -> (r: &str)
    ensures
        r@ == trim(s@),
{
    let v = chars_of(s);
    let (a, b) = trimmed(&v, 0, v.len());
    assert(v@.subrange(0, v@.len() as int) =~= v@);
    s.substring_char(a, b)
}

/// What comes before `p` in a text that ends with it.
pub open spec fn strip_end(s: Seq<char>, p: Seq<char>) -> Option<Seq<char>> {
    if ends(s, p) {
        Some(s.take(s.len() - p.len()))
    } else {
        None
    }
}

/// What comes before `p` in `s`, if `s` ends with it.
pub fn strip_end_text<'a>(s: &'a str, p: &str) -> (r: Option<&'a str>)
    ensures
        match (r, strip_end(s@, p@)) {
            (Some(x), Some(y)) => x@ == y,
            (None, None) => true,
            _ => false,
        },
{
    let v = chars_of(s);
    if ends_with(&v, p) {
        let n: usize = v.len() - p.unicode_len();
        let r = s.substring_char(0, n);
        assert(r@ =~= s@.take(n as int));
        Some(r)
    } else {
        None
    }
}

/// Does `h` hold `n` anywhere?
pub fn contains_text(h: &str, n: &str) -> (r: bool)
    ensures
        r == occurs(h@, n@),
{
    find_text(&chars_of(h), &chars_of(n), 0).is_some()
}

/// A text without its spaces.
pub open spec fn without_spaces(s: Seq<char>) -> Seq<char> {
    s.filter(|c: char| c != ' ')
}

/// A text without its spaces.
pub fn drop_spaces(s: &str) -> (v: Vec<char>)
    ensures
        v@ == without_spaces(s@),
{
    let all = chars_of(s);
    let mut v: Vec<char> = Vec::new();
    let mut k: usize = 0;
    let ghost f = |c: char| c != ' ';
    proof {
        reveal(Seq::filter);
    }
    while k < all.len()
        invariant
            k <= all@.len(),
            f == (|c: char| c != ' '),
            v@ == all@.take(k as int).filter(f),
        decreases all@.len() - k,
    {
        let c: char = all[k];
        proof {
            reveal(Seq::filter);
            assert(all@.take(k + 1).drop_last() =~= all@.take(k as int));
            assert(all@.take(k + 1).last() == c);
        }
        if c != ' ' {
            v.push(c);
        }
        k = k + 1;
    }
    assert(all@.take(k as int) =~= all@);
    v
}

/// Is this the same text?
pub fn same(a: &str, b: &str) -> (r: bool)
    ensures
        r == (a@ == b@),
{
    let x = chars_of(a);
    let y = chars_of(b);
    if x.len() != y.len() {
        return false;
    }
    let mut k: usize = 0;
    while k < x.len()
        invariant
            k <= x@.len(),
            x@ == a@,
            y@ == b@,
            x@.len() == y@.len(),
            forall|j: int| 0 <= j < k ==> x@[j] == y@[j],
        decreases x@.len() - k,
    {
        if x[k] != y[k] {
            return false;
        }
        k = k + 1;
    }
    assert(x@ =~= y@);
    true
}

// ---------------------------------------------------------------------------
// White space
// ---------------------------------------------------------------------------

/// The characters with the Unicode property White_Space.
pub open spec fn is_space(c: char) -> bool {
    let u = c as u32;
    ||| 0x09 <= u <= 0x0d
    ||| u == 0x20
    ||| u == 0x85
    ||| u == 0xa0
    ||| u == 0x1680
    ||| 0x2000 <= u <= 0x200a
    ||| u == 0x2028
    ||| u == 0x2029
    ||| u == 0x202f
    ||| u == 0x205f
    ||| u == 0x3000
}

/// Is `c` white space?
pub fn is_whitespace(c: char) -> (r: bool)
    ensures
        r == is_space(c),
{
    let u: u32 = c as u32;
    (0x09 <= u && u <= 0x0d) || u == 0x20 || u == 0x85 || u == 0xa0 || u == 0x1680 || (0x2000 <= u && u
        <= 0x200a) || u == 0x2028 || u == 0x2029 || u == 0x202f || u == 0x205f || u == 0x3000
}

/// `s` without white space at its start.
pub open spec fn trim_start(s: Seq<char>) -> Seq<char>
    decreases s.len(),
{
    if s.len() > 0 && is_space(s[0]) {
        trim_start(s.drop_first())
    } else {
        s
    }
}

/// `s` without white space at its end.
pub open spec fn trim_end(s: Seq<char>) -> Seq<char>
    decreases s.len(),
{
    if s.len() > 0 && is_space(s.last()) {
        trim_end(s.drop_last())
    } else {
        s
    }
}

/// `s` without white space at either end.
pub open spec fn trim(s: Seq<char>) -> Seq<char> {
    trim_end(trim_start(s))
}

/// The first index of `v[from..to]` that is not white space, or `to`.
pub fn skip_space(v: &[char], from: usize, to: usize) -> (r: usize)
    requires
        from <= to <= v@.len(),
    ensures
        from <= r <= to,
        trim_start(v@.subrange(from as int, to as int)) == v@.subrange(r as int, to as int),
{
    let mut k: usize = from;
    while k < to && is_whitespace(v[k])
        invariant
            from <= k <= to <= v@.len(),
            trim_start(v@.subrange(from as int, to as int)) == trim_start(
                v@.subrange(k as int, to as int),
            ),
        decreases to - k,
    {
        proof {
            assert(v@.subrange(k as int, to as int).drop_first() =~= v@.subrange(k + 1, to as int));
        }
        k = k + 1;
    }
    k
}

/// The index after the last character of `v[from..to]` that is not white
/// space, or `from`.
pub fn skip_space_back(v: &[char], from: usize, to: usize) -> (r: usize)
    requires
        from <= to <= v@.len(),
    ensures
        from <= r <= to,
        trim_end(v@.subrange(from as int, to as int)) == v@.subrange(from as int, r as int),
{
    let mut k: usize = to;
    while k > from && is_whitespace(v[k - 1])
        invariant
            from <= k <= to <= v@.len(),
            trim_end(v@.subrange(from as int, to as int)) == trim_end(
                v@.subrange(from as int, k as int),
            ),
        decreases k - from,
    {
        proof {
            assert(v@.subrange(from as int, k as int).drop_last() =~= v@.subrange(from as int, k - 1));
        }
        k = k - 1;
    }
    k
}

/// `v[from..to]` without white space at either end.
pub fn trimmed(v: &[char], from: usize, to: usize) -> (r: (usize, usize))
    requires
        from <= to <= v@.len(),
    ensures
        from <= r.0 <= r.1 <= to,
        trim(v@.subrange(from as int, to as int)) == v@.subrange(r.0 as int, r.1 as int),
{
    let a: usize = skip_space(v, from, to);
    let b: usize = skip_space_back(v, a, to);
    (a, b)
}

// ---------------------------------------------------------------------------
// Numbers
// ---------------------------------------------------------------------------

/// The spelling of a digit below sixteen.
pub open spec fn digit(d: int, upper: bool) -> char {
    if d < 10 {
        (48 + d) as u8 as char
    } else if upper {
        (55 + d) as u8 as char
    } else {
        (87 + d) as u8 as char
    }
}

/// The spelling of `n` in base `b` (at most sixteen), without leading zeros.
pub open spec fn spell(n: nat, b: nat, upper: bool) -> Seq<char>
    decreases n,
{
    if b < 2 || n < b {
        seq![digit(n as int, upper)]
    } else {
        proof {
            assert(n / b < n) by (nonlinear_arith)
                requires
                    n >= b,
                    b >= 2,
            ;
        }
        spell(n / b, b, upper).push(digit((n % b) as int, upper))
    }
}

/// Decimal spelling.
pub open spec fn dec(n: nat) -> Seq<char> {
    spell(n, 10, false)
}

/// Lower-case hexadecimal spelling.
pub open spec fn hex(n: nat) -> Seq<char> {
    spell(n, 16, false)
}

/// `s` with zeros in front, up to `width` characters.
pub open spec fn zero_padded(s: Seq<char>, width: nat) -> Seq<char> {
    if s.len() >= width {
        s
    } else {
        Seq::new((width - s.len()) as nat, |i: int| '0') + s
    }
}

fn digit_of(d: u8, upper: bool) -> (c: char)
    requires
        d < 16,
    ensures
        c == digit(d as int, upper),
{
    if d < 10 {
        (48 + d) as char
    } else if upper {
        (55 + d) as char
    } else {
        (87 + d) as char
    }
}

/// The digits of `n` in base `b`.
pub fn spell_digits(n: u64, b: u64, upper: bool) -> (v: Vec<char>)
    requires
        2 <= b <= 16,
    ensures
        v@ == spell(n as nat, b as nat, upper),
    decreases n,
{
    if n < b {
        let mut v: Vec<char> = Vec::new();
        v.push(digit_of(n as u8, upper));
        assert(v@ =~= seq![digit(n as int, upper)]);
        v
    } else {
        proof {
            assert(n / b < n) by (nonlinear_arith)
                requires
                    n >= b,
                    b >= 2,
            ;
            assert(n % b < b) by (nonlinear_arith)
                requires
                    b >= 2,
            ;
        }
        let mut v = spell_digits(n / b, b, upper);
        v.push(digit_of((n % b) as u8, upper));
        v
    }
}

/// Decimal spelling of `n`.
pub fn decimal(n: u64) -> (s: String)
    ensures
        s@ == dec(n as nat),
{
    let v = spell_digits(n, 10, false);
    let s = string_of(&v, 0, v.len());
    assert(v@.subrange(0, v@.len() as int) =~= v@);
    s
}

/// Hexadecimal spelling of `n`, at least `width` characters wide.
pub fn hexadecimal(n: u64, upper: bool, width: usize) -> (s: String)
    ensures
        s@ == zero_padded(spell(n as nat, 16, upper), width as nat),
{
    let v = spell_digits(n, 16, upper);
    let mut s: String = String::new();
    let digits = string_of(&v, 0, v.len());
    assert(v@.subrange(0, v@.len() as int) =~= v@);
    let mut k: usize = v.len();
    while k < width
        invariant
            v@.len() <= k,
            k <= width || k == v@.len(),
            s@ == Seq::new((k - v@.len()) as nat, |i: int| '0'),
        decreases width - k,
    {
        s.push('0');
        k = k + 1;
        assert(s@ =~= Seq::new((k - v@.len()) as nat, |i: int| '0'));
    }
    s.append(digits.as_str());
    assert(v@.len() >= width ==> s@ =~= v@);
    s
}

// ---------------------------------------------------------------------------
// Reading numbers
// ---------------------------------------------------------------------------

pub open spec fn is_digit(c: char) -> bool {
    '0' <= c <= '9'
}

/// The number that the first `k` characters spell, where all are digits.
pub open spec fn digits_value(s: Seq<char>, k: int) -> Option<nat>
    decreases k,
{
    if k <= 0 {
        Some(0)
    } else {
        match digits_value(s, k - 1) {
            Some(v) => if is_digit(s[k - 1]) {
                Some(10 * v + (s[k - 1] as u32 - 48) as nat)
            } else {
                None
            },
            None => None,
        }
    }
}

/// The number that a text spells: digits, perhaps behind a plus sign, that fit a
/// machine word.
pub open spec fn parsed(s: Seq<char>) -> Option<usize> {
    let d = if s.len() > 0 && s[0] == '+' {
        s.skip(1)
    } else {
        s
    };
    if d.len() == 0 {
        None
    } else {
        match digits_value(d, d.len() as int) {
            Some(v) => if v <= usize::MAX {
                Some(v as usize)
            } else {
                None
            },
            None => None,
        }
    }
}

/// A decimal spelling holds digits alone, and they give back the number.
pub proof fn decimals_read_back(n: nat)
    ensures
        dec(n).len() > 0,
        forall|i: int| 0 <= i < dec(n).len() ==> is_digit(#[trigger] dec(n)[i]),
        digits_value(dec(n), dec(n).len() as int) == Some(n),
    decreases n,
{
    reveal_with_fuel(spell, 2);
    if n < 10 {
        assert(digits_value(dec(n), 0) == Some(0nat));
    } else {
        decimals_read_back(n / 10);
        let front = dec(n / 10);
        let k = front.len() as int;
        assert(dec(n) =~= front.push(digit(n as int % 10, false)));
        lemma_digits_prefix(front, dec(n), k);
    }
}

proof fn lemma_digits_prefix(a: Seq<char>, b: Seq<char>, k: int)
    requires
        k <= a.len(),
        k <= b.len(),
        forall|i: int| 0 <= i < k ==> a[i] == b[i],
    ensures
        digits_value(a, k) == digits_value(b, k),
    decreases k,
{
    if k > 0 {
        lemma_digits_prefix(a, b, k - 1);
    }
}

/// A number that something else than a digit follows ends there: two texts that
/// start so and are equal start with the same number.
pub proof fn decimals_end(m: nat, n: nat, c: char, x: Seq<char>, y: Seq<char>)
    requires
        !is_digit(c),
        dec(m) + seq![c] + x == dec(n) + seq![c] + y,
    ensures
        m == n,
        x == y,
{
    decimals_read_back(m);
    decimals_read_back(n);
    let a = dec(m) + seq![c] + x;
    let b = dec(n) + seq![c] + y;
    let (i, j) = (dec(m).len() as int, dec(n).len() as int);
    assert(a[i] == c && b[j] == c);
    if i < j {
        assert(b[i] == dec(n)[i]);
    }
    if j < i {
        assert(a[j] == dec(m)[j]);
    }
    assert(dec(m) =~= a.take(i));
    assert(dec(n) =~= b.take(j));
    assert(x =~= a.skip(i + 1));
    assert(y =~= b.skip(j + 1));
}

proof fn lemma_digits_grow(s: Seq<char>, i: int, k: int)
    requires
        0 <= i <= k <= s.len(),
    ensures
        digits_value(s, i) is None ==> digits_value(s, k) is None,
        digits_value(s, k) matches Some(w) ==> (digits_value(s, i) matches Some(v) && v <= w),
    decreases k,
{
    if i < k {
        lemma_digits_grow(s, i, k - 1);
    }
}

/// Reads a number.
pub fn parse_number(s: &str) -> (r: Option<usize>)
    ensures
        r == parsed(s@),
{
    let v = chars_of(s);
    let n: usize = v.len();
    let from: usize = if n > 0 && v[0] == '+' {
        1
    } else {
        0
    };
    let ghost d = v@.skip(from as int);
    assert(v@.skip(0) =~= v@);
    if from == n {
        return None;
    }
    let mut acc: usize = 0;
    let mut k: usize = from;
    while k < n
        invariant
            from <= k <= n,
            n == v@.len(),
            d == v@.skip(from as int),
            d.len() > 0,
            parsed(s@) == match digits_value(d, d.len() as int) {
                Some(v) => if v <= usize::MAX {
                    Some(v as usize)
                } else {
                    None
                },
                None => None,
            },
            digits_value(d, k - from) == Some(acc as nat),
        decreases n - k,
    {
        let c: char = v[k];
        proof {
            lemma_digits_grow(d, k + 1 - from, d.len() as int);
            assert(d[k - from] == c);
        }
        if !('0' <= c && c <= '9') {
            return None;
        }
        let x: usize = (c as u32 - 48) as usize;
        match acc.checked_mul(10) {
            Some(t) => match t.checked_add(x) {
                Some(u) => {
                    acc = u;
                },
                None => {
                    return None;
                },
            },
            None => {
                return None;
            },
        }
        k = k + 1;
    }
    Some(acc)
}

// ---------------------------------------------------------------------------
// Versioned names
// ---------------------------------------------------------------------------

/// A name up to its first dot: the register that `rdi.7` is a version of.
pub open spec fn root_name(n: Seq<char>) -> Seq<char> {
    match first_index(n, '.') {
        Some(k) => n.take(k),
        None => n,
    }
}

/// The part of a name before its first dot.
pub fn before_dot(name: &str) -> (r: &str)
    ensures
        r@ == root_name(name@),
{
    let v = chars_of(name);
    match find_char(&v, '.') {
        Some(k) => {
            assert(v@.subrange(0, k as int) == v@.take(k as int));
            name.substring_char(0, k)
        },
        None => name,
    }
}

// ---------------------------------------------------------------------------
// Lists
// ---------------------------------------------------------------------------

/// The texts of `v`, with `sep` between one and the next.
pub open spec fn join(v: Seq<Seq<char>>, sep: Seq<char>) -> Seq<char>
    decreases v.len(),
{
    if v.len() == 0 {
        Seq::empty()
    } else if v.len() == 1 {
        v[0]
    } else {
        join(v.drop_last(), sep) + sep + v.last()
    }
}

/// The strings of `v`, with `sep` between one and the next.
pub fn join_texts(v: &Vec<String>, sep: &str) -> (s: String)
    ensures
        s@ == join(v@.map_values(|x: String| x@), sep@),
{
    let ghost all = v@.map_values(|x: String| x@);
    let mut s: String = String::new();
    let mut k: usize = 0;
    while k < v.len()
        invariant
            k <= v@.len(),
            all == v@.map_values(|x: String| x@),
            s@ == join(all.take(k as int), sep@),
        decreases v@.len() - k,
    {
        if k > 0 {
            s.append(sep);
        }
        s.append(v[k].as_str());
        k = k + 1;
        proof {
            assert(all.take(k as int).drop_last() =~= all.take(k - 1));
            assert(all.take(k as int).last() == v@[k - 1]@);
            if k == 1 {
                assert(all.take(0) =~= Seq::<Seq<char>>::empty());
                assert(s@ =~= v@[0]@);
            }
        }
    }
    assert(all.take(k as int) =~= all);
    s
}

// ---------------------------------------------------------------------------
// What the operations on texts do
// ---------------------------------------------------------------------------

/// A text stands in another at an index exactly where the other is what comes before,
/// the text, and what comes after.
pub proof fn texts_stand_between_others(x: Seq<char>, n: Seq<char>, y: Seq<char>)
    ensures
        occurs_at(x + n + y, n, x.len() as int),
        occurs(x + n + y, n),
{
    let h = x + n + y;
    assert(h.subrange(x.len() as int, x.len() + n.len() as int) =~= n);
    lemma_find_from(h, n, 0);
    assert(occurs_at(h, n, x.len() as int));
}

/// What follows a prefix is what is left without it, and what precedes a suffix likewise.
pub proof fn prefixes_and_suffixes_come_off(p: Seq<char>, r: Seq<char>)
    ensures
        strip(p + r, p) == Some(r),
        strip_end(r + p, p) == Some(r),
        starts(p + r, p),
        ends(r + p, p),
{
    assert((p + r).subrange(0, p.len() as int) =~= p);
    assert((p + r).skip(p.len() as int) =~= r);
    assert((r + p).subrange(r.len() as int, r.len() + p.len() as int) =~= p);
    assert((r + p).take(r.len() as int) =~= r);
}

/// What is left without a prefix, with the prefix in front, is the text.
pub proof fn only_prefixes_come_off(s: Seq<char>, p: Seq<char>)
    ensures
        strip(s, p) matches Some(r) ==> s == p + r,
        strip_end(s, p) matches Some(r) ==> s == r + p,
{
    if starts(s, p) {
        assert(s =~= s.subrange(0, p.len() as int) + s.skip(p.len() as int));
    }
    if ends(s, p) {
        assert(s =~= s.take(s.len() - p.len()) + s.subrange(s.len() - p.len(), s.len() - p.len() + p.len() as int));
    }
}

/// A text up to a character is what stands before the first of them, and all of it
/// where there is none.
pub proof fn texts_are_cut_at_the_first(x: Seq<char>, c: char, y: Seq<char>)
    requires
        forall|i: int| 0 <= i < x.len() ==> #[trigger] x[i] != c,
    ensures
        up_to(x + seq![c] + y, c) == x,
        up_to(x, c) == x,
        first_index(x + seq![c] + y, c) == Some(x.len() as int),
        c == '.' ==> root_name(x + seq![c] + y) == x && root_name(x) == x,
{
    let s = x + seq![c] + y;
    lemma_first_from(s, c, 0);
    lemma_first_from(x, c, 0);
    assert(s[x.len() as int] == c);
    match first_from(s, c, 0) {
        Some(i) => {
            if i < x.len() {
                assert(s[i] == x[i]);
            }
        },
        None => {},
    }
    assert(s.take(x.len() as int) =~= x);
}

/// A text is split at the last of a character, which belongs to neither side.
pub proof fn texts_are_split_at_the_last(x: Seq<char>, c: char, y: Seq<char>)
    requires
        forall|i: int| 0 <= i < y.len() ==> #[trigger] y[i] != c,
    ensures
        split_at_last(x + seq![c] + y, c) == Some((x, y)),
        split_at_last(y, c) is None,
{
    let s = x + seq![c] + y;
    let k = x.len() as int;
    assert(s.subrange(k, k + 1) =~= seq![c]);
    lemma_last_stands(s, seq![c], k, s.len() as int);
    assert(s.take(k) =~= x);
    assert(s.skip(k + 1) =~= y);
    lemma_never_stands(y, c, y.len() as int);
}

proof fn lemma_last_stands(s: Seq<char>, n: Seq<char>, k: int, from: int)
    requires
        0 <= k <= from <= s.len(),
        n.len() == 1,
        occurs_at(s, n, k),
        forall|i: int| k < i < s.len() ==> #[trigger] s[i] != n[0],
    ensures
        rfind_from(s, n, from) == Some(k),
    decreases from - k,
{
    if from > k {
        if occurs_at(s, n, from) {
            assert(s.subrange(from, from + n.len())[0] == s[from]);
        }
        lemma_last_stands(s, n, k, from - 1);
    }
}

proof fn lemma_never_stands(s: Seq<char>, c: char, from: int)
    requires
        from <= s.len(),
        forall|i: int| 0 <= i < s.len() ==> #[trigger] s[i] != c,
    ensures
        rfind_from(s, seq![c], from) is None,
    decreases from + 1,
{
    if from >= 0 {
        if occurs_at(s, seq![c], from) {
            assert(s.subrange(from, from + 1)[0] == s[from]);
        }
        lemma_never_stands(s, c, from - 1);
    }
}

/// The white space is what stands around a trimmed text, and none is left at its ends.
pub proof fn trimming_takes_white_space(s: Seq<char>)
    ensures
        ({
            let t = trim(s);
            let a = s.len() - trim_start(s).len();
            &&& a + t.len() <= s.len()
            &&& t == s.subrange(a, a + t.len())
            &&& forall|i: int| 0 <= i < a ==> is_space(#[trigger] s[i])
            &&& forall|i: int| a + t.len() <= i < s.len() ==> is_space(#[trigger] s[i])
            &&& t.len() > 0 ==> !is_space(t[0]) && !is_space(t.last())
        }),
{
    lemma_trim_start(s);
    lemma_trim_end(trim_start(s));
    let a = s.len() - trim_start(s).len();
    let u = trim_start(s);
    let t = trim(s);
    assert(u == s.skip(a));
    assert(t =~= s.subrange(a, a + t.len()));
    assert forall|i: int| a + t.len() <= i < s.len() implies is_space(#[trigger] s[i]) by {
        assert(u[i - a] == s[i]);
    }
    if t.len() > 0 {
        assert(t[0] == u[0]);
    }
}

proof fn lemma_trim_start(s: Seq<char>)
    ensures
        trim_start(s).len() <= s.len(),
        trim_start(s) == s.skip(s.len() - trim_start(s).len()),
        forall|i: int| 0 <= i < s.len() - trim_start(s).len() ==> is_space(#[trigger] s[i]),
        trim_start(s).len() > 0 ==> !is_space(trim_start(s)[0]),
    decreases s.len(),
{
    if s.len() > 0 && is_space(s[0]) {
        let r = s.drop_first();
        lemma_trim_start(r);
        let a = r.len() - trim_start(r).len();
        assert(r.skip(a) =~= s.skip(a + 1));
        assert forall|i: int| 0 <= i < a + 1 implies is_space(#[trigger] s[i]) by {
            if i > 0 {
                assert(r[i - 1] == s[i]);
            }
        }
    } else {
        assert(s.skip(0) =~= s);
    }
}

proof fn lemma_trim_end(s: Seq<char>)
    ensures
        trim_end(s).len() <= s.len(),
        trim_end(s) == s.take(trim_end(s).len() as int),
        forall|i: int| trim_end(s).len() <= i < s.len() ==> is_space(#[trigger] s[i]),
        trim_end(s).len() > 0 ==> !is_space(trim_end(s).last()),
    decreases s.len(),
{
    if s.len() > 0 && is_space(s.last()) {
        let r = s.drop_last();
        lemma_trim_end(r);
        let a = trim_end(r).len() as int;
        assert(r.take(a) =~= s.take(a));
        assert forall|i: int| a <= i < s.len() implies is_space(#[trigger] s[i]) by {
            if i < r.len() {
                assert(r[i] == s[i]);
            }
        }
    } else {
        assert(s.take(s.len() as int) =~= s);
    }
}

/// A number is spelled digit by digit, the highest first: ten digits in base ten, and
/// the letters from `a` to `f` behind them in base sixteen.
pub proof fn numbers_are_spelled_digit_by_digit(n: nat, d: nat)
    ensures
        d < 10 ==> dec(d) == seq![('0' as u8 + d) as u8 as char],
        d < 10 ==> hex(d) == seq![('0' as u8 + d) as u8 as char],
        10 <= d < 16 ==> hex(d) == seq![('a' as u8 + d - 10) as u8 as char],
        n > 0 && d < 10 ==> dec(10 * n + d) == dec(n) + dec(d),
        n > 0 && d < 16 ==> hex(16 * n + d) == hex(n) + hex(d),
{
    reveal_with_fuel(spell, 2);
    if n > 0 && d < 10 {
        assert((10 * n + d) / 10 == n && (10 * n + d) % 10 == d);
        assert(dec(n).push(digit(d as int, false)) =~= dec(n) + dec(d));
    }
    if n > 0 && d < 16 {
        assert((16 * n + d) / 16 == n && (16 * n + d) % 16 == d);
        assert(hex(n).push(digit(d as int, false)) =~= hex(n) + hex(d));
    }
}

/// Padding puts zeros in front and reaches the width.
pub proof fn padding_puts_zeros_in_front(s: Seq<char>, width: nat)
    ensures
        s.len() >= width ==> zero_padded(s, width) == s,
        s.len() < width ==> zero_padded(s, width).len() == width && zero_padded(s, width).skip(width - s.len()) == s && (
        forall|i: int| 0 <= i < width - s.len() ==> #[trigger] zero_padded(s, width)[i] == '0'),
{
    if s.len() < width {
        assert(zero_padded(s, width).skip(width - s.len()) =~= s);
    }
}

/// The spelling of a number that fits a machine word reads as that number, with a plus
/// sign in front too, and what does not begin with a digit or a plus sign reads as none.
pub proof fn spelled_numbers_are_read(n: usize, s: Seq<char>)
    ensures
        parsed(dec(n as nat)) == Some(n),
        parsed(seq!['+'] + dec(n as nat)) == Some(n),
        s.len() == 0 ==> parsed(s) is None,
        s.len() > 0 && !is_digit(s[0]) && s[0] != '+' ==> parsed(s) is None,
{
    decimals_read_back(n as nat);
    let d = dec(n as nat);
    assert(is_digit(d[0]));
    assert((seq!['+'] + d).skip(1) =~= d);
    if s.len() > 0 && !is_digit(s[0]) {
        lemma_no_number(s, s.len() as int);
    }
}

proof fn lemma_no_number(s: Seq<char>, k: int)
    requires
        0 < k <= s.len(),
        !is_digit(s[0]),
    ensures
        digits_value(s, k) is None,
    decreases k,
{
    if k > 1 {
        lemma_no_number(s, k - 1);
    }
}

/// Texts are put together with the separator between any two, and none at the ends.
pub proof fn texts_are_joined_with_the_separator_between(v: Seq<Seq<char>>, x: Seq<char>, sep: Seq<char>)
    ensures
        join(Seq::empty(), sep) == Seq::<char>::empty(),
        join(seq![x], sep) == x,
        v.len() > 0 ==> join(v.push(x), sep) == join(v, sep) + sep + x,
{
    assert(v.push(x).drop_last() =~= v);
}

} // verus!
