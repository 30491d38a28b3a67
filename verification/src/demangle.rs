//! Names as a compiler decorates them, turned back into readable ones.
//!
//! Three schemes are tried in turn: that of Rust, that of MSVC and that of the
//! Itanium C++ ABI. A name that none of them recognizes stays as it is.

use vstd::prelude::*;
use vstd::string::{StrSliceExecFns, StringExecFns};

use crate::ir::opt_text;
use crate::text::{
    chars_of, contains_text, ends, ends_with, find_from, find_text, first_from, is_digit, lemma_find_from,
    lemma_first_from, matches_at, occurs, occurs_at, skip_space_back, starts, starts_with, strip, strip_end,
    strip_end_text, strip_text, trim_end,
};

verus! {

// ---------------------------------------------------------------------------
// The outside demanglers
// ---------------------------------------------------------------------------

/// What `rustc_demangle::try_demangle` makes of a name.
pub uninterp spec fn rust_name_of(name: Seq<char>) -> Option<Seq<char>>;

/// Calls `rustc_demangle::try_demangle` and writes its result in the alternate
/// form, which leaves the trailing hash out. The contract says only that the
/// text depends on the name alone; `None` is an error of the call.
#[verifier::external_body]
fn rust_name(name: &str) -> (r: Option<String>)
    ensures
        opt_text(r) == rust_name_of(name@),
{
    match rustc_demangle::try_demangle(name) {
        Ok(sym) => Some(format!("{sym:#}")),
        Err(_) => None,
    }
}

/// What `msvc_demangler::demangle` makes of a name, under flags given by their
/// bits.
pub uninterp spec fn msvc_name_of(name: Seq<char>, flags: u32) -> Option<Seq<char>>;

/// The longest name that is handed to the MSVC demangler, in characters. It
/// recurses as deep as a name nests; the compiler itself writes no longer name, but
/// the digest of one.
pub const MAX_MSVC_NAME: usize = 4096;

/// The pattern stands in the text, and ends at index `k` at the latest.
pub open spec fn stands_before(s: Seq<char>, p: Seq<char>, k: int) -> bool {
    find_from(s, p, 0) matches Some(i) && i + p.len() <= k
}

/// An encoded string may begin before index `k`: behind `_0` or `_1`, where the type
/// of a symbol is expected. That is behind the end of a scope, or behind the number
/// of a guard.
pub open spec fn string_before(s: Seq<char>, k: int) -> bool {
    ||| stands_before(s, "@_0"@, k)
    ||| stands_before(s, "@_1"@, k)
    ||| (stands_before(s, "?_B"@, k) || stands_before(s, "?__J"@, k)) && (stands_before(s, "_0"@, k) || stands_before(
        s,
        "_1"@,
        k,
    ))
}

/// The two characters from index `k` on can be the digits of an escaped byte,
/// which count from `A` on.
pub open spec fn escape_digits(s: Seq<char>, k: int) -> bool {
    (k < s.len() ==> s[k] >= 'A') && (k + 1 < s.len() ==> s[k + 1] >= 'A')
}

/// The index behind the digits that stand at index `k`.
pub open spec fn digits_end(s: Seq<char>, k: int) -> int
    decreases s.len() - k,
{
    if 0 <= k < s.len() && is_digit(s[k]) {
        digits_end(s, k + 1)
    } else {
        k
    }
}

/// The digits from index `k` on, read behind the number `n`, keep within 32 signed
/// bits.
pub open spec fn digits_fit(s: Seq<char>, k: int, n: int) -> bool
    decreases s.len() - k,
{
    if 0 <= k < s.len() && is_digit(s[k]) {
        let m = 10 * n + (s[k] as int - '0' as int);
        m <= i32::MAX && digits_fit(s, k + 1, m)
    } else {
        true
    }
}

/// Where the parts of the name of a symbol begin: behind its question mark, or behind
/// the letter or digit of an operator.
pub open spec fn parts_start(s: Seq<char>) -> int {
    if s.len() > 2 && s[1] == '?' && (is_digit(s[2]) || 'A' <= s[2] <= 'Z') {
        3
    } else {
        1
    }
}

/// The parts that stand from index `k` to index `p`, if all of them are spelled out:
/// each begins with neither a digit nor a question mark and ends before an `@`.
pub open spec fn spelled_parts(s: Seq<char>, k: int, p: int) -> Option<Seq<Seq<char>>>
    decreases p - k,
{
    if k == p {
        Some(Seq::empty())
    } else if k < 0 || k > p {
        None
    } else {
        match first_from(s, '@', k) {
            Some(e) => if k < e < p && !is_digit(s[k]) && s[k] != '?' {
                match spelled_parts(s, e + 1, p) {
                    Some(v) => Some(seq![s.subrange(k, e)] + v),
                    None => None,
                }
            } else {
                None
            },
            None => None,
        }
    }
}

/// The digit that names the numbered anonymous namespace of a name, where it can be
/// told. Digits count the different parts of a name as they come, and each template
/// counts its own. It can be told where the parts before the namespace are spelled out
/// and all different, no other such namespace stands in the name, and none stands
/// behind the beginning of a template.
pub open spec fn anonymous_digit(s: Seq<char>) -> Option<nat> {
    match find_from(s, "?A0x"@, 0) {
        Some(p) => match (spelled_parts(s, parts_start(s), p), first_from(s, '@', p)) {
            (Some(v), Some(e)) => if v.no_duplicates() && forall|q: int| #[trigger]
                occurs_at(s, "?A0x"@, q) ==> occurs_at(s, s.subrange(p, e + 1), q) && !stands_before(s, "?$"@, q) {
                Some(v.len())
            } else {
                None
            },
            _ => None,
        },
        None => None,
    }
}

/// The digit at index `k` can name a numbered anonymous namespace: one stands before
/// it, and no other digit is known to be its.
pub open spec fn can_name_anonymous(s: Seq<char>, k: int) -> bool {
    stands_before(s, "?A0x"@, k) && (anonymous_digit(s) matches Some(m) ==> s[k] as int - '0' as int == m)
}

/// The guard of a static variable whose number begins at index `k` can be read: the
/// number fits, and what it guards is not an anonymous namespace, written out or
/// named by a digit.
pub open spec fn guard_readable(s: Seq<char>, k: int) -> bool {
    let e = digits_end(s, k);
    &&& digits_fit(s, k, 0)
    &&& !occurs_at(s, "@?A"@, e)
    &&& e + 1 < s.len() && s[e] == '@' && is_digit(s[e + 1]) ==> !can_name_anonymous(s, e + 1)
}

/// A question mark other than the one that begins the name stands before index `k`,
/// with nothing but the letters of a number between them.
pub open spec fn number_before(s: Seq<char>, k: int) -> bool
    decreases k,
{
    1 < k <= s.len() && (s[k - 1] == '?' || 'A' <= s[k - 1] <= 'P' && number_before(s, k - 1))
}

/// A digit stands for a whole name at index `k`: behind the letter of a class, a
/// structure, a union or an enumeration, or where a nested symbol, a pointer to a
/// member or an alias begins.
pub open spec fn digit_name(s: Seq<char>, k: int) -> bool {
    &&& 0 < k < s.len()
    &&& is_digit(s[k])
    &&& {
        ||| s[k - 1] == 'T' || s[k - 1] == 'U' || s[k - 1] == 'V'
        ||| k >= 2 && ((s[k - 2] == 'W' && s[k - 1] == '4') || (s[k - 2] == 'P' && s[k - 1] == '8') || (s[k - 2] == '$'
            && s[k - 1] == 'Y'))
        ||| k >= 2 && s[k - 1] == '?' && (s[k - 2] == '1' || s[k - 2] == 'H' || s[k - 2] == 'I' || s[k - 2] == 'J')
        ||| k >= 3 && s[k - 1] == '?' && s[k - 2] == '?'
    }
}

/// The MSVC demangler reads the name to its end: it is not too long to recurse on,
/// an encoded string has proper escapes, the guard of a static variable can be read,
/// no number that is negated is the least of 32 bits, and no digit can name an
/// anonymous namespace where a symbol is named.
pub open spec fn msvc_readable(s: Seq<char>) -> bool {
    &&& s.len() <= MAX_MSVC_NAME
    &&& forall|k: int| #[trigger] occurs_at(s, "?$"@, k) && string_before(s, k) ==> escape_digits(s, k + 2)
    &&& forall|k: int| #[trigger] occurs_at(s, "$TSS"@, k) ==> guard_readable(s, k + 4)
    &&& forall|k: int| #[trigger] occurs_at(s, "IAAAAAAA@"@, k) ==> !number_before(s, k)
    &&& forall|k: int| #[trigger] digit_name(s, k) ==> !can_name_anonymous(s, k)
}

/// The texts of a list of lists of characters.
pub open spec fn char_lists(v: Seq<Vec<char>>) -> Seq<Seq<char>> {
    v.map_values(|x: Vec<char>| x@)
}

/// Some parts before others that there may be.
pub open spec fn joined_parts(first: Seq<Seq<char>>, rest: Option<Seq<Seq<char>>>) -> Option<Seq<Seq<char>>> {
    match rest {
        Some(v) => Some(first + v),
        None => None,
    }
}

fn is_before(v: &Vec<char>, p: &str, k: usize) -> (r: bool)
    ensures
        r == stands_before(v@, p@, k as int),
{
    let mark = chars_of(p);
    match find_text(v, &mark, 0) {
        Some(i) => {
            proof {
                lemma_find_from(v@, p@, 0);
            }
            k >= mark.len() && i <= k - mark.len()
        },
        None => false,
    }
}

fn is_string_before(v: &Vec<char>, k: usize) -> (r: bool)
    ensures
        r == string_before(v@, k as int),
{
    is_before(v, "@_0", k) || is_before(v, "@_1", k) || ((is_before(v, "?_B", k) || is_before(v, "?__J", k)) && (
    is_before(v, "_0", k) || is_before(v, "_1", k)))
}

fn strings_are_escaped(v: &Vec<char>) -> (r: bool)
    ensures
        r == forall|k: int| #[trigger] occurs_at(v@, "?$"@, k) && string_before(v@, k) ==> escape_digits(v@, k + 2),
{
    let mark = chars_of("?$");
    let n: usize = v.len();
    let mut k: usize = 0;
    proof {
        reveal_strlit("?$");
    }
    while k < n
        invariant
            k <= n,
            n == v@.len(),
            mark@ == "?$"@,
            "?$"@.len() == 2,
            forall|j: int|
                0 <= j < k && #[trigger] occurs_at(v@, "?$"@, j) && string_before(v@, j) ==> escape_digits(v@, j + 2),
        decreases n - k,
    {
        if matches_at(v, &mark, k) && ((n - k > 2 && v[k + 2] < 'A') || (n - k > 3 && v[k + 3] < 'A'))
            && is_string_before(v, k) {
            assert(occurs_at(v@, "?$"@, k as int) && !escape_digits(v@, k + 2));
            return false;
        }
        k = k + 1;
    }
    true
}

fn find_spelled_parts(v: &Vec<char>, from: usize, p: usize) -> (r: Option<Vec<Vec<char>>>)
    requires
        from <= v@.len(),
        p <= v@.len(),
    ensures
        match r {
            Some(parts) => spelled_parts(v@, from as int, p as int) == Some(char_lists(parts@)),
            None => spelled_parts(v@, from as int, p as int) is None,
        },
{
    let mut parts: Vec<Vec<char>> = Vec::new();
    let mut k: usize = from;
    while k < p
        invariant
            from <= k,
            p <= v@.len(),
            k <= v@.len(),
            spelled_parts(v@, from as int, p as int) == joined_parts(
                char_lists(parts@),
                spelled_parts(v@, k as int, p as int),
            ),
        decreases p - k,
    {
        let mut e: usize = k;
        proof {
            lemma_first_from(v@, '@', k as int);
        }
        while e < p && v[e] != '@'
            invariant
                k <= e <= p <= v@.len(),
                forall|j: int| k <= j < e ==> v@[j] != '@',
            decreases p - e,
        {
            e = e + 1;
        }
        if e == p || e == k || ('0' <= v[k] && v[k] <= '9') || v[k] == '?' {
            return None;
        }
        assert(first_from(v@, '@', k as int) == Some(e as int));
        let ghost before = char_lists(parts@);
        let part = vstd::slice::slice_to_vec(vstd::slice::slice_subrange(v.as_slice(), k, e));
        parts.push(part);
        proof {
            assert(char_lists(parts@) =~= before.push(v@.subrange(k as int, e as int)));
            match spelled_parts(v@, e + 1, p as int) {
                Some(rest) => {
                    assert(before + (seq![v@.subrange(k as int, e as int)] + rest) =~= char_lists(parts@) + rest);
                },
                None => {},
            }
        }
        k = e + 1;
    }
    if k > p {
        return None;
    }
    proof {
        assert(char_lists(parts@) + Seq::<Seq<char>>::empty() =~= char_lists(parts@));
    }
    Some(parts)
}

fn are_different(parts: &Vec<Vec<char>>) -> (r: bool)
    ensures
        r == char_lists(parts@).no_duplicates(),
{
    let n: usize = parts.len();
    let mut i: usize = 0;
    while i < n
        invariant
            i <= n,
            n == parts@.len(),
            forall|a: int, b: int| 0 <= a < i && a < b < n ==> (#[trigger] parts@[a])@ != (#[trigger] parts@[b])@,
        decreases n - i,
    {
        let mut j: usize = i + 1;
        while j < n
            invariant
                i < j <= n,
                n == parts@.len(),
                forall|b: int| i < b < j ==> parts@[i as int]@ != (#[trigger] parts@[b])@,
            decreases n - j,
        {
            if parts[i].len() == parts[j].len() && matches_at(&parts[i], &parts[j], 0) {
                proof {
                    let all = char_lists(parts@);
                    assert(parts@[i as int]@.subrange(0, parts@[j as int]@.len() as int) =~= parts@[i as int]@);
                    assert(all[i as int] == all[j as int]);
                }
                return false;
            }
            assert(parts@[i as int]@ != parts@[j as int]@) by {
                if parts@[i as int]@ == parts@[j as int]@ {
                    assert(parts@[i as int]@.subrange(0, parts@[j as int]@.len() as int) =~= parts@[i as int]@);
                }
            }
            j = j + 1;
        }
        i = i + 1;
    }
    proof {
        let all = char_lists(parts@);
        assert forall|a: int, b: int| 0 <= a < all.len() && 0 <= b < all.len() && a != b implies all[a] != all[b] by {
            if a < b {
                assert(parts@[a]@ != parts@[b]@);
            } else {
                assert(parts@[b]@ != parts@[a]@);
            }
        }
    }
    true
}

/// Wherever `mark` stands in the text, `whole` stands, and no template has begun.
fn all_are(v: &Vec<char>, mark: &Vec<char>, whole: &Vec<char>) -> (r: bool)
    requires
        mark@.len() > 0,
    ensures
        r == forall|q: int| #[trigger]
            occurs_at(v@, mark@, q) ==> occurs_at(v@, whole@, q) && !stands_before(v@, "?$"@, q),
{
    let mut k: usize = 0;
    while k < v.len()
        invariant
            k <= v@.len(),
            mark@.len() > 0,
            forall|q: int|
                0 <= q < k && #[trigger] occurs_at(v@, mark@, q) ==> occurs_at(v@, whole@, q) && !stands_before(
                    v@,
                    "?$"@,
                    q,
                ),
        decreases v@.len() - k,
    {
        if matches_at(v, mark, k) && (!matches_at(v, whole, k) || is_before(v, "?$", k)) {
            assert(occurs_at(v@, mark@, k as int));
            return false;
        }
        k = k + 1;
    }
    true
}

fn find_anonymous_digit(v: &Vec<char>) -> (r: Option<usize>)
    ensures
        match r {
            Some(m) => anonymous_digit(v@) == Some(m as nat),
            None => anonymous_digit(v@) is None,
        },
{
    let mark = chars_of("?A0x");
    let p: usize = match find_text(v, &mark, 0) {
        Some(p) => p,
        None => {
            return None;
        },
    };
    proof {
        lemma_find_from(v@, "?A0x"@, 0);
        reveal_strlit("?A0x");
    }
    let from: usize = if v.len() > 2 && v[1] == '?' && (('0' <= v[2] && v[2] <= '9') || ('A' <= v[2] && v[2] <= 'Z')) {
        3
    } else {
        1
    };
    assert(from == parts_start(v@));
    let parts = match find_spelled_parts(v, from, p) {
        Some(parts) => parts,
        None => {
            return None;
        },
    };
    let mut e: usize = p;
    proof {
        lemma_first_from(v@, '@', p as int);
    }
    while e < v.len() && v[e] != '@'
        invariant
            p <= e <= v@.len(),
            forall|j: int| p <= j < e ==> v@[j] != '@',
        decreases v@.len() - e,
    {
        e = e + 1;
    }
    if e == v.len() {
        return None;
    }
    assert(first_from(v@, '@', p as int) == Some(e as int));
    let whole = vstd::slice::slice_to_vec(vstd::slice::slice_subrange(v.as_slice(), p, e + 1));
    if !are_different(&parts) || !all_are(v, &mark, &whole) {
        return None;
    }
    Some(parts.len())
}

fn is_anonymous_named(v: &Vec<char>, k: usize) -> (r: bool)
    requires
        k < v@.len(),
        is_digit(v@[k as int]),
    ensures
        r == can_name_anonymous(v@, k as int),
{
    if !is_before(v, "?A0x", k) {
        return false;
    }
    match find_anonymous_digit(v) {
        Some(m) => (v[k] as u32 - '0' as u32) as usize == m,
        None => true,
    }
}

fn is_guard_readable(v: &Vec<char>, from: usize) -> (r: bool)
    requires
        from <= v@.len(),
    ensures
        r == guard_readable(v@, from as int),
{
    let mut n: u64 = 0;
    let mut k: usize = from;
    while k < v.len() && '0' <= v[k] && v[k] <= '9'
        invariant
            from <= k <= v@.len(),
            n <= i32::MAX,
            digits_end(v@, k as int) == digits_end(v@, from as int),
            digits_fit(v@, k as int, n as int) == digits_fit(v@, from as int, 0),
        decreases v@.len() - k,
    {
        n = 10 * n + (v[k] as u64 - '0' as u64);
        if n > 2147483647 {
            return false;
        }
        k = k + 1;
    }
    assert(digits_end(v@, k as int) == k);
    if matches_at(v, &chars_of("@?A"), k) {
        return false;
    }
    let named = v.len() - k > 1 && v[k] == '@' && '0' <= v[k + 1] && v[k + 1] <= '9';
    !named || !is_anonymous_named(v, k + 1)
}

fn guards_are_readable(v: &Vec<char>) -> (r: bool)
    ensures
        r == forall|k: int| #[trigger] occurs_at(v@, "$TSS"@, k) ==> guard_readable(v@, k + 4),
{
    let mark = chars_of("$TSS");
    let n: usize = v.len();
    let mut k: usize = 0;
    proof {
        reveal_strlit("$TSS");
    }
    while k < n
        invariant
            k <= n,
            n == v@.len(),
            mark@ == "$TSS"@,
            "$TSS"@.len() == 4,
            forall|j: int| 0 <= j < k && #[trigger] occurs_at(v@, "$TSS"@, j) ==> guard_readable(v@, j + 4),
        decreases n - k,
    {
        if matches_at(v, &mark, k) && !is_guard_readable(v, k + 4) {
            assert(occurs_at(v@, "$TSS"@, k as int) && !guard_readable(v@, k + 4));
            return false;
        }
        k = k + 1;
    }
    true
}

fn is_number_before(v: &Vec<char>, to: usize) -> (r: bool)
    requires
        to <= v@.len(),
    ensures
        r == number_before(v@, to as int),
{
    let mut k: usize = to;
    while k > 1 && 'A' <= v[k - 1] && v[k - 1] <= 'P'
        invariant
            k <= to <= v@.len(),
            number_before(v@, k as int) == number_before(v@, to as int),
        decreases k,
    {
        k = k - 1;
    }
    k > 1 && v[k - 1] == '?'
}

fn negations_fit(v: &Vec<char>) -> (r: bool)
    ensures
        r == forall|k: int| #[trigger] occurs_at(v@, "IAAAAAAA@"@, k) ==> !number_before(v@, k),
{
    let mark = chars_of("IAAAAAAA@");
    let n: usize = v.len();
    let mut k: usize = 0;
    proof {
        reveal_strlit("IAAAAAAA@");
    }
    while k < n
        invariant
            k <= n,
            n == v@.len(),
            mark@ == "IAAAAAAA@"@,
            "IAAAAAAA@"@.len() == 9,
            forall|j: int| 0 <= j < k && #[trigger] occurs_at(v@, "IAAAAAAA@"@, j) ==> !number_before(v@, j),
        decreases n - k,
    {
        if matches_at(v, &mark, k) && is_number_before(v, k) {
            assert(occurs_at(v@, "IAAAAAAA@"@, k as int) && number_before(v@, k as int));
            return false;
        }
        k = k + 1;
    }
    true
}

fn is_digit_name(v: &Vec<char>, k: usize) -> (r: bool)
    requires
        k < v@.len(),
    ensures
        r == digit_name(v@, k as int),
{
    let c: char = v[k];
    if k == 0 || !('0' <= c && c <= '9') {
        return false;
    }
    let b: char = v[k - 1];
    if b == 'T' || b == 'U' || b == 'V' {
        return true;
    }
    if k < 2 {
        return false;
    }
    let a: char = v[k - 2];
    if (a == 'W' && b == '4') || (a == 'P' && b == '8') || (a == '$' && b == 'Y') {
        return true;
    }
    b == '?' && (a == '1' || a == 'H' || a == 'I' || a == 'J' || (k >= 3 && a == '?'))
}

fn digits_name_no_anonymous(v: &Vec<char>) -> (r: bool)
    ensures
        r == forall|k: int| #[trigger] digit_name(v@, k) ==> !can_name_anonymous(v@, k),
{
    let mut k: usize = 0;
    while k < v.len()
        invariant
            k <= v@.len(),
            forall|j: int| 0 <= j < k && #[trigger] digit_name(v@, j) ==> !can_name_anonymous(v@, j),
        decreases v@.len() - k,
    {
        if is_digit_name(v, k) && is_anonymous_named(v, k) {
            return false;
        }
        k = k + 1;
    }
    true
}

fn is_msvc_readable(name: &str) -> (r: bool)
    ensures
        r == msvc_readable(name@),
{
    let v = chars_of(name);
    v.len() <= MAX_MSVC_NAME && strings_are_escaped(&v) && guards_are_readable(&v) && negations_fit(&v)
        && digits_name_no_anonymous(&v)
}

/// Calls `msvc_demangler::demangle` with the flags of these bits, on a name that it
/// reads to its end. The contract says only that the text depends on the name and
/// the flags alone; `None` is an error of the call. How much time and memory the
/// expansion of its back references takes is not stated.
#[verifier::external_body]
fn msvc_name(name: &str, flags: u32) -> (r: Option<String>)
    requires
        msvc_readable(name@),
    ensures
        opt_text(r) == msvc_name_of(name@, flags),
{
    msvc_demangler::demangle(name, msvc_demangler::DemangleFlags::from_bits_truncate(flags)).ok()
}

/// The MSVC reading of a name under some flags. A name that the demangler may not
/// read to its end has none.
pub open spec fn msvc_reading(name: Seq<char>, flags: u32) -> Option<Seq<char>> {
    if msvc_readable(name) {
        msvc_name_of(name, flags)
    } else {
        None
    }
}

fn read_msvc(name: &str, flags: u32) -> (r: Option<String>)
    ensures
        opt_text(r) == msvc_reading(name@, flags),
{
    if is_msvc_readable(name) {
        msvc_name(name, flags)
    } else {
        None
    }
}

/// What `cpp_demangle` makes of a name: the text of the symbol parsed from it.
pub uninterp spec fn itanium_name_of(name: Seq<char>) -> Option<Seq<char>>;

/// The longest name that is handed to the Itanium demangler, in characters. It
/// looks for the last component that has a name of its own by recursion.
pub const MAX_ITANIUM_NAME: usize = 16384;

/// The text ends with a number and stands in the name with no digit behind it.
pub open spec fn stands_whole(s: Seq<char>, p: Seq<char>) -> bool {
    exists|k: int| #[trigger] occurs_at(s, p, k) && !(k + p.len() < s.len() && is_digit(s[k + p.len()]))
}

/// The Itanium demangler reads the name to its end: it is not too long to recurse
/// on, and no template parameter has the greatest number of 32 or 64 signed bits,
/// to which one is added.
pub open spec fn itanium_readable(s: Seq<char>) -> bool {
    &&& s.len() <= MAX_ITANIUM_NAME
    &&& !stands_whole(s, "T2147483647"@)
    &&& !stands_whole(s, "T9223372036854775807"@)
}

fn has_whole(v: &Vec<char>, p: &str) -> (r: bool)
    requires
        p@.len() > 0,
    ensures
        r == stands_whole(v@, p@),
{
    let mark = chars_of(p);
    let n: usize = v.len();
    let m: usize = mark.len();
    let mut k: usize = 0;
    while k < n
        invariant
            k <= n,
            n == v@.len(),
            m == p@.len(),
            m > 0,
            mark@ == p@,
            forall|j: int| 0 <= j < k && #[trigger] occurs_at(v@, p@, j) ==> j + m < n && is_digit(v@[j + m]),
        decreases n - k,
    {
        if matches_at(v, &mark, k) && !(n - k > m && '0' <= v[k + m] && v[k + m] <= '9') {
            assert(occurs_at(v@, p@, k as int));
            return true;
        }
        k = k + 1;
    }
    false
}

fn is_itanium_readable(name: &str) -> (r: bool)
    ensures
        r == itanium_readable(name@),
{
    let v = chars_of(name);
    proof {
        reveal_strlit("T2147483647");
        reveal_strlit("T9223372036854775807");
    }
    v.len() <= MAX_ITANIUM_NAME && !has_whole(&v, "T2147483647") && !has_whole(&v, "T9223372036854775807")
}

/// Parses a name that can be read to its end with `cpp_demangle::Symbol::new` and
/// writes the symbol with its `demangle`. The contract says only that the text
/// depends on the name alone; `None` is an error of either. How much time and memory
/// the expansion of its substitutions takes is not stated.
#[verifier::external_body]
fn itanium_name(name: &str) -> (r: Option<String>)
    requires
        itanium_readable(name@),
    ensures
        opt_text(r) == itanium_name_of(name@),
{
    match cpp_demangle::Symbol::new(name) {
        Ok(sym) => sym.demangle().ok(),
        Err(_) => None,
    }
}

/// The flags of `DemangleFlags::llvm()`: a space after a comma and before a
/// pointer, Microsoft's type names, and `*` next to its type.
pub const LLVM_FLAGS: u32 = 0xe0_0400;

/// The flags `NAME_ONLY` and `NO_MS_KEYWORDS`.
pub const NAME_ONLY_FLAGS: u32 = 0x1002;

// ---------------------------------------------------------------------------
// Demangling
// ---------------------------------------------------------------------------

/// The readable form of an MSVC name. Such names start with a question mark.
pub open spec fn msvc_of(name: Seq<char>) -> Option<Seq<char>> {
    if starts(name, "?"@) {
        msvc_reading(name, LLVM_FLAGS)
    } else {
        None
    }
}

/// The readable form of an Itanium name. A name that the demangler may not read to
/// its end has none.
pub open spec fn itanium_of(name: Seq<char>) -> Option<Seq<char>> {
    if (starts(name, "_Z"@) || starts(name, "__Z"@)) && itanium_readable(name) {
        itanium_name_of(name)
    } else {
        None
    }
}

/// The first of three readings, or else the name itself.
pub open spec fn first_reading(
    name: Seq<char>,
    rust: Option<Seq<char>>,
    msvc: Option<Seq<char>>,
    itanium: Option<Seq<char>>,
) -> Seq<char> {
    match (rust, msvc, itanium) {
        (Some(s), _, _) => s,
        (None, Some(s), _) => s,
        (None, None, Some(s)) => s,
        (None, None, None) => name,
    }
}

/// The readable form of a name.
pub open spec fn demangled(name: Seq<char>) -> Seq<char> {
    first_reading(name, rust_name_of(name), msvc_of(name), itanium_of(name))
}

/// Takes the first of three readings, or else the name itself.
pub fn pick_reading(name: &str, rust: Option<String>, msvc: Option<String>, itanium: Option<String>) -> (r: String)
    ensures
        r@ == first_reading(name@, opt_text(rust), opt_text(msvc), opt_text(itanium)),
{
    match rust {
        Some(s) => s,
        None => match msvc {
            Some(s) => s,
            None => match itanium {
                Some(s) => s,
                None => String::from_str(name),
            },
        },
    }
}

fn demangle_msvc(name: &str) -> (r: Option<String>)
    ensures
        opt_text(r) == msvc_of(name@),
{
    if starts_with(name, "?") {
        read_msvc(name, LLVM_FLAGS)
    } else {
        None
    }
}

fn demangle_itanium(name: &str) -> (r: Option<String>)
    ensures
        opt_text(r) == itanium_of(name@),
{
    if (starts_with(name, "_Z") || starts_with(name, "__Z")) && is_itanium_readable(name) {
        itanium_name(name)
    } else {
        None
    }
}

/// Demangles a name if one of the schemes recognizes it, and otherwise returns
/// it unchanged.
pub fn demangle(name: &str) -> (r: String)
    ensures
        r@ == demangled(name@),
{
    pick_reading(name, rust_name(name), demangle_msvc(name), demangle_itanium(name))
}

/// A name that no scheme recognizes stays as it is.
pub proof fn unrecognized_names_stay(name: Seq<char>)
    requires
        rust_name_of(name) is None,
        !starts(name, "?"@),
        !starts(name, "_Z"@),
        !starts(name, "__Z"@),
    ensures
        demangled(name) == name,
{
}

/// The qualified name alone of an MSVC name.
pub open spec fn msvc_qualified(name: Seq<char>) -> Option<Seq<char>> {
    if starts(name, "?"@) {
        msvc_reading(name, NAME_ONLY_FLAGS)
    } else {
        None
    }
}

/// Demangles an MSVC name to its qualified name alone, without types and
/// keywords. `None` for another name.
pub fn demangle_msvc_name_only(name: &str) -> (r: Option<String>)
    ensures
        opt_text(r) == msvc_qualified(name@),
{
    if starts_with(name, "?") {
        read_msvc(name, NAME_ONLY_FLAGS)
    } else {
        None
    }
}

// ---------------------------------------------------------------------------
// The class of a member function
// ---------------------------------------------------------------------------

/// A character of an identifier.
pub open spec fn in_word(c: char) -> bool {
    is_digit(c) || 'a' <= c <= 'z' || 'A' <= c <= 'Z' || c == '_'
}

/// The name of an operator stands at index `k`.
pub open spec fn operator_at(s: Seq<char>, k: int) -> bool {
    occurs_at(s, "operator"@, k) && (k + 8 < s.len() ==> !in_word(s[k + 8]))
}

/// An opening bracket or quote.
pub open spec fn opens(c: char) -> bool {
    c == '<' || c == '(' || c == '[' || c == '{' || c == '`'
}

/// A closing bracket or quote.
pub open spec fn closes(c: char) -> bool {
    c == '>' || c == ')' || c == ']' || c == '}' || c == '\''
}

/// One level less, and no less than none.
pub open spec fn up_one(depth: nat) -> nat {
    if depth > 0 {
        (depth - 1) as nat
    } else {
        0
    }
}

/// The `::` in front of a member function's own name, from index `i` on, with
/// `depth` brackets open and `cut` the last `::` outside all brackets so far. The
/// parameters end the name, and an operator's name runs on to them. An unnamed
/// namespace is a name in brackets.
pub open spec fn member_cut(s: Seq<char>, i: int, depth: nat, cut: Option<int>) -> Option<int>
    decreases s.len() - i,
{
    if i < 0 || i >= s.len() {
        cut
    } else if s[i] == '(' && depth == 0 && !occurs_at(s, "(anonymous namespace)"@, i) {
        cut
    } else if opens(s[i]) {
        member_cut(s, i + 1, depth + 1, cut)
    } else if closes(s[i]) {
        member_cut(s, i + 1, up_one(depth), cut)
    } else if s[i] == ':' && depth == 0 && i + 1 < s.len() && s[i + 1] == ':' {
        if operator_at(s, i + 2) {
            Some(i)
        } else {
            member_cut(s, i + 2, depth, Some(i))
        }
    } else {
        member_cut(s, i + 1, depth, cut)
    }
}

/// Where the part behind the last blank outside all brackets begins, from index
/// `i` on, or else `from`.
pub open spec fn behind_blank(s: Seq<char>, i: int, depth: nat, from: int) -> int
    decreases s.len() - i,
{
    if i < 0 || i >= s.len() {
        from
    } else if opens(s[i]) {
        behind_blank(s, i + 1, depth + 1, from)
    } else if closes(s[i]) {
        behind_blank(s, i + 1, up_one(depth), from)
    } else if s[i] == ' ' && depth == 0 {
        behind_blank(s, i + 1, depth, i + 1)
    } else {
        behind_blank(s, i + 1, depth, from)
    }
}

/// The class that encloses a member function, from a readable name with or without
/// the returned type in front and the parameters behind.
pub open spec fn enclosing(s: Seq<char>) -> Option<Seq<char>> {
    match member_cut(s, 0, 0, None) {
        Some(k) => {
            let c = s.take(k);
            let from = behind_blank(c, 0, 0, 0);
            if from < c.len() {
                Some(c.skip(from))
            } else {
                None
            }
        },
        None => None,
    }
}

fn is_opening(c: char) -> (r: bool)
    ensures
        r == opens(c),
{
    c == '<' || c == '(' || c == '[' || c == '{' || c == '`'
}

fn is_closing(c: char) -> (r: bool)
    ensures
        r == closes(c),
{
    c == '>' || c == ')' || c == ']' || c == '}' || c == '\''
}

fn is_operator_at(v: &Vec<char>, word: &Vec<char>, k: usize) -> (r: bool)
    requires
        word@ == "operator"@,
    ensures
        r == operator_at(v@, k as int),
{
    proof {
        reveal_strlit("operator");
    }
    if !matches_at(v, word, k) {
        return false;
    }
    let n: usize = v.len();
    if n - k <= 8 {
        return true;
    }
    !is_word_char(v[k + 8])
}

pub fn is_word_char(c: char) -> (r: bool)
    ensures
        r == in_word(c),
{
    ('0' <= c && c <= '9') || ('a' <= c && c <= 'z') || ('A' <= c && c <= 'Z') || c == '_'
}

fn find_member_cut(v: &Vec<char>) -> (r: Option<usize>)
    ensures
        match (r, member_cut(v@, 0, 0, None)) {
            (Some(a), Some(b)) => a == b && a <= v@.len(),
            (None, None) => true,
            _ => false,
        },
{
    let word = chars_of("operator");
    let unnamed = chars_of("(anonymous namespace)");
    let n: usize = v.len();
    let mut depth: usize = 0;
    let mut cut: Option<usize> = None;
    let mut i: usize = 0;
    while i < n
        invariant
            n == v@.len(),
            i <= n,
            depth <= i,
            word@ == "operator"@,
            unnamed@ == "(anonymous namespace)"@,
            cut matches Some(k) ==> k <= n,
            member_cut(v@, 0, 0, None) == member_cut(
                v@,
                i as int,
                depth as nat,
                match cut {
                    Some(k) => Some(k as int),
                    None => None,
                },
            ),
        decreases n - i,
    {
        let c: char = v[i];
        if c == '(' && depth == 0 && !matches_at(v, &unnamed, i) {
            return cut;
        }
        if is_opening(c) {
            depth = depth + 1;
            i = i + 1;
        } else if is_closing(c) {
            if depth > 0 {
                depth = depth - 1;
            }
            i = i + 1;
        } else if c == ':' && depth == 0 && i + 1 < n && v[i + 1] == ':' {
            if is_operator_at(v, &word, i + 2) {
                return Some(i);
            }
            cut = Some(i);
            i = i + 2;
        } else {
            i = i + 1;
        }
    }
    cut
}

fn find_behind_blank(v: &Vec<char>, n: usize) -> (r: usize)
    requires
        n <= v@.len(),
    ensures
        r == behind_blank(v@.take(n as int), 0, 0, 0),
        r <= n,
{
    let ghost c = v@.take(n as int);
    let mut depth: usize = 0;
    let mut from: usize = 0;
    let mut i: usize = 0;
    while i < n
        invariant
            n <= v@.len(),
            c == v@.take(n as int),
            i <= n,
            depth <= i,
            from <= i,
            behind_blank(c, 0, 0, 0) == behind_blank(c, i as int, depth as nat, from as int),
        decreases n - i,
    {
        let x: char = v[i];
        assert(c[i as int] == x);
        if is_opening(x) {
            depth = depth + 1;
        } else if is_closing(x) {
            if depth > 0 {
                depth = depth - 1;
            }
        } else if x == ' ' && depth == 0 {
            from = i + 1;
        }
        i = i + 1;
    }
    from
}

/// The class that encloses a member function.
pub fn enclosing_class(name: &str) -> (r: Option<&str>)
    ensures
        match (r, enclosing(name@)) {
            (Some(a), Some(b)) => a@ == b,
            (None, None) => true,
            _ => false,
        },
{
    let v = chars_of(name);
    match find_member_cut(&v) {
        Some(k) => {
            let from: usize = find_behind_blank(&v, k);
            if from < k {
                let r = name.substring_char(from, k);
                assert(r@ =~= name@.take(k as int).skip(from as int));
                Some(r)
            } else {
                None
            }
        },
        None => None,
    }
}

/// The first opening parenthesis from index `k` on, or the length.
pub open spec fn paren_from(s: Seq<char>, k: int) -> int
    decreases s.len() - k,
{
    if k < 0 || k >= s.len() {
        s.len() as int
    } else if s[k] == '(' {
        k
    } else {
        paren_from(s, k + 1)
    }
}

/// Where the name in a readable text ends, from index `i` on with `depth` brackets
/// open: in front of the parameters. The first of both indices says where an
/// operator's name begins, which may hold blanks, and is the end for any other.
pub open spec fn name_span(s: Seq<char>, i: int, depth: nat) -> (int, int)
    decreases s.len() - i,
{
    if i < 0 || i >= s.len() {
        (s.len() as int, s.len() as int)
    } else if s[i] == '(' && depth == 0 && !occurs_at(s, "(anonymous namespace)"@, i) {
        (i, i)
    } else if depth == 0 && operator_at(s, i) && (i == 0 || !in_word(s[i - 1])) {
        (i, paren_from(s, if occurs_at(s, "()"@, i + 8) {
            i + 10
        } else {
            i + 8
        }))
    } else if opens(s[i]) {
        name_span(s, i + 1, depth + 1)
    } else if closes(s[i]) {
        name_span(s, i + 1, up_one(depth))
    } else {
        name_span(s, i + 1, depth)
    }
}

/// What stands in front of a name says that it is another's: a thunk to it, or a
/// table for it.
pub open spec fn of_another(front: Seq<char>) -> bool {
    ends(front, " to "@) || ends(front, " for "@)
}

/// The qualified name of a function in a readable text, without the returned type
/// in front and the parameters behind. A thunk, or the table of a class, has none.
pub open spec fn qualified_text(s: Seq<char>) -> Option<Seq<char>> {
    let (stop, end) = name_span(s, 0, 0);
    let last = trim_end(s.take(end)).len() as int;
    let limit = if stop < last {
        stop
    } else {
        last
    };
    let from = behind_blank(s.take(limit), 0, 0, 0);
    if from < last && !of_another(s.take(from)) {
        Some(s.subrange(from, last))
    } else {
        None
    }
}

fn find_paren(v: &Vec<char>, from: usize) -> (r: usize)
    requires
        from <= v@.len(),
    ensures
        r == paren_from(v@, from as int),
        from <= r <= v@.len(),
{
    let mut k: usize = from;
    while k < v.len()
        invariant
            from <= k <= v@.len(),
            paren_from(v@, from as int) == paren_from(v@, k as int),
        decreases v@.len() - k,
    {
        if v[k] == '(' {
            return k;
        }
        k = k + 1;
    }
    k
}

fn find_name_span(v: &Vec<char>) -> (r: (usize, usize))
    ensures
        (r.0 as int, r.1 as int) == name_span(v@, 0, 0),
        r.0 <= r.1 <= v@.len(),
{
    let word = chars_of("operator");
    let unnamed = chars_of("(anonymous namespace)");
    let call = chars_of("()");
    proof {
        reveal_strlit("operator");
        reveal_strlit("()");
    }
    let n: usize = v.len();
    let mut depth: usize = 0;
    let mut i: usize = 0;
    while i < n
        invariant
            n == v@.len(),
            i <= n,
            depth <= i,
            word@ == "operator"@,
            word@.len() == 8,
            unnamed@ == "(anonymous namespace)"@,
            call@ == "()"@,
            call@.len() == 2,
            name_span(v@, 0, 0) == name_span(v@, i as int, depth as nat),
        decreases n - i,
    {
        let c: char = v[i];
        if c == '(' && depth == 0 && !matches_at(v, &unnamed, i) {
            return (i, i);
        }
        if depth == 0 && is_operator_at(v, &word, i) && (i == 0 || !is_word_char(v[i - 1])) {
            assert(i + 8 <= n);
            let k: usize = if matches_at(v, &call, i + 8) {
                i + 10
            } else {
                i + 8
            };
            return (i, find_paren(v, k));
        }
        if is_opening(c) {
            depth = depth + 1;
        } else if is_closing(c) {
            if depth > 0 {
                depth = depth - 1;
            }
        }
        i = i + 1;
    }
    (n, n)
}

/// Cuts a readable text back to the qualified name of its function.
pub fn qualified_name_in(text: &str) -> (r: Option<&str>)
    ensures
        match (r, qualified_text(text@)) {
            (Some(a), Some(b)) => a@ == b,
            (None, None) => true,
            _ => false,
        },
{
    let v = chars_of(text);
    let (stop, end) = find_name_span(&v);
    let last: usize = skip_space_back(&v, 0, end);
    proof {
        assert(v@.subrange(0, end as int) =~= v@.take(end as int));
        assert(v@.subrange(0, last as int).len() == last);
    }
    let limit: usize = if stop < last {
        stop
    } else {
        last
    };
    let from: usize = find_behind_blank(&v, limit);
    if from >= last {
        return None;
    }
    let front = text.substring_char(0, from);
    assert(front@ =~= text@.take(from as int));
    let f = chars_of(front);
    if ends_with(&f, " to ") || ends_with(&f, " for ") {
        return None;
    }
    Some(text.substring_char(from, last))
}

/// The class of an MSVC member function, from its prototype and its qualified
/// name. Only a member has an access specifier, and a static one has no object.
pub open spec fn msvc_class_of(full: Option<Seq<char>>, qualified: Option<Seq<char>>) -> Option<Seq<char>> {
    match (full, qualified) {
        (Some(f), Some(q)) => if (starts(f, "public:"@) || starts(f, "private:"@) || starts(f, "protected:"@)) && !occurs(
            f,
            "static "@,
        ) {
            enclosing(q)
        } else {
            None
        },
        _ => None,
    }
}

/// Reads the class off an MSVC prototype and qualified name.
pub fn msvc_member_class(full: Option<String>, qualified: Option<String>) -> (r: Option<String>)
    ensures
        opt_text(r) == msvc_class_of(opt_text(full), opt_text(qualified)),
{
    match (full, qualified) {
        (Some(f), Some(q)) => {
            let f = f.as_str();
            let member = starts_with(f, "public:") || starts_with(f, "private:") || starts_with(f, "protected:");
            if !member || contains_text(f, "static ") {
                return None;
            }
            match enclosing_class(q.as_str()) {
                Some(class) => Some(String::from_str(class)),
                None => None,
            }
        },
        _ => None,
    }
}

/// The letters from index `k` on are qualifiers up to one of `V` and `K`.
pub open spec fn qualifier_from(s: Seq<char>, k: int) -> bool
    decreases s.len() - k,
{
    if k < 0 || k >= s.len() {
        false
    } else if s[k] == 'V' || s[k] == 'K' {
        true
    } else {
        s[k] == 'r' && qualifier_from(s, k + 1)
    }
}

/// What follows the start of a nested name.
pub open spec fn nested_part(name: Seq<char>) -> Option<Seq<char>> {
    if strip(name, "_ZN"@) is Some {
        strip(name, "_ZN"@)
    } else {
        strip(name, "__ZN"@)
    }
}

/// The nested name has a `const` or `volatile` qualifier.
pub open spec fn is_cv_qualified(name: Seq<char>) -> bool {
    match nested_part(name) {
        Some(rest) => qualifier_from(rest, 0),
        None => false,
    }
}

/// Does the nested name of an Itanium symbol have a `const` or `volatile`
/// qualifier? The qualifiers are the run of `r`, `V` and `K` after the `N`.
pub fn itanium_cv_qualified(name: &str) -> (r: bool)
    ensures
        r == is_cv_qualified(name@),
{
    let rest = match strip_text(name, "_ZN") {
        Some(k) => k,
        None => match strip_text(name, "__ZN") {
            Some(k) => k,
            None => {
                return false;
            },
        },
    };
    let v = chars_of(rest);
    let mut k: usize = 0;
    while k < v.len()
        invariant
            k <= v@.len(),
            nested_part(name@) == Some(v@),
            qualifier_from(v@, 0) == qualifier_from(v@, k as int),
        decreases v@.len() - k,
    {
        if v[k] == 'V' || v[k] == 'K' {
            return true;
        }
        if v[k] != 'r' {
            return false;
        }
        k = k + 1;
    }
    false
}

/// The last `::` from index `i` on that stands outside all brackets, `depth` of
/// which are open, or else `cut`. A closing bracket too many is passed over.
pub open spec fn scope_cut(s: Seq<char>, i: int, depth: nat, cut: Option<int>) -> Option<int>
    decreases s.len() - i,
{
    if i < 0 || i >= s.len() {
        cut
    } else if s[i] == '<' || s[i] == '(' || s[i] == '[' {
        scope_cut(s, i + 1, depth + 1, cut)
    } else if s[i] == '>' || s[i] == ')' || s[i] == ']' {
        scope_cut(
            s,
            i + 1,
            if depth > 0 {
                (depth - 1) as nat
            } else {
                0
            },
            cut,
        )
    } else if s[i] == ':' && depth == 0 && i + 1 < s.len() && s[i + 1] == ':' {
        scope_cut(s, i + 2, depth, Some(i))
    } else {
        scope_cut(s, i + 1, depth, cut)
    }
}

/// A qualified name, split at its last `::` outside all brackets.
pub open spec fn scopes_of(s: Seq<char>) -> Option<(Seq<char>, Seq<char>)> {
    match scope_cut(s, 0, 0, None) {
        Some(k) => Some((s.take(k), s.skip(k + 2))),
        None => None,
    }
}

/// Splits a qualified name at its last `::` outside all brackets.
pub fn last_scope(qualified: &str) -> (r: Option<(&str, &str)>)
    ensures
        match (r, scopes_of(qualified@)) {
            (Some((a, b)), Some((x, y))) => a@ == x && b@ == y,
            (None, None) => true,
            _ => false,
        },
{
    let v = chars_of(qualified);
    let n: usize = v.len();
    let mut depth: usize = 0;
    let mut cut: Option<usize> = None;
    let mut i: usize = 0;
    while i < n
        invariant
            n == v@.len(),
            i <= n,
            depth <= i,
            cut matches Some(k) ==> k + 2 <= n,
            scope_cut(v@, 0, 0, None) == scope_cut(
                v@,
                i as int,
                depth as nat,
                match cut {
                    Some(k) => Some(k as int),
                    None => None,
                },
            ),
        decreases n - i,
    {
        let c: char = v[i];
        if c == '<' || c == '(' || c == '[' {
            depth = depth + 1;
            i = i + 1;
        } else if c == '>' || c == ')' || c == ']' {
            if depth > 0 {
                depth = depth - 1;
            }
            i = i + 1;
        } else if c == ':' && depth == 0 && i + 1 < n && v[i + 1] == ':' {
            cut = Some(i);
            i = i + 2;
        } else {
            i = i + 1;
        }
    }
    match cut {
        Some(k) => {
            let a = qualified.substring_char(0, k);
            let b = qualified.substring_char(k + 2, n);
            assert(a@ =~= qualified@.take(k as int));
            assert(b@ =~= qualified@.skip(k + 2));
            Some((a, b))
        },
        None => None,
    }
}

proof fn lemma_scope_cut_at(s: Seq<char>, i: int, depth: nat, cut: Option<int>)
    requires
        0 <= i,
        cut matches Some(k) ==> 0 <= k && k + 2 <= s.len() && s[k] == ':' && s[k + 1] == ':',
    ensures
        scope_cut(s, i, depth, cut) matches Some(k) ==> 0 <= k && k + 2 <= s.len() && s[k] == ':' && s[k + 1] == ':',
    decreases s.len() - i,
{
    if i < s.len() {
        if s[i] == '<' || s[i] == '(' || s[i] == '[' {
            lemma_scope_cut_at(s, i + 1, depth + 1, cut);
        } else if s[i] == '>' || s[i] == ')' || s[i] == ']' {
            lemma_scope_cut_at(
                s,
                i + 1,
                if depth > 0 {
                    (depth - 1) as nat
                } else {
                    0
                },
                cut,
            );
        } else if s[i] == ':' && depth == 0 && i + 1 < s.len() && s[i + 1] == ':' {
            lemma_scope_cut_at(s, i + 2, depth, Some(i));
        } else {
            lemma_scope_cut_at(s, i + 1, depth, cut);
        }
    }
}

/// The two parts of a qualified name and the `::` between them are the name.
pub proof fn scopes_make_the_name(s: Seq<char>)
    ensures
        scopes_of(s) matches Some((a, b)) ==> s == a + "::"@ + b,
{
    lemma_scope_cut_at(s, 0, 0, None);
    reveal_strlit("::");
    match scope_cut(s, 0, 0, None) {
        Some(k) => {
            assert(s =~= s.take(k) + "::"@ + s.skip(k + 2));
        },
        None => {},
    }
}

/// The class in the readable form of an Itanium member function.
pub open spec fn class_in(full: Option<Seq<char>>) -> Option<Seq<char>> {
    match full {
        Some(f) => enclosing(f),
        None => None,
    }
}

/// Reads the class off the readable form of an Itanium member function.
pub fn itanium_class_in(full: Option<String>) -> (r: Option<String>)
    ensures
        opt_text(r) == class_in(opt_text(full)),
{
    match full {
        Some(f) => match enclosing_class(f.as_str()) {
            Some(class) => Some(String::from_str(class)),
            None => None,
        },
        None => None,
    }
}

/// The class of a qualified Itanium member function.
pub open spec fn cv_class_of(name: Seq<char>) -> Option<Seq<char>> {
    if is_cv_qualified(name) {
        class_in(itanium_of(name))
    } else {
        None
    }
}

/// The class of an Itanium member function with a `const` or `volatile`
/// qualifier. A static member function can have none, so the first argument is
/// the object.
pub fn itanium_cv_member_class(name: &str) -> (r: Option<String>)
    ensures
        opt_text(r) == cv_class_of(name@),
{
    if !itanium_cv_qualified(name) {
        return None;
    }
    itanium_class_in(demangle_itanium(name))
}

/// The class of a non-static member function.
pub open spec fn member_class_of(name: Seq<char>) -> Option<Seq<char>> {
    match cv_class_of(name) {
        Some(c) => Some(c),
        None => msvc_class_of(msvc_of(name), msvc_qualified(name)),
    }
}

/// The class to whose object the first argument points, if the name is that of
/// a non-static member function.
pub fn member_function_class(name: &str) -> (r: Option<String>)
    ensures
        opt_text(r) == member_class_of(name@),
{
    match itanium_cv_member_class(name) {
        Some(c) => Some(c),
        None => msvc_member_class(demangle_msvc(name), demangle_msvc_name_only(name)),
    }
}

// ---------------------------------------------------------------------------
// Type descriptors
// ---------------------------------------------------------------------------

/// The symbol of a type descriptor with this decorated name.
pub open spec fn descriptor_symbol(td: Seq<char>) -> Option<Seq<char>> {
    match strip(td, "."@) {
        Some(rest) => if starts(rest, "?A"@) {
            Some("??_R0"@ + rest + "@8"@)
        } else {
            None
        },
        None => None,
    }
}

/// A text without the keyword of an aggregate in front.
pub open spec fn without_keyword(s: Seq<char>) -> Seq<char> {
    if strip(s, "class "@) is Some {
        strip(s, "class "@)->0
    } else if strip(s, "struct "@) is Some {
        strip(s, "struct "@)->0
    } else if strip(s, "union "@) is Some {
        strip(s, "union "@)->0
    } else if strip(s, "enum "@) is Some {
        strip(s, "enum "@)->0
    } else {
        s
    }
}

/// The class in the readable form of a type descriptor's symbol.
pub open spec fn descriptor_class(full: Option<Seq<char>>) -> Option<Seq<char>> {
    match full {
        Some(f) => match strip_end(f, "::`RTTI Type Descriptor'"@) {
            Some(core) => if without_keyword(core).len() == 0 {
                None
            } else {
                Some(without_keyword(core))
            },
            None => None,
        },
        None => None,
    }
}

/// Reads the class off the readable form of a type descriptor's symbol.
pub fn rtti_class_in(full: Option<String>) -> (r: Option<String>)
    ensures
        opt_text(r) == descriptor_class(opt_text(full)),
{
    let f = match full {
        Some(f) => f,
        None => {
            return None;
        },
    };
    let core = match strip_end_text(f.as_str(), "::`RTTI Type Descriptor'") {
        Some(c) => c,
        None => {
            return None;
        },
    };
    let name = if let Some(k) = strip_text(core, "class ") {
        k
    } else if let Some(k) = strip_text(core, "struct ") {
        k
    } else if let Some(k) = strip_text(core, "union ") {
        k
    } else if let Some(k) = strip_text(core, "enum ") {
        k
    } else {
        core
    };
    if name.is_empty() {
        None
    } else {
        Some(String::from_str(name))
    }
}

/// The class whose type descriptor has this decorated name. The name is the
/// type's part of the descriptor's symbol, which is demangled as a whole.
pub fn demangle_rtti_type_descriptor(td_name: &str) -> (r: Option<String>)
    ensures
        opt_text(r) == match descriptor_symbol(td_name@) {
            Some(symbol) => descriptor_class(msvc_reading(symbol, LLVM_FLAGS)),
            None => None,
        },
{
    let rest = match strip_text(td_name, ".") {
        Some(k) => k,
        None => {
            return None;
        },
    };
    if !starts_with(rest, "?A") {
        return None;
    }
    let symbol = String::from_str("??_R0").concat(rest).concat("@8");
    rtti_class_in(read_msvc(symbol.as_str(), LLVM_FLAGS))
}

// ---------------------------------------------------------------------------
// What a readable name is made of
// ---------------------------------------------------------------------------

/// The reading of a Rust name counts before that of an MSVC one, and that before an
/// Itanium one; a name that none of them reads stays.
pub proof fn readings_have_an_order(name: Seq<char>, r: Option<Seq<char>>, m: Option<Seq<char>>, i: Option<Seq<char>>)
    ensures
        r matches Some(s) ==> first_reading(name, r, m, i) == s,
        r is None ==> (m matches Some(s) ==> first_reading(name, r, m, i) == s),
        r is None && m is None ==> (i matches Some(s) ==> first_reading(name, r, m, i) == s),
        r is None && m is None && i is None ==> first_reading(name, r, m, i) == name,
        !starts(name, "?"@) ==> msvc_of(name) is None && msvc_qualified(name) is None,
        !starts(name, "_Z"@) && !starts(name, "__Z"@) ==> itanium_of(name) is None,
{
}

/// The characters of a word.
pub open spec fn is_word(s: Seq<char>) -> bool {
    forall|i: int| 0 <= i < s.len() ==> in_word(#[trigger] s[i])
}

/// The class of a member function is what stands before the `::` in front of its own
/// name, without the type that it returns.
pub proof fn members_stand_behind_their_class(ret: Seq<char>, class: Seq<char>, method: Seq<char>, rest: Seq<char>)
    requires
        is_word(ret),
        is_word(class),
        class.len() > 0,
        is_word(method),
        !starts(rest, "anonymous namespace)"@),
    ensures
        enclosing(ret + seq![' '] + class + seq![':', ':'] + method + seq!['('] + rest) == Some(class),
        enclosing(class + seq![':', ':'] + method + seq!['('] + rest) == Some(class),
        enclosing(class + seq![':', ':'] + method) == Some(class),
        enclosing(method) is None,
{
    let front = ret + seq![' '];
    assert(front.drop_last() =~= ret);
    assert((seq!['('] + rest).skip(1) =~= rest);
    lemma_member_cut(front, class, method, seq!['('] + rest);
    assert(front + class + seq![':', ':'] + method + (seq!['('] + rest) =~= ret + seq![' '] + class + seq![':', ':'] + method
        + seq!['('] + rest);
    lemma_member_cut(Seq::empty(), class, method, seq!['('] + rest);
    assert(Seq::<char>::empty() + class + seq![':', ':'] + method + (seq!['('] + rest) =~= class + seq![':', ':'] + method
        + seq!['('] + rest);
    lemma_member_cut(Seq::empty(), class, method, Seq::empty());
    assert(Seq::<char>::empty() + class + seq![':', ':'] + method + Seq::<char>::empty() =~= class + seq![':', ':']
        + method);
    lemma_cut_over(method, 0, method.len() as int, None);
}

/// The front is empty, or a word and a blank.
spec fn is_front(front: Seq<char>) -> bool {
    front.len() == 0 || (front.last() == ' ' && is_word(front.drop_last()))
}

proof fn lemma_member_cut(front: Seq<char>, class: Seq<char>, method: Seq<char>, tail: Seq<char>)
    requires
        is_front(front),
        is_word(class),
        class.len() > 0,
        is_word(method),
        tail.len() > 0 ==> tail[0] == '(' && !starts(tail.skip(1), "anonymous namespace)"@),
    ensures
        enclosing(front + class + seq![':', ':'] + method + tail) == Some(class),
{
    let s = front + class + seq![':', ':'] + method + tail;
    let k = (front.len() + class.len()) as int;
    let e = k + 2 + method.len();
    assert forall|i: int| 0 <= i < k implies in_word(#[trigger] s[i]) || s[i] == ' ' by {
        if i < front.len() {
            assert(s[i] == front[i]);
            if i < front.len() - 1 {
                assert(front.drop_last()[i] == front[i]);
            }
        } else {
            assert(s[i] == class[i - front.len()]);
        }
    }
    assert(s[k] == ':' && s[k + 1] == ':');
    lemma_cut_over(s, 0, k, None);
    assert forall|i: int| k + 2 <= i < e implies in_word(#[trigger] s[i]) || s[i] == ' ' by {
        assert(s[i] == method[i - k - 2]);
    }
    lemma_cut_over(s, k + 2, e, Some(k));
    if tail.len() > 0 {
        assert(s[e] == '(');
        if occurs_at(s, "(anonymous namespace)"@, e) {
            reveal_strlit("(anonymous namespace)");
            reveal_strlit("anonymous namespace)");
            let n = "(anonymous namespace)"@;
            let m = "anonymous namespace)"@;
            assert(n.skip(1) =~= m);
            let t = tail.skip(1);
            assert forall|i: int| 0 <= i < m.len() implies t[i] == m[i] by {
                assert(s.subrange(e, e + n.len())[i + 1] == n[i + 1]);
                assert(n.skip(1)[i] == m[i]);
                assert(t[i] == s[e + 1 + i]);
            }
            assert(t.subrange(0, m.len() as int) =~= m);
            assert(starts(t, m));
        }
    } else {
        assert(e == s.len());
    }
    assert(member_cut(s, 0, 0, None) == Some(k));
    let c = s.take(k);
    assert(c =~= front + class);
    lemma_front(front, class);
    assert((front + class).skip(front.len() as int) =~= class);
}

proof fn lemma_cut_over(s: Seq<char>, i: int, e: int, cut: Option<int>)
    requires
        0 <= i <= e <= s.len(),
        forall|j: int| i <= j < e ==> in_word(#[trigger] s[j]) || s[j] == ' ',
    ensures
        member_cut(s, i, 0, cut) == member_cut(s, e, 0, cut),
    decreases e - i,
{
    if i < e {
        assert(in_word(s[i]) || s[i] == ' ');
        lemma_cut_over(s, i + 1, e, cut);
    }
}

proof fn lemma_front(front: Seq<char>, class: Seq<char>)
    requires
        is_front(front),
        is_word(class),
    ensures
        behind_blank(front + class, 0, 0, 0) == front.len(),
{
    let s = front + class;
    if front.len() > 0 {
        assert forall|i: int| 0 <= i < front.len() - 1 implies in_word(#[trigger] s[i]) by {
            assert(front.drop_last()[i] == s[i]);
        }
        lemma_no_blank(s, 0, front.len() - 1, 0);
        assert(s[front.len() - 1] == ' ');
    }
    assert forall|i: int| front.len() <= i < s.len() implies in_word(#[trigger] s[i]) by {
        assert(s[i] == class[i - front.len()]);
    }
    lemma_no_blank(s, front.len() as int, s.len() as int, front.len() as int);
}

proof fn lemma_no_blank(s: Seq<char>, i: int, e: int, from: int)
    requires
        0 <= i <= e <= s.len(),
        forall|j: int| i <= j < e ==> in_word(#[trigger] s[j]),
    ensures
        behind_blank(s, i, 0, from) == behind_blank(s, e, 0, from),
    decreases e - i,
{
    if i < e {
        assert(in_word(s[i]));
        lemma_no_blank(s, i + 1, e, from);
    }
}

/// A qualified name is split at its last `::`.
pub proof fn names_are_split_at_their_last_scope(class: Seq<char>, name: Seq<char>)
    requires
        is_word(class),
        is_word(name),
    ensures
        scopes_of(class + seq![':', ':'] + name) == Some((class, name)),
        scopes_of(name) is None,
{
    let s = class + seq![':', ':'] + name;
    let k = class.len() as int;
    assert forall|i: int| 0 <= i < k implies in_word(#[trigger] s[i]) by {
        assert(s[i] == class[i]);
    }
    lemma_scope_over(s, 0, k, None);
    assert(s[k] == ':' && s[k + 1] == ':');
    assert forall|i: int| k + 2 <= i < s.len() implies in_word(#[trigger] s[i]) by {
        assert(s[i] == name[i - k - 2]);
    }
    lemma_scope_over(s, k + 2, s.len() as int, Some(k));
    assert(s.take(k) =~= class);
    assert(s.skip(k + 2) =~= name);
    lemma_scope_over(name, 0, name.len() as int, None);
}

proof fn lemma_scope_over(s: Seq<char>, i: int, e: int, cut: Option<int>)
    requires
        0 <= i <= e <= s.len(),
        forall|j: int| i <= j < e ==> in_word(#[trigger] s[j]),
    ensures
        scope_cut(s, i, 0, cut) == scope_cut(s, e, 0, cut),
    decreases e - i,
{
    if i < e {
        assert(in_word(s[i]));
        lemma_scope_over(s, i + 1, e, cut);
    }
}

/// An MSVC member has an object where its prototype states an access and is not static;
/// its class is the one that its qualified name states.
pub proof fn static_members_have_no_object(f: Seq<char>, q: Seq<char>)
    ensures
        (starts(f, "public:"@) || starts(f, "private:"@) || starts(f, "protected:"@)) && !occurs(f, "static "@)
            ==> msvc_class_of(Some(f), Some(q)) == enclosing(q),
        occurs(f, "static "@) ==> msvc_class_of(Some(f), Some(q)) is None,
        !starts(f, "public:"@) && !starts(f, "private:"@) && !starts(f, "protected:"@) ==> msvc_class_of(Some(f), Some(q)) is
            None,
        msvc_class_of(None, Some(q)) is None,
        msvc_class_of(Some(f), None) is None,
{
}

/// An Itanium name of a nested function with `const` or `volatile` behind the start of the
/// nesting is that of a member function; one without is not known to be.
pub proof fn qualified_members_are_known(rest: Seq<char>)
    ensures
        is_cv_qualified("_ZN"@ + seq!['K'] + rest),
        is_cv_qualified("_ZN"@ + seq!['V'] + rest),
        is_cv_qualified("_ZN"@ + seq!['r', 'K'] + rest),
        rest.len() > 0 && is_digit(rest[0]) ==> !is_cv_qualified("_ZN"@ + rest),
{
    let k = seq!['K'] + rest;
    let v = seq!['V'] + rest;
    let r = seq!['r', 'K'] + rest;
    assert("_ZN"@ + seq!['K'] + rest =~= "_ZN"@ + k);
    assert("_ZN"@ + seq!['V'] + rest =~= "_ZN"@ + v);
    assert("_ZN"@ + seq!['r', 'K'] + rest =~= "_ZN"@ + r);
    crate::text::prefixes_and_suffixes_come_off("_ZN"@, k);
    crate::text::prefixes_and_suffixes_come_off("_ZN"@, v);
    crate::text::prefixes_and_suffixes_come_off("_ZN"@, r);
    crate::text::prefixes_and_suffixes_come_off("_ZN"@, rest);
    reveal_with_fuel(qualifier_from, 3);
    assert(k[0] == 'K' && v[0] == 'V' && r[0] == 'r' && r[1] == 'K');
}

/// A type descriptor is named by the symbol with its decorated name, and the class is what
/// that symbol reads as, without the keyword in front and the title behind.
pub proof fn descriptors_name_their_class(rest: Seq<char>, c: Seq<char>)
    ensures
        starts(rest, "?A"@) ==> descriptor_symbol(seq!['.'] + rest) == Some("??_R0"@ + rest + "@8"@),
        !starts(rest, "?A"@) ==> descriptor_symbol(seq!['.'] + rest) is None,
        without_keyword("class "@ + c) == c,
        descriptor_class(Some("class "@ + c + "::`RTTI Type Descriptor'"@)) == (if c.len() > 0 {
            Some(c)
        } else {
            None
        }),
        descriptor_class(None) is None,
{
    reveal_strlit(".");
    assert("."@ =~= seq!['.']);
    crate::text::prefixes_and_suffixes_come_off(seq!['.'], rest);
    crate::text::prefixes_and_suffixes_come_off("class "@, c);
    crate::text::prefixes_and_suffixes_come_off("::`RTTI Type Descriptor'"@, "class "@ + c);
}

/// Other keywords come off too, and one that is none stays.
pub proof fn keywords_come_off(c: Seq<char>)
    ensures
        without_keyword("struct "@ + c) == c,
        without_keyword("union "@ + c) == c,
        without_keyword("enum "@ + c) == c,
        c.len() > 0 && c[0] != 'c' && c[0] != 's' && c[0] != 'u' && c[0] != 'e' ==> without_keyword(c) == c,
{
    reveal_strlit("class ");
    reveal_strlit("struct ");
    reveal_strlit("union ");
    reveal_strlit("enum ");
    let a = "struct "@ + c;
    let b = "union "@ + c;
    let d = "enum "@ + c;
    crate::text::prefixes_and_suffixes_come_off("struct "@, c);
    crate::text::prefixes_and_suffixes_come_off("union "@, c);
    crate::text::prefixes_and_suffixes_come_off("enum "@, c);
    assert(a[0] == 's' && b[0] == 'u' && d[0] == 'e');
    lemma_other_start(a, "class "@);
    lemma_other_start(b, "class "@);
    lemma_other_start(b, "struct "@);
    lemma_other_start(d, "class "@);
    lemma_other_start(d, "struct "@);
    lemma_other_start(d, "union "@);
    if c.len() > 0 {
        lemma_other_start(c, "class "@);
        lemma_other_start(c, "struct "@);
        lemma_other_start(c, "union "@);
        lemma_other_start(c, "enum "@);
    }
}

proof fn lemma_other_start(s: Seq<char>, p: Seq<char>)
    requires
        s.len() > 0,
        p.len() > 0,
    ensures
        s[0] != p[0] ==> strip(s, p) is None,
{
    if starts(s, p) {
        assert(s.subrange(0, p.len() as int)[0] == s[0]);
    }
}

} // verus!
