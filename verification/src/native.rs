//! Metadata in the NativeFormat of ahead-of-time compiled .NET images: its
//! variable-length numbers, its records, and the names of types in it.
//!
//! A record is found by its offset in the blob. A read that does not fit gives
//! nothing.

use vstd::prelude::*;
use vstd::string::{StrSliceExecFns, StringExecFns};
use vstd::utf8::{decode_utf8, valid_utf8};

use crate::bytes::{le, le32};
use crate::ctx::text_of;
use crate::eh::{signed, to_signed};
use crate::text::{dec, decimal};

verus! {

// ---------------------------------------------------------------------------
// Numbers
// ---------------------------------------------------------------------------

/// The unsigned number at `p` and the position after it. The trailing ones of
/// its first byte say how many bytes follow.
pub open spec fn unsigned_at(b: Seq<u8>, p: int) -> Option<(u32, int)> {
    if p < 0 || p >= b.len() {
        None
    } else {
        let v = b[p] as int;
        if v % 2 == 0 {
            Some(((v / 2) as u32, p + 1))
        } else if (v / 2) % 2 == 0 {
            if p + 1 < b.len() {
                Some(((v / 4 + 64 * b[p + 1]) as u32, p + 2))
            } else {
                None
            }
        } else if (v / 4) % 2 == 0 {
            if p + 2 < b.len() {
                Some(((v / 8 + 32 * b[p + 1] + 8192 * b[p + 2]) as u32, p + 3))
            } else {
                None
            }
        } else if (v / 8) % 2 == 0 {
            if p + 3 < b.len() {
                Some(((v / 16 + 16 * b[p + 1] + 4096 * b[p + 2] + 1048576 * b[p + 3]) as u32, p + 4))
            } else {
                None
            }
        } else if (v / 16) % 2 == 0 {
            if p + 4 < b.len() {
                Some((le(b, p + 1, 4) as u32, p + 5))
            } else {
                None
            }
        } else {
            None
        }
    }
}

/// A byte read with its sign.
pub open spec fn sbyte(v: u8) -> int {
    if v >= 128 {
        v - 256
    } else {
        v as int
    }
}

/// The signed number at `p` and the position after it. The last byte carries
/// the sign.
pub open spec fn signed_at(b: Seq<u8>, p: int) -> Option<(i32, int)> {
    if p < 0 || p >= b.len() {
        None
    } else {
        let v = b[p] as int;
        if v % 2 == 0 {
            Some(((sbyte(b[p]) / 2) as i32, p + 1))
        } else if (v / 2) % 2 == 0 {
            if p + 1 < b.len() {
                Some(((v / 4 + 64 * sbyte(b[p + 1])) as i32, p + 2))
            } else {
                None
            }
        } else if (v / 4) % 2 == 0 {
            if p + 2 < b.len() {
                Some(((v / 8 + 32 * b[p + 1] + 8192 * sbyte(b[p + 2])) as i32, p + 3))
            } else {
                None
            }
        } else if (v / 8) % 2 == 0 {
            if p + 3 < b.len() {
                Some(((v / 16 + 16 * b[p + 1] + 4096 * b[p + 2] + 1048576 * sbyte(b[p + 3])) as i32, p + 4))
            } else {
                None
            }
        } else if (v / 16) % 2 == 0 {
            if p + 4 < b.len() {
                Some((signed(le(b, p + 1, 4) as u64), p + 5))
            } else {
                None
            }
        } else {
            None
        }
    }
}

/// Reads the unsigned number at `p`, with the position after it.
pub fn decode_unsigned(b: &[u8], p: usize) -> (r: Option<(u32, usize)>)
    ensures
        match (r, unsigned_at(b@, p as int)) {
            (Some((v, q)), Some((w, t))) => v == w && q == t && p < q <= b@.len(),
            (None, None) => true,
            _ => false,
        },
{
    if p >= b.len() {
        return None;
    }
    let left: usize = b.len() - p;
    let v: u32 = b[p] as u32;
    if v % 2 == 0 {
        Some((v / 2, p + 1))
    } else if (v / 2) % 2 == 0 {
        if left < 2 {
            return None;
        }
        Some((v / 4 + 64 * (b[p + 1] as u32), p + 2))
    } else if (v / 4) % 2 == 0 {
        if left < 3 {
            return None;
        }
        Some((v / 8 + 32 * (b[p + 1] as u32) + 8192 * (b[p + 2] as u32), p + 3))
    } else if (v / 8) % 2 == 0 {
        if left < 4 {
            return None;
        }
        Some((v / 16 + 16 * (b[p + 1] as u32) + 4096 * (b[p + 2] as u32) + 1048576 * (b[p + 3] as u32), p + 4))
    } else if (v / 16) % 2 == 0 {
        if left < 5 {
            return None;
        }
        Some((le32(b, p + 1), p + 5))
    } else {
        None
    }
}

fn signed_byte(v: u8) -> (r: i32)
    ensures
        r == sbyte(v),
{
    if v >= 128 {
        v as i32 - 256
    } else {
        v as i32
    }
}

fn half(v: u8) -> (r: i32)
    requires
        v % 2 == 0,
    ensures
        r == sbyte(v) / 2,
{
    if v >= 128 {
        (v / 2) as i32 - 128
    } else {
        (v / 2) as i32
    }
}

/// Reads the signed number at `p`, with the position after it.
pub fn decode_signed(b: &[u8], p: usize) -> (r: Option<(i32, usize)>)
    ensures
        match (r, signed_at(b@, p as int)) {
            (Some((v, q)), Some((w, t))) => v == w && q == t && p < q <= b@.len(),
            (None, None) => true,
            _ => false,
        },
{
    if p >= b.len() {
        return None;
    }
    let left: usize = b.len() - p;
    let v: i32 = b[p] as i32;
    if b[p] % 2 == 0 {
        Some((half(b[p]), p + 1))
    } else if (b[p] / 2) % 2 == 0 {
        if left < 2 {
            return None;
        }
        let w: i32 = (b[p] / 4) as i32;
        Some((w + 64 * signed_byte(b[p + 1]), p + 2))
    } else if (b[p] / 4) % 2 == 0 {
        if left < 3 {
            return None;
        }
        let w: i32 = (b[p] / 8) as i32;
        Some((w + 32 * (b[p + 1] as i32) + 8192 * signed_byte(b[p + 2]), p + 3))
    } else if (b[p] / 8) % 2 == 0 {
        if left < 4 {
            return None;
        }
        let w: i32 = (b[p] / 16) as i32;
        Some((w + 16 * (b[p + 1] as i32) + 4096 * (b[p + 2] as i32) + 1048576 * signed_byte(b[p + 3]), p + 4))
    } else if (b[p] / 16) % 2 == 0 {
        if left < 5 {
            return None;
        }
        Some((to_signed(le32(b, p + 1) as u64), p + 5))
    } else {
        None
    }
}

// ---------------------------------------------------------------------------
// Handles
// ---------------------------------------------------------------------------

pub const HT_NULL: u8 = 0x0;

pub const HT_ARRAY_SIGNATURE: u8 = 0x1;

pub const HT_BY_REFERENCE_SIGNATURE: u8 = 0x2;

pub const HT_CONSTANT_STRING_VALUE: u8 = 0x1a;

pub const HT_FUNCTION_POINTER_SIGNATURE: u8 = 0x25;

pub const HT_GENERIC_PARAMETER: u8 = 0x26;

pub const HT_METHOD_TYPE_VARIABLE_SIGNATURE: u8 = 0x2c;

pub const HT_NAMESPACE_DEFINITION: u8 = 0x2f;

pub const HT_NAMESPACE_REFERENCE: u8 = 0x30;

pub const HT_POINTER_SIGNATURE: u8 = 0x32;

pub const HT_SZARRAY_SIGNATURE: u8 = 0x37;

pub const HT_TYPE_DEFINITION: u8 = 0x3a;

pub const HT_TYPE_INSTANTIATION_SIGNATURE: u8 = 0x3c;

pub const HT_TYPE_REFERENCE: u8 = 0x3d;

pub const HT_TYPE_SPECIFICATION: u8 = 0x3e;

pub const HT_TYPE_VARIABLE_SIGNATURE: u8 = 0x3f;

/// A record: what it is and where it lies in the blob.
#[derive(Clone, Copy, Debug, PartialEq, Eq, Structural)]
pub struct Handle {
    pub ty: u8,
    pub off: u32,
}

/// A handle from a token, which has the type in its top byte.
pub open spec fn token_handle(token: u32) -> Handle {
    Handle { ty: (token / 0x100_0000) as u8, off: (token % 0x100_0000) as u32 }
}

/// A handle as records hold it, with the type in its low byte.
pub open spec fn stream_handle(raw: u32) -> Handle {
    Handle { ty: (raw % 0x100) as u8, off: (raw / 0x100) as u32 }
}

impl Handle {
    pub fn null() -> (r: Handle)
        ensures
            r == (Handle { ty: HT_NULL, off: 0 }),
    {
        Handle { ty: HT_NULL, off: 0 }
    }

    pub fn from_token(token: u32) -> (r: Handle)
        ensures
            r == token_handle(token),
    {
        Handle { ty: (token / 0x100_0000) as u8, off: token % 0x100_0000 }
    }

    pub fn from_stream(raw: u32) -> (r: Handle)
        ensures
            r == stream_handle(raw),
    {
        Handle { ty: (raw % 0x100) as u8, off: raw / 0x100 }
    }
}

/// The handle at `p`.
pub open spec fn handle_at(b: Seq<u8>, p: int) -> Option<(Handle, int)> {
    match unsigned_at(b, p) {
        Some((raw, q)) => Some((stream_handle(raw), q)),
        None => None,
    }
}

/// The offset at `p` of a record whose type the field implies.
pub open spec fn typed_at(b: Seq<u8>, p: int) -> Option<(u32, int)> {
    match unsigned_at(b, p) {
        Some((raw, q)) => Some(((raw % 0x100_0000) as u32, q)),
        None => None,
    }
}

/// The position after a number.
pub open spec fn after_number(b: Seq<u8>, p: int) -> Option<int> {
    match unsigned_at(b, p) {
        Some((_, q)) => Some(q),
        None => None,
    }
}

/// The position after `n` numbers.
pub open spec fn after_numbers(b: Seq<u8>, p: int, n: nat) -> Option<int>
    decreases n,
{
    if n == 0 {
        Some(p)
    } else {
        match after_number(b, p) {
            Some(q) => after_numbers(b, q, (n - 1) as nat),
            None => None,
        }
    }
}

/// The `n` numbers at `p`.
pub open spec fn numbers_at(b: Seq<u8>, p: int, n: nat) -> Option<(Seq<u32>, int)>
    decreases n,
{
    if n == 0 {
        Some((Seq::empty(), p))
    } else {
        match numbers_at(b, p, (n - 1) as nat) {
            Some((s, q)) => match unsigned_at(b, q) {
                Some((v, r)) => Some((s.push(v), r)),
                None => None,
            },
            None => None,
        }
    }
}

/// The collection at `p`: a count and as many numbers, of which there are no
/// more than the blob has bytes.
pub open spec fn collection_at(b: Seq<u8>, p: int) -> Option<(Seq<u32>, int)> {
    match unsigned_at(b, p) {
        Some((count, q)) => numbers_at(
            b,
            q,
            if count <= b.len() {
                count as nat
            } else {
                b.len()
            },
        ),
        None => None,
    }
}

pub open spec fn as_offsets(s: Seq<u32>) -> Seq<u32> {
    s.map_values(|v: u32| (v % 0x100_0000) as u32)
}

pub open spec fn as_handles(s: Seq<u32>) -> Seq<Handle> {
    s.map_values(|v: u32| stream_handle(v))
}

/// The collection of offsets at `p`.
pub open spec fn offsets_at(b: Seq<u8>, p: int) -> Option<(Seq<u32>, int)> {
    match collection_at(b, p) {
        Some((s, q)) => Some((as_offsets(s), q)),
        None => None,
    }
}

fn read_handle(b: &[u8], p: usize) -> (r: Option<(Handle, usize)>)
    ensures
        match (r, handle_at(b@, p as int)) {
            (Some((v, q)), Some((w, t))) => v == w && q == t,
            (None, None) => true,
            _ => false,
        },
{
    match decode_unsigned(b, p) {
        Some((raw, q)) => Some((Handle::from_stream(raw), q)),
        None => None,
    }
}

fn read_typed(b: &[u8], p: usize) -> (r: Option<(u32, usize)>)
    ensures
        match (r, typed_at(b@, p as int)) {
            (Some((v, q)), Some((w, t))) => v == w && q == t,
            (None, None) => true,
            _ => false,
        },
{
    match decode_unsigned(b, p) {
        Some((raw, q)) => Some((raw % 0x100_0000, q)),
        None => None,
    }
}

fn skip_numbers(b: &[u8], p: usize, n: usize) -> (r: Option<usize>)
    ensures
        match (r, after_numbers(b@, p as int, n as nat)) {
            (Some(q), Some(t)) => q == t,
            (None, None) => true,
            _ => false,
        },
{
    let mut at: usize = p;
    let mut left: usize = n;
    while left > 0
        invariant
            after_numbers(b@, p as int, n as nat) == after_numbers(b@, at as int, left as nat),
        decreases left,
    {
        match decode_unsigned(b, at) {
            Some((_, q)) => {
                at = q;
            },
            None => {
                return None;
            },
        }
        left = left - 1;
    }
    Some(at)
}

proof fn lemma_numbers_fail(b: Seq<u8>, p: int, i: nat, n: nat)
    requires
        i <= n,
        numbers_at(b, p, i) is None,
    ensures
        numbers_at(b, p, n) is None,
    decreases n,
{
    if i < n {
        lemma_numbers_fail(b, p, i, (n - 1) as nat);
    }
}

fn read_collection(b: &[u8], p: usize) -> (r: Option<(Vec<u32>, usize)>)
    ensures
        match (r, collection_at(b@, p as int)) {
            (Some((v, q)), Some((w, t))) => v@ == w && q == t,
            (None, None) => true,
            _ => false,
        },
{
    let (count, start) = match decode_unsigned(b, p) {
        Some(x) => x,
        None => {
            return None;
        },
    };
    let n: usize = if count as u64 <= b.len() as u64 {
        count as usize
    } else {
        b.len()
    };
    let mut out: Vec<u32> = Vec::new();
    let mut at: usize = start;
    let mut i: usize = 0;
    assert(out@ =~= Seq::<u32>::empty());
    while i < n
        invariant
            i <= n,
            collection_at(b@, p as int) == numbers_at(b@, start as int, n as nat),
            numbers_at(b@, start as int, i as nat) == Some((out@, at as int)),
        decreases n - i,
    {
        match decode_unsigned(b, at) {
            Some((v, q)) => {
                out.push(v);
                at = q;
            },
            None => {
                proof {
                    lemma_numbers_fail(b@, start as int, (i + 1) as nat, n as nat);
                }
                return None;
            },
        }
        i = i + 1;
    }
    Some((out, at))
}

pub fn read_offsets(b: &[u8], p: usize) -> (r: Option<(Vec<u32>, usize)>)
    ensures
        match (r, offsets_at(b@, p as int)) {
            (Some((v, q)), Some((w, t))) => v@ == w && q == t,
            (None, None) => true,
            _ => false,
        },
{
    let (raw, q) = match read_collection(b, p) {
        Some(x) => x,
        None => {
            return None;
        },
    };
    let mut out: Vec<u32> = Vec::new();
    let mut i: usize = 0;
    while i < raw.len()
        invariant
            i <= raw@.len(),
            out@.len() == i,
            forall|j: int| 0 <= j < i ==> #[trigger] out@[j] == as_offsets(raw@)[j],
        decreases raw@.len() - i,
    {
        out.push(raw[i] % 0x100_0000);
        i = i + 1;
    }
    assert(out@ =~= as_offsets(raw@));
    Some((out, q))
}

fn read_handles(b: &[u8], p: usize) -> (r: Option<(Vec<Handle>, usize)>)
    ensures
        match (r, collection_at(b@, p as int)) {
            (Some((v, q)), Some((w, t))) => v@ == as_handles(w) && q == t,
            (None, None) => true,
            _ => false,
        },
{
    let (raw, q) = match read_collection(b, p) {
        Some(x) => x,
        None => {
            return None;
        },
    };
    let mut out: Vec<Handle> = Vec::new();
    let mut i: usize = 0;
    while i < raw.len()
        invariant
            i <= raw@.len(),
            out@.len() == i,
            forall|j: int| 0 <= j < i ==> #[trigger] out@[j] == as_handles(raw@)[j],
        decreases raw@.len() - i,
    {
        out.push(Handle::from_stream(raw[i]));
        i = i + 1;
    }
    assert(out@ =~= as_handles(raw@));
    Some((out, q))
}

// ---------------------------------------------------------------------------
// Strings
// ---------------------------------------------------------------------------

/// What `String::from_utf8_lossy` makes of bytes.
pub uninterp spec fn lossy_text(b: Seq<u8>) -> Seq<char>;

/// Calls `String::from_utf8_lossy`. Valid UTF-8 gives the text that it encodes;
/// of other bytes the contract says only that the text depends on them alone.
#[verifier::external_body]
pub(crate) fn lossy(b: &[u8]) -> (r: String)
    ensures
        r@ == lossy_text(b@),
        valid_utf8(b@) ==> r@ == decode_utf8(b@),
{
    String::from_utf8_lossy(b).into_owned()
}

/// The text at an offset: a length and as many bytes. Offset zero is no text.
pub open spec fn text_at(b: Seq<u8>, off: u32) -> Option<Seq<char>> {
    if off == 0 {
        Some(Seq::empty())
    } else {
        match unsigned_at(b, off as int) {
            Some((n, p)) => if p + n <= b.len() {
                Some(lossy_text(b.subrange(p, p + n)))
            } else {
                None
            },
            None => None,
        }
    }
}

/// The bytes of the text at an offset other than zero.
pub open spec fn text_bytes(b: Seq<u8>, off: u32) -> Option<Seq<u8>> {
    if off == 0 {
        None
    } else {
        match unsigned_at(b, off as int) {
            Some((n, p)) => if p + n <= b.len() {
                Some(b.subrange(p, p + n))
            } else {
                None
            },
            None => None,
        }
    }
}

/// The text at an offset. Valid UTF-8 gives the text that it encodes.
pub fn read_string(b: &[u8], off: u32) -> (r: Option<String>)
    ensures
        text_of(r) == text_at(b@, off),
        text_bytes(b@, off) matches Some(t) ==> (valid_utf8(t) ==> text_of(r) == Some(decode_utf8(t))),
{
    if off == 0 {
        let s = String::new();
        assert(s@ =~= Seq::<char>::empty());
        return Some(s);
    }
    if off as u64 >= b.len() as u64 {
        return None;
    }
    match decode_unsigned(b, off as usize) {
        Some((n, p)) => {
            if n as u64 > (b.len() - p) as u64 {
                return None;
            }
            Some(lossy(vstd::slice::slice_subrange(b, p, p + n as usize)))
        },
        None => None,
    }
}

/// The text at an offset, or none.
pub open spec fn name_at(b: Seq<u8>, off: u32) -> Seq<char> {
    match text_at(b, off) {
        Some(s) => s,
        None => Seq::empty(),
    }
}

pub fn read_name(b: &[u8], off: u32) -> (r: String)
    ensures
        r@ == name_at(b@, off),
{
    match read_string(b, off) {
        Some(s) => s,
        None => {
            let s = String::new();
            assert(s@ =~= Seq::<char>::empty());
            s
        },
    }
}

// ---------------------------------------------------------------------------
// Records
// ---------------------------------------------------------------------------

/// The name and the signature of the method at an offset.
pub open spec fn method_at(b: Seq<u8>, off: u32) -> Option<(u32, u32)> {
    match after_numbers(b, off as int, 2) {
        Some(p) => match typed_at(b, p) {
            Some((name, q)) => match typed_at(b, q) {
                Some((sig, _)) => Some((name, sig)),
                None => None,
            },
            None => None,
        },
        None => None,
    }
}

/// A type definition: its namespace, its name, the type around it, and where
/// its nested types and methods stand.
pub ghost struct TypeAt {
    pub ns: u32,
    pub name: u32,
    pub enclosing: u32,
    pub rest: int,
}

pub open spec fn type_at(b: Seq<u8>, off: u32) -> Option<TypeAt> {
    match after_numbers(b, off as int, 2) {
        Some(p) => match typed_at(b, p) {
            Some((ns, p1)) => match typed_at(b, p1) {
                Some((name, p2)) => match after_numbers(b, p2, 2) {
                    Some(p3) => match typed_at(b, p3) {
                        Some((enclosing, p4)) => Some(TypeAt { ns, name, enclosing, rest: p4 }),
                        None => None,
                    },
                    None => None,
                },
                None => None,
            },
            None => None,
        },
        None => None,
    }
}

/// The nested types and the methods of the type at an offset.
pub open spec fn members_at(b: Seq<u8>, off: u32) -> Option<(Seq<u32>, Seq<u32>)> {
    match type_at(b, off) {
        Some(t) => match offsets_at(b, t.rest) {
            Some((nested, p)) => match offsets_at(b, p) {
                Some((methods, _)) => Some((nested, methods)),
                None => None,
            },
            None => None,
        },
        None => None,
    }
}

/// The types and the namespaces in the namespace at an offset.
pub open spec fn namespace_at(b: Seq<u8>, off: u32) -> Option<(Seq<u32>, Seq<u32>)> {
    match after_numbers(b, off as int, 2) {
        Some(p) => match offsets_at(b, p) {
            Some((types, p1)) => match offsets_at(b, p1) {
                Some((_, p2)) => match offsets_at(b, p2) {
                    Some((children, _)) => Some((types, children)),
                    None => None,
                },
                None => None,
            },
            None => None,
        },
        None => None,
    }
}

/// The root namespace of the scope at an offset. The public key is a count and
/// as many bytes.
pub open spec fn root_at(b: Seq<u8>, off: u32) -> Option<u32> {
    match after_numbers(b, off as int, 7) {
        Some(p) => match unsigned_at(b, p) {
            Some((n, q)) => match after_number(b, q + n) {
                Some(r) => match typed_at(b, r) {
                    Some((root, _)) => Some(root),
                    None => None,
                },
                None => None,
            },
            None => None,
        },
        None => None,
    }
}

/// The types in the signature at an offset: the returned one and the parameters.
pub open spec fn signature_at(b: Seq<u8>, off: u32) -> Option<(Handle, Seq<Handle>)> {
    match after_number(b, off as int) {
        Some(p) => match signed_at(b, p) {
            Some((_, q)) => match handle_at(b, q) {
                Some((ret, r)) => match collection_at(b, r) {
                    Some((params, _)) => Some((ret, as_handles(params))),
                    None => None,
                },
                None => None,
            },
            None => None,
        },
        None => None,
    }
}

/// A record of a parent and a name: a type or namespace reference, or a
/// namespace definition.
pub open spec fn child_at(b: Seq<u8>, off: u32) -> Option<(Handle, u32)> {
    match handle_at(b, off as int) {
        Some((parent, p)) => match typed_at(b, p) {
            Some((name, _)) => Some((parent, name)),
            None => None,
        },
        None => None,
    }
}

/// The one handle in the record at an offset.
pub open spec fn element_at(b: Seq<u8>, off: u32) -> Option<Handle> {
    match handle_at(b, off as int) {
        Some((h, _)) => Some(h),
        None => None,
    }
}

/// The element and the rank of the array type at an offset.
pub open spec fn array_at(b: Seq<u8>, off: u32) -> Option<(Handle, i32)> {
    match handle_at(b, off as int) {
        Some((h, p)) => match signed_at(b, p) {
            Some((rank, _)) => Some((h, rank)),
            None => None,
        },
        None => None,
    }
}

/// The number of the type variable at an offset.
pub open spec fn variable_at(b: Seq<u8>, off: u32) -> u32 {
    match unsigned_at(b, off as int) {
        Some((n, _)) => n,
        None => 0,
    }
}

/// The name of the generic parameter at an offset.
pub open spec fn parameter_at(b: Seq<u8>, off: u32) -> Option<Seq<char>> {
    match after_numbers(b, off as int, 3) {
        Some(p) => match handle_at(b, p) {
            Some((h, _)) => text_at(b, h.off),
            None => None,
        },
        None => None,
    }
}

/// A position in the blob, or past its end.
fn place(b: &[u8], off: u32) -> (p: usize)
    ensures
        unsigned_at(b@, p as int) == unsigned_at(b@, off as int),
        p == off || (p >= b@.len() && off >= b@.len()),
{
    if off as u64 >= b.len() as u64 {
        b.len()
    } else {
        off as usize
    }
}

proof fn lemma_after_same(b: Seq<u8>, p: int, q: int, n: nat)
    requires
        n > 0,
        unsigned_at(b, p) == unsigned_at(b, q),
    ensures
        after_numbers(b, p, n) == after_numbers(b, q, n),
{
}

/// The name and the signature of the method at an offset.
pub fn method_name_and_sig(b: &[u8], off: u32) -> (r: Option<(u32, u32)>)
    ensures
        r == method_at(b@, off),
{
    let p0: usize = place(b, off);
    proof {
        lemma_after_same(b@, p0 as int, off as int, 2);
    }
    let p: usize = match skip_numbers(b, p0, 2) {
        Some(p) => p,
        None => {
            return None;
        },
    };
    let (name, q) = match read_typed(b, p) {
        Some(x) => x,
        None => {
            return None;
        },
    };
    match read_typed(b, q) {
        Some((sig, _)) => Some((name, sig)),
        None => None,
    }
}

/// A type definition: its namespace, its name, the type around it, and where
/// its nested types and methods stand.
pub struct TypeDef {
    pub ns: u32,
    pub name: u32,
    pub enclosing: u32,
    pub rest: usize,
}

fn type_definition(b: &[u8], off: u32) -> (r: Option<TypeDef>)
    ensures
        match (r, type_at(b@, off)) {
            (Some(d), Some(t)) => d.ns == t.ns && d.name == t.name && d.enclosing == t.enclosing && d.rest == t.rest,
            (None, None) => true,
            _ => false,
        },
{
    let p0: usize = place(b, off);
    proof {
        lemma_after_same(b@, p0 as int, off as int, 2);
    }
    let p: usize = match skip_numbers(b, p0, 2) {
        Some(p) => p,
        None => {
            return None;
        },
    };
    let (ns, p1) = match read_typed(b, p) {
        Some(x) => x,
        None => {
            return None;
        },
    };
    let (name, p2) = match read_typed(b, p1) {
        Some(x) => x,
        None => {
            return None;
        },
    };
    let p3: usize = match skip_numbers(b, p2, 2) {
        Some(p) => p,
        None => {
            return None;
        },
    };
    match read_typed(b, p3) {
        Some((enclosing, rest)) => Some(TypeDef { ns, name, enclosing, rest }),
        None => None,
    }
}

/// The nested types and the methods of the type at an offset.
pub fn type_members(b: &[u8], off: u32) -> (r: Option<(Vec<u32>, Vec<u32>)>)
    ensures
        match (r, members_at(b@, off)) {
            (Some((n, m)), Some((x, y))) => n@ == x && m@ == y,
            (None, None) => true,
            _ => false,
        },
{
    let d = match type_definition(b, off) {
        Some(d) => d,
        None => {
            return None;
        },
    };
    let (nested, p) = match read_offsets(b, d.rest) {
        Some(x) => x,
        None => {
            return None;
        },
    };
    match read_offsets(b, p) {
        Some((methods, _)) => Some((nested, methods)),
        None => None,
    }
}

/// The types and the namespaces in the namespace at an offset.
pub fn namespace_def_children(b: &[u8], off: u32) -> (r: Option<(Vec<u32>, Vec<u32>)>)
    ensures
        match (r, namespace_at(b@, off)) {
            (Some((n, m)), Some((x, y))) => n@ == x && m@ == y,
            (None, None) => true,
            _ => false,
        },
{
    let p0: usize = place(b, off);
    proof {
        lemma_after_same(b@, p0 as int, off as int, 2);
    }
    let p: usize = match skip_numbers(b, p0, 2) {
        Some(p) => p,
        None => {
            return None;
        },
    };
    let (types, p1) = match read_offsets(b, p) {
        Some(x) => x,
        None => {
            return None;
        },
    };
    let p2: usize = match read_offsets(b, p1) {
        Some((_, q)) => q,
        None => {
            return None;
        },
    };
    match read_offsets(b, p2) {
        Some((children, _)) => Some((types, children)),
        None => None,
    }
}

/// The root namespace of the scope at an offset.
pub fn scope_root_ns(b: &[u8], off: u32) -> (r: Option<u32>)
    ensures
        r == root_at(b@, off),
{
    let p0: usize = place(b, off);
    proof {
        lemma_after_same(b@, p0 as int, off as int, 7);
    }
    let p: usize = match skip_numbers(b, p0, 7) {
        Some(p) => p,
        None => {
            return None;
        },
    };
    let (n, q) = match decode_unsigned(b, p) {
        Some(x) => x,
        None => {
            return None;
        },
    };
    if n as u64 >= (b.len() - q) as u64 {
        return None;
    }
    let r: usize = match decode_unsigned(b, q + n as usize) {
        Some((_, r)) => r,
        None => {
            return None;
        },
    };
    match read_typed(b, r) {
        Some((root, _)) => Some(root),
        None => None,
    }
}

/// The types in the signature at an offset: the returned one and the parameters.
pub fn method_signature_types(b: &[u8], off: u32) -> (r: Option<(Handle, Vec<Handle>)>)
    ensures
        match (r, signature_at(b@, off)) {
            (Some((h, v)), Some((g, w))) => h == g && v@ == w,
            (None, None) => true,
            _ => false,
        },
{
    let p: usize = match decode_unsigned(b, place(b, off)) {
        Some((_, p)) => p,
        None => {
            return None;
        },
    };
    let q: usize = match decode_signed(b, p) {
        Some((_, q)) => q,
        None => {
            return None;
        },
    };
    let (ret, t) = match read_handle(b, q) {
        Some(x) => x,
        None => {
            return None;
        },
    };
    match read_handles(b, t) {
        Some((params, _)) => Some((ret, params)),
        None => None,
    }
}

fn read_child(b: &[u8], off: u32) -> (r: Option<(Handle, u32)>)
    ensures
        r == child_at(b@, off),
{
    let (parent, p) = match read_handle(b, place(b, off)) {
        Some(x) => x,
        None => {
            return None;
        },
    };
    match read_typed(b, p) {
        Some((name, _)) => Some((parent, name)),
        None => None,
    }
}

fn read_element(b: &[u8], off: u32) -> (r: Option<Handle>)
    ensures
        r == element_at(b@, off),
{
    match read_handle(b, place(b, off)) {
        Some((h, _)) => Some(h),
        None => None,
    }
}

fn read_array(b: &[u8], off: u32) -> (r: Option<(Handle, i32)>)
    ensures
        r == array_at(b@, off),
{
    let (h, p) = match read_handle(b, place(b, off)) {
        Some(x) => x,
        None => {
            return None;
        },
    };
    match decode_signed(b, p) {
        Some((rank, _)) => Some((h, rank)),
        None => None,
    }
}

fn read_variable(b: &[u8], off: u32) -> (r: u32)
    ensures
        r == variable_at(b@, off),
{
    match decode_unsigned(b, place(b, off)) {
        Some((n, _)) => n,
        None => 0,
    }
}

fn read_parameter(b: &[u8], off: u32) -> (r: Option<String>)
    ensures
        text_of(r) == parameter_at(b@, off),
{
    let p0: usize = place(b, off);
    proof {
        lemma_after_same(b@, p0 as int, off as int, 3);
    }
    let p: usize = match skip_numbers(b, p0, 3) {
        Some(p) => p,
        None => {
            return None;
        },
    };
    match read_handle(b, p) {
        Some((h, _)) => read_string(b, h.off),
        None => None,
    }
}

// ---------------------------------------------------------------------------
// The names of types
// ---------------------------------------------------------------------------

/// How deep the name of a type may nest.
pub const MAX_NAME_DEPTH: u32 = 64;

/// A name and a dot, if there is a name.
pub open spec fn dotted(s: Seq<char>) -> Seq<char> {
    if s.len() == 0 {
        s
    } else {
        s + "."@
    }
}

/// The name of a namespace, with those around it. `ty` is the type of such
/// records: references or definitions.
pub open spec fn namespace_text(b: Seq<u8>, ty: u8, off: u32, depth: int) -> Seq<char>
    decreases MAX_NAME_DEPTH + 1 - depth,
{
    if depth > MAX_NAME_DEPTH || off == 0 {
        Seq::empty()
    } else {
        match child_at(b, off) {
            Some((parent, name)) => if parent.ty == ty {
                dotted(namespace_text(b, ty, parent.off, depth + 1)) + name_at(b, name)
            } else {
                name_at(b, name)
            },
            None => Seq::empty(),
        }
    }
}

/// The rank of an array in brackets.
pub open spec fn rank_text(rank: i32) -> Seq<char> {
    if rank > 1 {
        seq!['['] + Seq::new((rank - 1) as nat, |i: int| ',') + seq![']']
    } else {
        seq!['[', '*', ']']
    }
}

/// The text of an element, if there is one.
pub open spec fn element_text(b: Seq<u8>, h: Option<Handle>, qualified: bool, depth: int) -> Seq<char>
    decreases MAX_NAME_DEPTH + 2 - depth, 2nat,
{
    match h {
        Some(e) => type_text(b, e, qualified, depth),
        None => Seq::empty(),
    }
}

/// The name of a type, `depth` levels deep in another. Where it nests too deep,
/// dots stand for it.
pub open spec fn type_text(b: Seq<u8>, h: Handle, qualified: bool, depth: int) -> Seq<char>
    decreases MAX_NAME_DEPTH + 2 - depth, 1nat,
{
    if depth > MAX_NAME_DEPTH {
        "..."@
    } else {
        inner_text(b, h, qualified, depth + 1)
    }
}

/// The name of a type by what its record is. A nested type is qualified by the
/// type around it, and another by its namespace where that is asked for.
pub open spec fn inner_text(b: Seq<u8>, h: Handle, qualified: bool, depth: int) -> Seq<char>
    decreases MAX_NAME_DEPTH + 2 - depth, 3nat,
{
    if depth > MAX_NAME_DEPTH + 1 {
        Seq::empty()
    } else if h.ty == HT_TYPE_REFERENCE {
        match child_at(b, h.off) {
            Some((parent, name)) => if parent.ty == HT_NULL {
                name_at(b, name)
            } else if parent.ty != HT_NAMESPACE_REFERENCE {
                type_text(b, parent, qualified, depth) + "."@ + name_at(b, name)
            } else if qualified {
                dotted(namespace_text(b, HT_NAMESPACE_REFERENCE, parent.off, depth)) + name_at(b, name)
            } else {
                name_at(b, name)
            },
            None => Seq::empty(),
        }
    } else if h.ty == HT_TYPE_DEFINITION {
        match type_at(b, h.off) {
            Some(t) => if t.enclosing != 0 {
                type_text(b, Handle { ty: HT_TYPE_DEFINITION, off: t.enclosing }, qualified, depth) + "."@ + name_at(
                    b,
                    t.name,
                )
            } else if qualified && t.ns != 0 {
                dotted(namespace_text(b, HT_NAMESPACE_DEFINITION, t.ns, depth)) + name_at(b, t.name)
            } else {
                name_at(b, t.name)
            },
            None => Seq::empty(),
        }
    } else if h.ty == HT_TYPE_SPECIFICATION || h.ty == HT_TYPE_INSTANTIATION_SIGNATURE {
        element_text(b, element_at(b, h.off), qualified, depth)
    } else if h.ty == HT_SZARRAY_SIGNATURE {
        element_text(b, element_at(b, h.off), qualified, depth) + "[]"@
    } else if h.ty == HT_ARRAY_SIGNATURE {
        match array_at(b, h.off) {
            Some((e, rank)) => type_text(b, e, qualified, depth) + rank_text(rank),
            None => Seq::empty(),
        }
    } else if h.ty == HT_POINTER_SIGNATURE {
        element_text(b, element_at(b, h.off), false, depth) + "*"@
    } else if h.ty == HT_BY_REFERENCE_SIGNATURE {
        element_text(b, element_at(b, h.off), false, depth) + "&"@
    } else if h.ty == HT_FUNCTION_POINTER_SIGNATURE {
        "IntPtr"@
    } else if h.ty == HT_CONSTANT_STRING_VALUE {
        name_at(b, h.off)
    } else if h.ty == HT_GENERIC_PARAMETER {
        match parameter_at(b, h.off) {
            Some(s) => s,
            None => Seq::empty(),
        }
    } else if h.ty == HT_TYPE_VARIABLE_SIGNATURE {
        "!"@ + dec(variable_at(b, h.off) as nat)
    } else if h.ty == HT_METHOD_TYPE_VARIABLE_SIGNATURE {
        "!!"@ + dec(variable_at(b, h.off) as nat)
    } else if h.ty == HT_NULL {
        Seq::empty()
    } else {
        "???"@
    }
}

fn nothing() -> (s: String)
    ensures
        s@ == Seq::<char>::empty(),
{
    let s = String::new();
    assert(s@ =~= Seq::<char>::empty());
    s
}

fn with_dot(s: String) -> (r: String)
    ensures
        r@ == dotted(s@),
{
    if s.as_str().is_empty() {
        s
    } else {
        s.concat(".")
    }
}

fn namespace_name(b: &[u8], ty: u8, off: u32, depth: u32) -> (r: String)
    requires
        depth <= MAX_NAME_DEPTH + 1,
    ensures
        r@ == namespace_text(b@, ty, off, depth as int),
    decreases MAX_NAME_DEPTH + 1 - depth,
{
    if depth > MAX_NAME_DEPTH || off == 0 {
        return nothing();
    }
    match read_child(b, off) {
        Some((parent, name)) => {
            let own = read_name(b, name);
            if parent.ty == ty {
                with_dot(namespace_name(b, ty, parent.off, depth + 1)).concat(own.as_str())
            } else {
                own
            }
        },
        None => nothing(),
    }
}

fn rank_name(rank: i32) -> (s: String)
    ensures
        s@ == rank_text(rank),
{
    let mut s: String = String::new();
    s.push('[');
    if rank > 1 {
        let mut i: i32 = 1;
        assert(s@ =~= seq!['['] + Seq::new(0, |i: int| ','));
        while i < rank
            invariant
                1 <= i <= rank,
                s@ == seq!['['] + Seq::new((i - 1) as nat, |i: int| ','),
            decreases rank - i,
        {
            s.push(',');
            i = i + 1;
            assert(s@ =~= seq!['['] + Seq::new((i - 1) as nat, |i: int| ','));
        }
    } else {
        s.push('*');
    }
    s.push(']');
    assert(s@ =~= rank_text(rank));
    s
}

fn element_name(b: &[u8], h: Option<Handle>, qualified: bool, depth: u32) -> (r: String)
    requires
        depth <= MAX_NAME_DEPTH + 1,
    ensures
        r@ == element_text(b@, h, qualified, depth as int),
    decreases MAX_NAME_DEPTH + 2 - depth, 2nat,
{
    match h {
        Some(e) => type_name_at(b, e, qualified, depth),
        None => nothing(),
    }
}

/// The name of a type, `depth` levels deep in another.
pub fn type_name_at(b: &[u8], h: Handle, qualified: bool, depth: u32) -> (r: String)
    requires
        depth <= MAX_NAME_DEPTH + 1,
    ensures
        r@ == type_text(b@, h, qualified, depth as int),
    decreases MAX_NAME_DEPTH + 2 - depth, 1nat,
{
    if depth > MAX_NAME_DEPTH {
        String::from_str("...")
    } else {
        inner_name(b, h, qualified, depth + 1)
    }
}

fn inner_name(b: &[u8], h: Handle, qualified: bool, depth: u32) -> (r: String)
    requires
        depth <= MAX_NAME_DEPTH + 1,
    ensures
        r@ == inner_text(b@, h, qualified, depth as int),
    decreases MAX_NAME_DEPTH + 2 - depth, 3nat,
{
    if h.ty == HT_TYPE_REFERENCE {
        match read_child(b, h.off) {
            Some((parent, name)) => {
                let own = read_name(b, name);
                if parent.ty == HT_NULL {
                    own
                } else if parent.ty != HT_NAMESPACE_REFERENCE {
                    type_name_at(b, parent, qualified, depth).concat(".").concat(own.as_str())
                } else if qualified {
                    with_dot(namespace_name(b, HT_NAMESPACE_REFERENCE, parent.off, depth)).concat(own.as_str())
                } else {
                    own
                }
            },
            None => nothing(),
        }
    } else if h.ty == HT_TYPE_DEFINITION {
        match type_definition(b, h.off) {
            Some(t) => {
                let own = read_name(b, t.name);
                if t.enclosing != 0 {
                    let around = Handle { ty: HT_TYPE_DEFINITION, off: t.enclosing };
                    type_name_at(b, around, qualified, depth).concat(".").concat(own.as_str())
                } else if qualified && t.ns != 0 {
                    with_dot(namespace_name(b, HT_NAMESPACE_DEFINITION, t.ns, depth)).concat(own.as_str())
                } else {
                    own
                }
            },
            None => nothing(),
        }
    } else if h.ty == HT_TYPE_SPECIFICATION || h.ty == HT_TYPE_INSTANTIATION_SIGNATURE {
        element_name(b, read_element(b, h.off), qualified, depth)
    } else if h.ty == HT_SZARRAY_SIGNATURE {
        element_name(b, read_element(b, h.off), qualified, depth).concat("[]")
    } else if h.ty == HT_ARRAY_SIGNATURE {
        match read_array(b, h.off) {
            Some((e, rank)) => type_name_at(b, e, qualified, depth).concat(rank_name(rank).as_str()),
            None => nothing(),
        }
    } else if h.ty == HT_POINTER_SIGNATURE {
        element_name(b, read_element(b, h.off), false, depth).concat("*")
    } else if h.ty == HT_BY_REFERENCE_SIGNATURE {
        element_name(b, read_element(b, h.off), false, depth).concat("&")
    } else if h.ty == HT_FUNCTION_POINTER_SIGNATURE {
        String::from_str("IntPtr")
    } else if h.ty == HT_CONSTANT_STRING_VALUE {
        read_name(b, h.off)
    } else if h.ty == HT_GENERIC_PARAMETER {
        match read_parameter(b, h.off) {
            Some(s) => s,
            None => nothing(),
        }
    } else if h.ty == HT_TYPE_VARIABLE_SIGNATURE {
        String::from_str("!").concat(decimal(read_variable(b, h.off) as u64).as_str())
    } else if h.ty == HT_METHOD_TYPE_VARIABLE_SIGNATURE {
        String::from_str("!!").concat(decimal(read_variable(b, h.off) as u64).as_str())
    } else if h.ty == HT_NULL {
        nothing()
    } else {
        String::from_str("???")
    }
}

// ---------------------------------------------------------------------------
// What the records mean
// ---------------------------------------------------------------------------

/// The bytes at `p` are those of a number, as it is written shortest: its low bits behind
/// as many ones and a zero as bytes follow.
pub open spec fn spells(b: Seq<u8>, p: int, v: u32) -> bool {
    if v < 0x80 {
        p < b.len() && b[p] == 2 * v
    } else if v < 0x4000 {
        p + 1 < b.len() && b[p] == 4 * (v % 0x40) + 1 && b[p + 1] == v / 0x40
    } else if v < 0x20_0000 {
        p + 2 < b.len() && b[p] == 8 * (v % 0x20) + 3 && b[p + 1] == (v / 0x20) % 0x100 && b[p + 2] == v / 0x2000
    } else if v < 0x1000_0000 {
        p + 3 < b.len() && b[p] == 16 * (v % 0x10) + 7 && b[p + 1] == (v / 0x10) % 0x100 && b[p + 2] == (v / 0x1000)
            % 0x100 && b[p + 3] == v / 0x10_0000
    } else {
        p + 4 < b.len() && b[p] == 15 && b[p + 1] == v % 0x100 && b[p + 2] == (v / 0x100) % 0x100 && b[p + 3] == (v
            / 0x1_0000) % 0x100 && b[p + 4] == v / 0x100_0000
    }
}

/// Reading gives back the number that was written, and goes on behind it.
#[verifier::spinoff_prover]
#[verifier::rlimit(60)]
pub proof fn numbers_read_back(b: Seq<u8>, p: int, v: u32)
    requires
        0 <= p,
        spells(b, p, v),
    ensures
        unsigned_at(b, p) == Some(
            (
                v,
                p + if v < 0x80 {
                    1int
                } else if v < 0x4000 {
                    2
                } else if v < 0x20_0000 {
                    3
                } else if v < 0x1000_0000 {
                    4
                } else {
                    5
                },
            ),
        ),
{
    lemma_number_parts(v as int);
    if v < 0x80 {
    } else if v < 0x4000 {
        lemma_two_bytes(b, p, (v % 0x40) as int, (v / 0x40) as int);
    } else if v < 0x20_0000 {
        let rest = (v / 0x20) as int;
        lemma_three_bytes(b, p, (v % 0x20) as int, rest % 0x100, rest / 0x100);
    } else if v < 0x1000_0000 {
        let rest = (v / 0x10) as int;
        let more = rest / 0x100;
        lemma_four_bytes(b, p, (v % 0x10) as int, rest % 0x100, more % 0x100, more / 0x100);
    } else {
        let rest = (v / 0x100) as int;
        let more = rest / 0x100;
        lemma_five_bytes(b, p, (v % 0x100) as int, rest % 0x100, more % 0x100, more / 0x100);
    }
}

proof fn lemma_number_parts(v: int)
    requires
        0 <= v,
    ensures
        v / 0x2000 == (v / 0x20) / 0x100,
        v / 0x1000 == (v / 0x10) / 0x100,
        v / 0x10_0000 == (v / 0x1000) / 0x100,
        v / 0x1_0000 == (v / 0x100) / 0x100,
        v / 0x100_0000 == (v / 0x1_0000) / 0x100,
        v == v % 0x40 + 0x40 * (v / 0x40),
        v == v % 0x20 + 0x20 * (v / 0x20),
        v == v % 0x10 + 0x10 * (v / 0x10),
        v == v % 0x100 + 0x100 * (v / 0x100),
{
}

proof fn lemma_two_bytes(b: Seq<u8>, p: int, x: int, y: int)
    requires
        0 <= p,
        p + 1 < b.len(),
        0 <= x < 0x40,
        b[p] as int == 4 * x + 1,
        b[p + 1] as int == y,
    ensures
        unsigned_at(b, p) == Some(((x + 0x40 * y) as u32, p + 2)),
{
}

proof fn lemma_three_bytes(b: Seq<u8>, p: int, x: int, y: int, z: int)
    requires
        0 <= p,
        p + 2 < b.len(),
        0 <= x < 0x20,
        b[p] as int == 8 * x + 3,
        b[p + 1] as int == y,
        b[p + 2] as int == z,
    ensures
        unsigned_at(b, p) == Some(((x + 0x20 * y + 0x2000 * z) as u32, p + 3)),
{
    assert((8 * x + 3) / 2 == 4 * x + 1 && (8 * x + 3) / 4 == 2 * x);
}

proof fn lemma_four_bytes(b: Seq<u8>, p: int, x: int, y: int, z: int, w: int)
    requires
        0 <= p,
        p + 3 < b.len(),
        0 <= x < 0x10,
        b[p] as int == 16 * x + 7,
        b[p + 1] as int == y,
        b[p + 2] as int == z,
        b[p + 3] as int == w,
    ensures
        unsigned_at(b, p) == Some(((x + 0x10 * y + 0x1000 * z + 0x10_0000 * w) as u32, p + 4)),
{
    assert((16 * x + 7) / 2 == 8 * x + 3 && (16 * x + 7) / 4 == 4 * x + 1 && (16 * x + 7) / 8 == 2 * x);
}

proof fn lemma_five_bytes(b: Seq<u8>, p: int, x: int, y: int, z: int, w: int)
    requires
        0 <= p,
        p + 4 < b.len(),
        b[p] == 15,
        b[p + 1] as int == x,
        b[p + 2] as int == y,
        b[p + 3] as int == z,
        b[p + 4] as int == w,
    ensures
        unsigned_at(b, p) == Some(((x + 0x100 * y + 0x1_0000 * z + 0x100_0000 * w) as u32, p + 5)),
{
    crate::bytes::the_lowest_byte_comes_first(b, p + 1);
}

/// A number of one byte with a sign: the upper seven bits, of which the first is the
/// sign.
pub proof fn short_numbers_have_a_sign(b: Seq<u8>, p: int, v: int)
    requires
        0 <= p < b.len(),
        -64 <= v < 64,
        b[p] as int == (2 * v) % 256,
    ensures
        signed_at(b, p) == Some((v as i32, p + 1)),
{
}

/// A number of two bytes with a sign.
pub proof fn two_bytes_have_a_sign(b: Seq<u8>, p: int, v: int)
    requires
        0 <= p,
        p + 1 < b.len(),
        -0x2000 <= v < 0x2000,
        b[p] as int == 4 * (v % 64) + 1,
        b[p + 1] as int == (v / 64) % 256,
    ensures
        signed_at(b, p) == Some((v as i32, p + 2)),
{
}

/// A number of five bytes with a sign is a plain 32-bit number behind its first byte.
pub proof fn five_bytes_have_a_sign(b: Seq<u8>, p: int)
    requires
        0 <= p,
        p + 4 < b.len(),
        b[p] == 15,
    ensures
        signed_at(b, p) is Some,
        ({
            let raw = b[p + 1] + 0x100 * b[p + 2] + 0x1_0000 * b[p + 3] + 0x100_0000 * b[p + 4];
            signed_at(b, p) == Some(
                (
                    (if raw < 0x8000_0000 {
                        raw
                    } else {
                        raw - 0x1_0000_0000
                    }) as i32,
                    p + 5,
                ),
            )
        }),
{
    crate::bytes::the_lowest_byte_comes_first(b, p + 1);
}

/// A token has the type of its record in the top byte and the place in the others; a
/// number in a record has the type in the low byte.
pub proof fn handles_have_a_type_and_a_place(ty: u8, off: u32)
    requires
        off < 0x100_0000,
    ensures
        token_handle((0x100_0000 * ty + off) as u32) == (Handle { ty, off }),
        stream_handle((0x100 * off + ty) as u32) == (Handle { ty, off }),
{
}

/// A collection is a count and as many numbers one behind the other.
pub proof fn collections_have_a_count(b: Seq<u8>, p: int, s: Seq<u32>, q: int)
    requires
        0 <= p,
        unsigned_at(b, p) is Some,
        unsigned_at(b, p) matches Some((n, p1)) && n as nat == s.len() && n <= b.len() && numbers_stand(b, p1, s, q),
    ensures
        collection_at(b, p) == Some((s, q)),
{
    match unsigned_at(b, p) {
        Some((n, p1)) => {
            lemma_numbers_stand(b, p1, s, q);
        },
        None => {},
    }
}

/// The numbers stand one behind the other from `p` to `q`.
pub open spec fn numbers_stand(b: Seq<u8>, p: int, s: Seq<u32>, q: int) -> bool
    decreases s.len(),
{
    if s.len() == 0 {
        p == q
    } else {
        unsigned_at(b, p) matches Some((v, r)) && v == s[0] && numbers_stand(b, r, s.skip(1), q)
    }
}

proof fn lemma_numbers_stand(b: Seq<u8>, p: int, s: Seq<u32>, q: int)
    requires
        numbers_stand(b, p, s, q),
    ensures
        numbers_at(b, p, s.len()) == Some((s, q)),
        after_numbers(b, p, s.len()) == Some(q),
    decreases s.len(),
{
    if s.len() == 0 {
        assert(s =~= Seq::<u32>::empty());
    } else {
        match unsigned_at(b, p) {
            Some((v, r)) => {
                lemma_numbers_stand(b, r, s.skip(1), q);
                lemma_numbers_front(b, p, v, r, s.skip(1).len());
                assert(seq![v] + s.skip(1) =~= s);
            },
            None => {},
        }
    }
}

proof fn lemma_numbers_front(b: Seq<u8>, p: int, v: u32, r: int, n: nat)
    requires
        unsigned_at(b, p) == Some((v, r)),
    ensures
        numbers_at(b, r, n) matches Some((s, q)) ==> numbers_at(b, p, n + 1) == Some((seq![v] + s, q)),
    decreases n,
{
    reveal_with_fuel(numbers_at, 2);
    if n == 0 {
        assert(Seq::<u32>::empty().push(v) =~= seq![v] + Seq::<u32>::empty());
    } else {
        lemma_numbers_front(b, p, v, r, (n - 1) as nat);
        match numbers_at(b, r, (n - 1) as nat) {
            Some((s, q)) => match unsigned_at(b, q) {
                Some((w, _)) => {
                    assert((seq![v] + s).push(w) =~= seq![v] + s.push(w));
                },
                None => {},
            },
            None => {},
        }
    }
}

/// A method record is two numbers, the place of its name and that of its signature.
pub proof fn methods_have_a_name_and_a_signature(b: Seq<u8>, off: u32, s: Seq<u32>, q: int)
    requires
        s.len() == 4,
        numbers_stand(b, off as int, s, q),
    ensures
        method_at(b, off) == Some(((s[2] % 0x100_0000) as u32, (s[3] % 0x100_0000) as u32)),
{
    reveal_with_fuel(numbers_stand, 5);
    reveal_with_fuel(after_numbers, 4);
}

/// A type record is two numbers, the places of its namespace and of its name, two more
/// numbers, and the place of the type around it; then come the nested types and the
/// methods.
pub proof fn types_have_a_namespace_and_a_name(b: Seq<u8>, off: u32, s: Seq<u32>, q: int)
    requires
        s.len() == 7,
        numbers_stand(b, off as int, s, q),
    ensures
        type_at(b, off) == Some(
            TypeAt {
                ns: (s[2] % 0x100_0000) as u32,
                name: (s[3] % 0x100_0000) as u32,
                enclosing: (s[6] % 0x100_0000) as u32,
                rest: q,
            },
        ),
        members_at(b, off) matches Some((nested, methods)) ==> (offsets_at(b, q) matches Some((n, r)) && n == nested && (
        offsets_at(b, r) matches Some((m, _)) && m == methods)),
{
    reveal_with_fuel(numbers_stand, 8);
    reveal_with_fuel(after_numbers, 4);
}

/// A namespace record is two numbers, its types, what it forwards and the namespaces in
/// it.
pub proof fn namespaces_have_types_and_namespaces(b: Seq<u8>, off: u32, s: Seq<u32>, q: int)
    requires
        s.len() == 2,
        numbers_stand(b, off as int, s, q),
        namespace_at(b, off) is Some,
    ensures
        namespace_at(b, off) matches Some((types, children)) && (offsets_at(b, q) matches Some((t, r)) && t == types && (
        offsets_at(b, r) matches Some((_, u)) && (offsets_at(b, u) matches Some((c, _)) && c == children))),
{
    reveal_with_fuel(numbers_stand, 8);
    reveal_with_fuel(after_numbers, 4);
}

/// A scope record is seven numbers, a public key, one number and the place of the root
/// namespace.
pub proof fn scopes_have_a_root(b: Seq<u8>, off: u32, s: Seq<u32>, q: int, t: Seq<u32>, r: int)
    requires
        s.len() == 8,
        numbers_stand(b, off as int, s, q),
        t.len() == 2,
        numbers_stand(b, q + s[7], t, r),
    ensures
        root_at(b, off) == Some((t[1] % 0x100_0000) as u32),
{
    reveal_with_fuel(numbers_stand, 9);
    reveal_with_fuel(after_numbers, 9);
}

/// A signature record is a number, one with a sign, what is returned and what is taken.
pub proof fn signatures_have_a_result_and_parameters(b: Seq<u8>, off: u32)
    requires
        signature_at(b, off) is Some,
    ensures
        unsigned_at(b, off as int) matches Some((_, p)) && (signed_at(b, p) matches Some((_, q)) && (unsigned_at(b, q)
            matches Some((raw, r)) && (collection_at(b, r) matches Some((params, _)) && (signature_at(b, off) matches Some(
            (ret, takes),
        ) && ret.ty == raw % 0x100 && ret.off == raw / 0x100 && takes.len() == params.len() && (forall|i: int|
            0 <= i < takes.len() ==> (#[trigger] takes[i]).ty == params[i] % 0x100 && takes[i].off == params[i] / 0x100))))),
{
}

/// The text at a place is its length and as many bytes; place zero is the empty text.
pub proof fn texts_have_a_length(b: Seq<u8>, off: u32)
    ensures
        name_at(b, 0) == Seq::<char>::empty(),
        off != 0 ==> (unsigned_at(b, off as int) matches Some((n, p)) ==> (p + n <= b.len() ==> name_at(b, off)
            == lossy_text(b.subrange(p, p + n)))),
{
}

/// A namespace in a namespace that has a name is called by that name, a dot and its own
/// name. One that lies in no namespace, or in one without a name, has its own name alone.
pub proof fn namespaces_are_separated_by_dots(b: Seq<u8>, ty: u8, off: u32, depth: int)
    requires
        depth <= MAX_NAME_DEPTH,
        off != 0,
        child_at(b, off) is Some,
    ensures
        ({
            let (parent, name) = child_at(b, off)->0;
            let around = namespace_text(b, ty, parent.off, depth + 1);
            let text = namespace_text(b, ty, off, depth);
            &&& parent.ty == ty && around.len() > 0 ==> text == around + seq!['.'] + name_at(b, name)
            &&& parent.ty != ty || around.len() == 0 ==> text == name_at(b, name)
        }),
{
    reveal_strlit(".");
    let (parent, name) = child_at(b, off)->0;
    let around = namespace_text(b, ty, parent.off, depth + 1);
    assert("."@ =~= seq!['.']);
}

/// A type reference in a namespace is called by the namespace, a dot and its own name
/// where the full name is asked for, and by its own name otherwise; in another type it
/// is always called by that type, a dot and its own name.
pub proof fn references_are_called_by_what_they_lie_in(b: Seq<u8>, off: u32, qualified: bool, depth: int)
    requires
        0 <= depth <= MAX_NAME_DEPTH,
        child_at(b, off) is Some,
    ensures
        ({
            let (parent, name) = child_at(b, off)->0;
            let own = name_at(b, name);
            let text = type_text(b, Handle { ty: 0x3d, off }, qualified, depth);
            let space = namespace_text(b, 0x30, parent.off, depth + 1);
            &&& parent.ty == 0 ==> text == own
            &&& parent.ty == 0x30 && !qualified ==> text == own
            &&& parent.ty == 0x30 && qualified && space.len() > 0 ==> text == space + seq!['.'] + own
            &&& parent.ty == 0x30 && qualified && space.len() == 0 ==> text == own
            &&& parent.ty != 0 && parent.ty != 0x30 ==> text == type_text(b, parent, qualified, depth + 1) + seq!['.']
                + own
        }),
{
    reveal_strlit(".");
    assert("."@ =~= seq!['.']);
}

/// A type definition in another type is called by that type, a dot and its own name;
/// otherwise by its namespace, a dot and its own name where the full name is asked for,
/// and by its own name where not.
pub proof fn definitions_are_called_by_what_they_lie_in(b: Seq<u8>, off: u32, qualified: bool, depth: int)
    requires
        0 <= depth <= MAX_NAME_DEPTH,
        type_at(b, off) is Some,
    ensures
        ({
            let t = type_at(b, off)->0;
            let own = name_at(b, t.name);
            let text = type_text(b, Handle { ty: 0x3a, off }, qualified, depth);
            let space = namespace_text(b, 0x2f, t.ns, depth + 1);
            &&& t.enclosing != 0 ==> text == type_text(b, Handle { ty: 0x3a, off: t.enclosing }, qualified, depth + 1)
                + seq!['.'] + own
            &&& t.enclosing == 0 && qualified && t.ns != 0 && space.len() > 0 ==> text == space + seq!['.'] + own
            &&& t.enclosing == 0 && qualified && t.ns != 0 && space.len() == 0 ==> text == own
            &&& t.enclosing == 0 && (!qualified || t.ns == 0) ==> text == own
        }),
{
    reveal_strlit(".");
    assert("."@ =~= seq!['.']);
}

/// A specification is called by what it specifies, a plain array by its element and
/// brackets, a pointer by its element and a star, and a reference by its element and an
/// ampersand. What is pointed or referred to has its short name.
pub proof fn types_are_called_by_their_elements(b: Seq<u8>, off: u32, qualified: bool, depth: int)
    requires
        0 <= depth <= MAX_NAME_DEPTH,
        element_at(b, off) is Some,
    ensures
        ({
            let e = element_at(b, off)->0;
            let inner = type_text(b, e, qualified, depth + 1);
            let short = type_text(b, e, false, depth + 1);
            &&& type_text(b, Handle { ty: 0x3e, off }, qualified, depth) == inner
            &&& type_text(b, Handle { ty: 0x3c, off }, qualified, depth) == inner
            &&& type_text(b, Handle { ty: 0x37, off }, qualified, depth) == inner + seq!['[', ']']
            &&& type_text(b, Handle { ty: 0x32, off }, qualified, depth) == short + seq!['*']
            &&& type_text(b, Handle { ty: 0x02, off }, qualified, depth) == short + seq!['&']
        }),
{
    reveal_strlit("[]");
    reveal_strlit("*");
    reveal_strlit("&");
    assert("[]"@ =~= seq!['[', ']']);
    assert("*"@ =~= seq!['*']);
    assert("&"@ =~= seq!['&']);
    let e = element_at(b, off)->0;
    assert(element_text(b, Some(e), qualified, depth + 1) == type_text(b, e, qualified, depth + 1));
    assert(element_text(b, Some(e), false, depth + 1) == type_text(b, e, false, depth + 1));
}

/// An array of several dimensions is called by its element and brackets with a comma
/// between any two of them; one of a single dimension has a star in its brackets.
pub proof fn arrays_show_their_dimensions(b: Seq<u8>, off: u32, qualified: bool, depth: int, i: int)
    requires
        0 <= depth <= MAX_NAME_DEPTH,
        array_at(b, off) is Some,
    ensures
        array_at(b, off) matches Some((e, rank)) && {
            let inner = type_text(b, e, qualified, depth + 1);
            let text = type_text(b, Handle { ty: 0x01, off }, qualified, depth);
            &&& rank <= 1 ==> text == inner + seq!['[', '*', ']']
            &&& rank > 1 ==> {
                &&& text.len() == inner.len() + rank + 1
                &&& text.take(inner.len() as int) == inner
                &&& text[inner.len() as int] == '['
                &&& 0 < i < rank ==> text[inner.len() + i] == ','
                &&& text.last() == ']'
            }
        },
{
    match array_at(b, off) {
        Some((e, rank)) => {
            let inner = type_text(b, e, qualified, depth + 1);
            let text = type_text(b, Handle { ty: 0x01, off }, qualified, depth);
            assert(text == inner + rank_text(rank));
            assert(text.take(inner.len() as int) =~= inner);
        },
        None => {},
    }
}

/// A type variable is called by an exclamation mark and its number, one of a method by
/// two; a pointer to a function is `IntPtr`; no type has no name; and what is not known
/// is called by question marks. A type that nests too deep is called by dots.
pub proof fn other_types_have_fixed_names(b: Seq<u8>, off: u32, ty: u8, qualified: bool, depth: int)
    requires
        0 <= depth,
    ensures
        depth > 64 ==> type_text(b, Handle { ty, off }, qualified, depth) == seq!['.', '.', '.'],
        depth <= MAX_NAME_DEPTH ==> {
            let n = match unsigned_at(b, off as int) {
                Some((n, _)) => n as nat,
                None => 0,
            };
            &&& type_text(b, Handle { ty: 0x3f, off }, qualified, depth) == seq!['!'] + dec(n)
            &&& type_text(b, Handle { ty: 0x2c, off }, qualified, depth) == seq!['!', '!'] + dec(n)
            &&& type_text(b, Handle { ty: 0x25, off }, qualified, depth) == seq!['I', 'n', 't', 'P', 't', 'r']
            &&& type_text(b, Handle { ty: 0, off }, qualified, depth) == Seq::<char>::empty()
            &&& type_text(b, Handle { ty: 0x1a, off }, qualified, depth) == name_at(b, off)
        },
{
    reveal_strlit("...");
    reveal_strlit("!");
    reveal_strlit("!!");
    reveal_strlit("IntPtr");
    assert("..."@ =~= seq!['.', '.', '.']);
    assert("!"@ =~= seq!['!']);
    assert("!!"@ =~= seq!['!', '!']);
    assert("IntPtr"@ =~= seq!['I', 'n', 't', 'P', 't', 'r']);
}

} // verus!
