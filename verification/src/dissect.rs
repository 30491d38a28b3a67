//! Guesses the fields of a structure in memory from the shape of its values.
//!
//! Every guess carries a confidence. An eight-byte field starts only at a
//! multiple of eight and a four-byte field only at a multiple of four: a compiler
//! places no field elsewhere.

use vstd::prelude::*;

use crate::bytes::{le, le32, le64};
use crate::ctx::Ctx;
use crate::ir::text_list;
use crate::source::{CoreError, CoreFault, Snapshot, SourceError};
use crate::text::{hexadecimal, join, join_texts, spell, zero_padded};
use crate::va::{wrap_add, Va};

verus! {

#[derive(Clone, Copy, Debug, PartialEq, Eq, Structural)]
pub enum GuessedKind {
    Pointer,
    Float,
    Double,
    Integer,
    /// Zeros alone: padding, a null pointer or the number.
    ZeroPadding,
    Unknown,
}

/// A guessed field.
#[derive(Clone, Debug, PartialEq, Eq)]
pub struct DissectField {
    pub offset: u64,
    pub kind: GuessedKind,
    pub size: usize,
    /// The bytes, each in two hexadecimal digits.
    pub raw_hex: String,
    /// How far the guess is to be trusted, in hundredths.
    pub confidence: u32,
}

/// What to dissect.
#[derive(Clone, Copy, Debug, PartialEq, Eq, Structural)]
pub struct DissectInput {
    pub start: Va,
    pub size: usize,
}

/// The guessed fields.
#[derive(Clone, Debug, PartialEq, Eq)]
pub struct DissectArtifact {
    pub fields: Vec<DissectField>,
    /// The number of bytes that were asked for.
    pub requested: usize,
    /// The number of bytes that were there.
    pub read: usize,
    /// Fewer bytes were there than were asked for.
    pub truncated: bool,
}

/// A field, by contents.
pub ghost struct FieldNode {
    pub offset: u64,
    pub kind: GuessedKind,
    pub size: usize,
    pub raw_hex: Seq<char>,
    pub confidence: u32,
}

pub open spec fn field_node(f: DissectField) -> FieldNode {
    FieldNode { offset: f.offset, kind: f.kind, size: f.size, raw_hex: f.raw_hex@, confidence: f.confidence }
}

pub open spec fn field_nodes(v: Seq<DissectField>) -> Seq<FieldNode> {
    v.map_values(|f: DissectField| field_node(f))
}

/// The number of bytes from an address to the next multiple of `n`; `n` at a
/// multiple itself.
pub open spec fn boundary(addr: u64, n: u64) -> int {
    n - (addr as int % n as int)
}

fn to_boundary(addr: u64, n: u64) -> (r: usize)
    requires
        0 < n <= 8,
    ensures
        r == boundary(addr, n),
        1 <= r <= n,
{
    (n - (addr % n)) as usize
}

/// The magnitude of a 64-bit floating-point number lies between 1e-10 and 1e10,
/// without either. Magnitudes order as their bits.
pub open spec fn plausible_double(v: u64) -> bool {
    0x3ddb_7cdf_d9d7_bdbb < v as int % 0x8000_0000_0000_0000 < 0x4202_a05f_2000_0000
}

/// The magnitude of a 32-bit floating-point number lies between 1e-10 and 1e10.
/// The first bound is the least such number that is greater than 1e-10.
pub open spec fn plausible_float(v: u32) -> bool {
    0x2edb_e6ff <= v as int % 0x8000_0000 < 0x5015_02f9
}

pub open spec fn all_zero(b: Seq<u8>) -> bool {
    forall|i: int| 0 <= i < b.len() ==> #[trigger] b[i] == 0
}

/// The smaller number.
pub open spec fn least(a: int, b: int) -> int {
    if a <= b {
        a
    } else {
        b
    }
}

/// What the bytes at an address are taken for: the kind, the number of bytes and
/// the confidence. The widest reading comes first.
pub open spec fn guess(src: Snapshot, chunk: Seq<u8>, addr: u64) -> (GuessedKind, int, u32) {
    let fits8 = boundary(addr, 8);
    let fits4 = boundary(addr, 4);
    let n = chunk.len() as int;
    let v = le(chunk, 0, 8) as u64;
    let w = le(chunk, 0, 4) as u32;
    if all_zero(chunk) {
        (GuessedKind::ZeroPadding, least(n, fits8), 50)
    } else if n >= 8 && fits8 == 8 && v != 0 && src.mapped(v) {
        (GuessedKind::Pointer, 8, 90)
    } else if n >= 8 && fits8 == 8 && plausible_double(v) {
        (GuessedKind::Double, 8, 50)
    } else if n >= 4 && fits4 == 4 && w != 0 && src.mapped(w as u64) {
        (GuessedKind::Pointer, 4, 60)
    } else if n >= 4 && fits4 == 4 && plausible_float(w) {
        (GuessedKind::Float, 4, 40)
    } else if n >= 4 && fits4 == 4 {
        (GuessedKind::Integer, 4, 30)
    } else {
        (GuessedKind::Unknown, least(n, fits4), 10)
    }
}

/// The bytes, each in two hexadecimal digits.
pub open spec fn hex_bytes(b: Seq<u8>) -> Seq<char> {
    join(b.map_values(|c: u8| zero_padded(spell(c as nat, 16, false), 2)), " "@)
}

/// The bytes that a guess at an offset is made from.
pub open spec fn chunk_at(bytes: Seq<u8>, off: int) -> Seq<u8> {
    bytes.subrange(off, least(bytes.len() as int, off + 8))
}

/// The field at an offset.
pub open spec fn field_at(src: Snapshot, bytes: Seq<u8>, start: u64, off: int) -> FieldNode {
    let chunk = chunk_at(bytes, off);
    let (kind, size, confidence) = guess(src, chunk, wrap_add(start, off as u64));
    FieldNode { offset: off as u64, kind, size: size as usize, raw_hex: hex_bytes(chunk.take(size)), confidence }
}

/// The fields from an offset on.
pub open spec fn fields_from(src: Snapshot, bytes: Seq<u8>, start: u64, off: int) -> Seq<FieldNode>
    decreases bytes.len() - off,
{
    if off < 0 || off >= bytes.len() {
        Seq::empty()
    } else {
        let f = field_at(src, bytes, start, off);
        if f.size == 0 {
            Seq::empty()
        } else {
            seq![f] + fields_from(src, bytes, start, off + f.size)
        }
    }
}

fn is_all_zero(b: &[u8]) -> (r: bool)
    ensures
        r == all_zero(b@),
{
    let mut k: usize = 0;
    while k < b.len()
        invariant
            k <= b@.len(),
            forall|i: int| 0 <= i < k ==> #[trigger] b@[i] == 0,
        decreases b@.len() - k,
    {
        if b[k] != 0 {
            return false;
        }
        k = k + 1;
    }
    true
}

proof fn lemma_boundaries(addr: u64)
    ensures
        1 <= boundary(addr, 8) <= 8,
        1 <= boundary(addr, 4) <= 4,
{
}

/// Guesses what the bytes at an address are.
pub fn classify(ctx: &Ctx, chunk: &[u8], addr: u64) -> (r: (GuessedKind, usize, u32))
    requires
        0 < chunk@.len() <= 8,
    ensures
        (r.0, r.1 as int, r.2) == guess(*ctx.source, chunk@, addr),
        1 <= r.1 <= chunk@.len(),
{
    let fits8: usize = to_boundary(addr, 8);
    let fits4: usize = to_boundary(addr, 4);
    let n: usize = chunk.len();
    if is_all_zero(chunk) {
        return (
            GuessedKind::ZeroPadding,
            if n <= fits8 {
                n
            } else {
                fits8
            },
            50,
        );
    }
    if n >= 8 && fits8 == 8 {
        let v: u64 = le64(chunk, 0);
        if v != 0 && ctx.source.contains(Va(v)) {
            return (GuessedKind::Pointer, 8, 90);
        }
        let m: u64 = v % 0x8000_0000_0000_0000;
        if 0x3ddb_7cdf_d9d7_bdbb < m && m < 0x4202_a05f_2000_0000 {
            return (GuessedKind::Double, 8, 50);
        }
    }
    if n >= 4 && fits4 == 4 {
        let w: u32 = le32(chunk, 0);
        if w != 0 && ctx.source.contains(Va(w as u64)) {
            return (GuessedKind::Pointer, 4, 60);
        }
        let m: u32 = w % 0x8000_0000;
        if 0x2edb_e6ff <= m && m < 0x5015_02f9 {
            return (GuessedKind::Float, 4, 40);
        }
        return (GuessedKind::Integer, 4, 30);
    }
    (
        GuessedKind::Unknown,
        if n <= fits4 {
            n
        } else {
            fits4
        },
        10,
    )
}

fn write_hex(b: &[u8], n: usize) -> (s: String)
    requires
        n <= b@.len(),
    ensures
        s@ == hex_bytes(b@.take(n as int)),
{
    let mut v: Vec<String> = Vec::new();
    let mut k: usize = 0;
    while k < n
        invariant
            k <= n <= b@.len(),
            v@.len() == k,
            forall|j: int| 0 <= j < k ==> (#[trigger] v@[j])@ == zero_padded(spell(b@[j] as nat, 16, false), 2),
        decreases n - k,
    {
        v.push(hexadecimal(b[k] as u64, false, 2));
        k = k + 1;
    }
    assert(text_list(v@) =~= b@.take(n as int).map_values(|c: u8| zero_padded(spell(c as nat, 16, false), 2)));
    assert(v@.map_values(|s: String| s@) =~= text_list(v@));
    join_texts(&v, " ")
}

/// Guesses the fields of structures.
#[derive(Clone, Copy, Debug, Default)]
pub struct DissectPass;

impl DissectPass {
    pub fn name(&self) -> (r: &'static str)
        ensures
            r@ == "scan.dissect"@,
    {
        "scan.dissect"
    }

    pub fn run(&self, ctx: &Ctx, input: DissectInput) -> (r: Result<DissectArtifact, CoreError>)
        ensures
            match r {
                Ok(d) => ctx.source.read_of(input.start.0, input.size as nat) matches Some(b) && {
                    &&& field_nodes(d.fields@) == fields_from(*ctx.source, b, input.start.0, 0)
                    &&& d.requested == input.size
                    &&& d.read == b.len()
                    &&& d.truncated == (b.len() < input.size)
                },
                Err(e) => ctx.source.read_of(input.start.0, input.size as nat) is None && e.fault()
                    == CoreFault::Source(SourceError::Unmapped(input.start)),
            },
    {
        let bytes = match ctx.source.read(input.start, input.size) {
            Ok(b) => b,
            Err(e) => {
                return Err(CoreError::Source(e));
            },
        };
        let read: usize = bytes.len();
        let mut fields: Vec<DissectField> = Vec::new();
        let mut off: usize = 0;
        let ghost src = *ctx.source;
        let ghost all = fields_from(src, bytes@, input.start.0, 0);
        assert(field_nodes(fields@) + all =~= all);
        while off < read
            invariant
                read == bytes@.len(),
                off <= read,
                src == *ctx.source,
                field_nodes(fields@) + fields_from(src, bytes@, input.start.0, off as int) == all,
            decreases read - off,
        {
            let end: usize = if read - off <= 8 {
                read
            } else {
                off + 8
            };
            let chunk = vstd::slice::slice_subrange(bytes.as_slice(), off, end);
            assert(chunk@ == chunk_at(bytes@, off as int));
            let (kind, size, confidence) = classify(ctx, chunk, input.start.0.wrapping_add(off as u64));
            let ghost before = field_nodes(fields@);
            let f = DissectField { offset: off as u64, kind, size, raw_hex: write_hex(chunk, size), confidence };
            let ghost node = field_at(src, bytes@, input.start.0, off as int);
            proof {
                assert(field_node(f) == node);
                assert(field_nodes(fields@.push(f)) =~= before.push(node));
                let rest = fields_from(src, bytes@, input.start.0, off + size);
                assert(before + (seq![node] + rest) =~= before.push(node) + rest);
            }
            fields.push(f);
            off = off + size;
        }
        assert(field_nodes(fields@) + Seq::<FieldNode>::empty() =~= field_nodes(fields@));
        Ok(DissectArtifact { fields, requested: input.size, read, truncated: read < input.size })
    }
}

// ---------------------------------------------------------------------------
// Laws
// ---------------------------------------------------------------------------

/// The fields cover the bytes from `off` to `end` without gaps or overlaps.
pub open spec fn tiles(fs: Seq<FieldNode>, off: int, end: int) -> bool
    decreases fs.len(),
{
    if fs.len() == 0 {
        off == end
    } else {
        fs[0].offset == off && fs[0].size > 0 && tiles(fs.skip(1), off + fs[0].size, end)
    }
}

proof fn lemma_tiles(src: Snapshot, bytes: Seq<u8>, start: u64, off: int)
    requires
        0 <= off <= bytes.len() <= usize::MAX,
    ensures
        tiles(fields_from(src, bytes, start, off), off, bytes.len() as int),
    decreases bytes.len() - off,
{
    let fs = fields_from(src, bytes, start, off);
    if off < bytes.len() {
        let f = field_at(src, bytes, start, off);
        lemma_boundaries(wrap_add(start, off as u64));
        assert(1 <= f.size <= chunk_at(bytes, off).len());
        lemma_tiles(src, bytes, start, off + f.size);
        assert(fs.skip(1) =~= fields_from(src, bytes, start, off + f.size));
    }
}

/// The fields of a structure cover all that was read, without gaps or overlaps.
pub proof fn fields_cover_what_was_read(src: Snapshot, bytes: Seq<u8>, start: u64)
    requires
        bytes.len() <= usize::MAX,
    ensures
        tiles(fields_from(src, bytes, start, 0), 0, bytes.len() as int),
{
    lemma_tiles(src, bytes, start, 0);
}

proof fn lemma_placed(src: Snapshot, bytes: Seq<u8>, start: u64, off: int, i: int)
    requires
        0 <= off <= bytes.len() <= usize::MAX,
        0 <= i < fields_from(src, bytes, start, off).len(),
    ensures
        ({
            let f = fields_from(src, bytes, start, off)[i];
            off <= f.offset < bytes.len() && f == field_at(src, bytes, start, f.offset as int)
        }),
    decreases bytes.len() - off,
{
    if off < bytes.len() {
        let f = field_at(src, bytes, start, off);
        lemma_boundaries(wrap_add(start, off as u64));
        assert(1 <= f.size <= chunk_at(bytes, off).len());
        if i > 0 {
            lemma_placed(src, bytes, start, off + f.size, i - 1);
        }
    }
}

/// No field starts where a compiler would not place it: a double and a pointer of
/// eight bytes start at a multiple of eight, a float, an integer and a pointer of
/// four bytes at a multiple of four.
pub proof fn fields_are_aligned(src: Snapshot, bytes: Seq<u8>, start: u64, i: int)
    requires
        bytes.len() <= usize::MAX,
        0 <= i < fields_from(src, bytes, start, 0).len(),
    ensures
        ({
            let f = fields_from(src, bytes, start, 0)[i];
            (f.kind is Pointer || f.kind is Double || f.kind is Float || f.kind is Integer) ==> (f.size == 4 || f.size
                == 8) && wrap_add(start, f.offset) as int % f.size as int == 0
        }),
{
    lemma_placed(src, bytes, start, 0, i);
}

/// What the bytes at an address are taken for: zeros are padding; an aligned number that
/// is a mapped address is a pointer; one that reads as an ordinary fraction is one; and
/// what is aligned for a number is an integer.
pub proof fn bytes_are_taken_for_the_widest_reading(src: Snapshot, chunk: Seq<u8>, addr: u64)
    requires
        chunk.len() == 8,
        addr % 8 == 0,
    ensures
        ({
            let v = le(chunk, 0, 8) as u64;
            let w = le(chunk, 0, 4) as u32;
            let zero = forall|i: int| 0 <= i < 8 ==> #[trigger] chunk[i] == 0;
            let g = guess(src, chunk, addr);
            &&& zero ==> g == (GuessedKind::ZeroPadding, 8int, 50u32)
            &&& !zero && v != 0 && src.mapped(v) ==> g == (GuessedKind::Pointer, 8int, 90u32)
            &&& !zero && !src.mapped(v) && plausible_double(v) ==> g == (GuessedKind::Double, 8int, 50u32)
            &&& !zero && !src.mapped(v) && !plausible_double(v) && w != 0 && src.mapped(w as u64) ==> g == (
                GuessedKind::Pointer,
                4int,
                60u32,
            )
            &&& !zero && !src.mapped(v) && !plausible_double(v) && !src.mapped(w as u64) && plausible_float(w) ==> g == (
                GuessedKind::Float,
                4int,
                40u32,
            )
            &&& !zero && !src.mapped(v) && !plausible_double(v) && !src.mapped(w as u64) && !plausible_float(w) ==> g == (
                GuessedKind::Integer,
                4int,
                30u32,
            )
        }),
{
    if all_zero(chunk) {
        assert forall|i: int| 0 <= i < 8 implies #[trigger] chunk[i] == 0 by {}
    }
    assert(boundary(addr, 8) == 8 && boundary(addr, 4) == 4);
}

/// Bytes that no number starts at are unknown, up to the next place where one can.
pub proof fn unaligned_bytes_are_unknown(src: Snapshot, chunk: Seq<u8>, addr: u64, i: int)
    requires
        chunk.len() == 8,
        addr % 4 != 0,
        0 <= i < 8,
        chunk[i] != 0,
    ensures
        guess(src, chunk, addr) == (GuessedKind::Unknown, 4 - addr as int % 4, 10u32),
{
    assert(!all_zero(chunk));
    assert(boundary(addr, 8) != 8) by {
        assert(addr as int % 8 != 0);
    }
    assert(boundary(addr, 4) == 4 - addr as int % 4);
}

/// A fraction is ordinary where its magnitude is neither tiny nor huge, whatever its sign.
pub proof fn signs_do_not_matter_to_plausibility(v: u64, w: u32)
    ensures
        v < 0x8000_0000_0000_0000 ==> plausible_double(v) == plausible_double((v + 0x8000_0000_0000_0000) as u64),
        w < 0x8000_0000 ==> plausible_float(w) == plausible_float((w + 0x8000_0000) as u32),
        !plausible_double(0) && !plausible_float(0),
        plausible_double(0x3ff0_0000_0000_0000) && plausible_float(0x3f80_0000),
        0x7ff0_0000_0000_0000 <= v < 0x8000_0000_0000_0000 ==> !plausible_double(v),
        0x7f80_0000 <= w < 0x8000_0000 ==> !plausible_float(w),
{
}

/// The field at an offset is guessed from the bytes there, and shows them in hexadecimal.
pub proof fn fields_show_their_bytes(src: Snapshot, bytes: Seq<u8>, start: u64, off: int)
    requires
        0 <= off < bytes.len(),
        start + off <= u64::MAX,
    ensures
        ({
            let f = field_at(src, bytes, start, off);
            let chunk = chunk_at(bytes, off);
            let g = guess(src, chunk, (start + off) as u64);
            &&& f.offset == off
            &&& f.kind == g.0
            &&& f.confidence == g.2
            &&& f.raw_hex == hex_bytes(chunk.take(g.1))
            &&& chunk.len() == 8 || off + chunk.len() == bytes.len()
            &&& forall|i: int| 0 <= i < chunk.len() ==> #[trigger] chunk[i] == bytes[off + i]
        }),
{
}

/// Bytes are shown in two digits each, with a space between.
pub proof fn bytes_are_shown_in_two_digits(b: Seq<u8>, c: u8)
    ensures
        hex_bytes(seq![c]) == zero_padded(spell(c as nat, 16, false), 2),
        b.len() > 0 ==> hex_bytes(b.push(c)) == hex_bytes(b) + " "@ + zero_padded(spell(c as nat, 16, false), 2),
{
    let f = |c: u8| zero_padded(spell(c as nat, 16, false), 2);
    assert(seq![c].map_values(f) =~= seq![f(c)]);
    assert(b.push(c).map_values(f) =~= b.map_values(f).push(f(c)));
    crate::text::texts_are_joined_with_the_separator_between(b.map_values(f), f(c), " "@);
}

} // verus!
