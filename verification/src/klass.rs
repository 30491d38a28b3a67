//! The classes of a running program, read from the structures of its runtime.
//!
//! Where a class keeps its name and its fields differs from version to version
//! and is recorded nowhere. It is searched for, and held against what a wrong
//! guess cannot meet: the name and the namespace stand side by side, and every
//! field points back at its class.

use vstd::prelude::*;
use vstd::string::{StrSliceExecFns, StringExecFns};

use crate::bytes::{le, le32, le64, lemma_zero_from, zero_from};
use crate::ctx::{text_of, Ctx};
use crate::eh::{signed, to_signed};
use crate::order::{in_order, sort_stable, sorting_permutes, stable, Ranked, Sortable};
use crate::sorted::{lemma_map_at, SortedMap};
use crate::source::{CoreError, CoreFault, Snapshot};
use crate::text::{hex, hexadecimal, zero_padded};
use crate::va::Va;

verus! {

/// How far into a class its parts are searched for.
pub const DEFAULT_PROBE: usize = 0x120;

/// The distance from one field to the next: the usual one and an older one.
pub const FIELD_ENTRY: usize = 0x20;

pub const FIELD_ENTRY_WIDE: usize = 0x28;

/// Where a field points back at its class.
pub const FIELD_PARENT: usize = 0x10;

/// Where a field states its offset.
pub const FIELD_OFFSET: usize = 0x18;

/// No field lies further into an object.
pub const MAX_FIELD_OFFSET: i64 = 0x1_0000;

/// The bytes that are read of a field array.
pub const FIELD_TABLE: usize = 20480;

/// The longest name that is read.
pub const MAX_NAME: usize = 128;

/// How far the pointer of a class to itself lies behind its name, in slots.
pub const SELF_PTR_SLOTS_AFTER_NAME: usize = 13;

/// The field array of the class points back at it.
pub const VALIDATED: &'static str = "validated";

/// Only the names have the shape of a class. A pointer to itself is no more proof:
/// an empty list has one too.
pub const WEAK: &'static str = "weak-name-pair-only";

/// What to look at.
#[derive(Clone, Copy, Debug, PartialEq, Eq, Structural)]
pub struct KlassInput {
    /// An object or a class.
    pub addr: Va,
    /// How many bytes of the object are read for the values of its fields.
    pub read_values: usize,
    /// How far into a class its parts are searched for; 0 for the default.
    pub probe: usize,
}

/// A field of a class.
#[derive(Clone, Debug, PartialEq, Eq)]
pub struct KlassField {
    pub name: String,
    /// From the start of the object.
    pub offset: i64,
    /// Its bytes, where they were read.
    pub value: Option<String>,
}

/// Where the parts of a class were found.
#[derive(Clone, Copy, Debug, PartialEq, Eq, Structural)]
pub struct LayoutEvidence {
    pub name_offset: usize,
    pub fields_offset: Option<usize>,
    /// How many fields point back at the class.
    pub fields_validated: usize,
    /// Where the class points at itself.
    pub self_pointer_offset: Option<usize>,
    /// The measured distance from one field to the next.
    pub field_stride: Option<usize>,
}

/// A class.
#[derive(Clone, Debug, PartialEq, Eq)]
pub struct KlassArtifact {
    pub queried: Va,
    /// The address asked for, where it is that of an object.
    pub object: Option<Va>,
    pub klass: Va,
    pub namespace: String,
    pub name: String,
    pub field_count: usize,
    pub fields: Vec<KlassField>,
    pub layout: LayoutEvidence,
    /// `VALIDATED` where a field points back at the class, `WEAK` otherwise.
    pub confidence: &'static str,
}

// ---------------------------------------------------------------------------
// Memory
// ---------------------------------------------------------------------------

/// The 64-bit number at an address.
pub open spec fn pointer_at(src: Snapshot, at: u64) -> Option<u64> {
    match src.read_of(at, 8) {
        Some(b) => if b.len() == 8 {
            Some(le(b, 0, 8) as u64)
        } else {
            None
        },
        None => None,
    }
}

/// A letter.
pub open spec fn is_letter(c: u8) -> bool {
    (0x41 <= c <= 0x5a) || (0x61 <= c <= 0x7a)
}

/// A character with which the name of a type or a field may start.
pub open spec fn starts_name(c: u8) -> bool {
    is_letter(c) || c == 0x5f || c == 0x3c
}

/// A character that such a name may hold: letters, digits and `_<>` and a
/// backtick, a dot and brackets.
pub open spec fn in_name(c: u8) -> bool {
    is_letter(c) || (0x30 <= c <= 0x39) || c == 0x5f || c == 0x3c || c == 0x3e || c == 0x60 || c == 0x2e || c == 0x5b
        || c == 0x5d
}

/// ASCII bytes as text.
pub open spec fn ascii(b: Seq<u8>) -> Seq<char> {
    b.map_values(|c: u8| c as char)
}

/// The bytes spell the name of a type or a field.
pub open spec fn is_name(b: Seq<u8>) -> bool {
    b.len() > 0 && starts_name(b[0]) && forall|i: int| 0 <= i < b.len() ==> in_name(#[trigger] b[i])
}

/// The name in bytes that end with a zero.
pub open spec fn name_in(b: Seq<u8>) -> Option<Seq<char>> {
    match zero_from(b, 0) {
        Some(z) => if is_name(b.take(z)) {
            Some(ascii(b.take(z)))
        } else {
            None
        },
        None => None,
    }
}

/// The name at an address.
pub open spec fn name_at(src: Snapshot, at: u64) -> Option<Seq<char>> {
    if at == 0 {
        None
    } else {
        match src.read_of(at, MAX_NAME as nat) {
            Some(b) => name_in(b),
            None => None,
        }
    }
}

fn read_u64(src: &Snapshot, at: Va) -> (r: Option<u64>)
    ensures
        r == pointer_at(*src, at.0),
{
    match src.read(at, 8) {
        Ok(b) => {
            if b.len() == 8 {
                Some(le64(b.as_slice(), 0))
            } else {
                None
            }
        },
        Err(_) => None,
    }
}

pub fn is_letter_byte(c: u8) -> (r: bool)
    ensures
        r == is_letter(c),
{
    (0x41 <= c && c <= 0x5a) || (0x61 <= c && c <= 0x7a)
}

fn starts_name_byte(c: u8) -> (r: bool)
    ensures
        r == starts_name(c),
{
    is_letter_byte(c) || c == 0x5f || c == 0x3c
}

fn in_name_byte(c: u8) -> (r: bool)
    ensures
        r == in_name(c),
{
    is_letter_byte(c) || (0x30 <= c && c <= 0x39) || c == 0x5f || c == 0x3c || c == 0x3e || c == 0x60 || c == 0x2e || c
        == 0x5b || c == 0x5d
}

/// The name in bytes that end with a zero.
pub fn parse_name(b: &[u8]) -> (r: Option<String>)
    ensures
        text_of(r) == name_in(b@),
{
    let mut s: String = String::new();
    let mut k: usize = 0;
    let n: usize = b.len();
    assert(s@ =~= ascii(b@.take(0)));
    while k < n && b[k] != 0
        invariant
            k <= n,
            n == b@.len(),
            zero_from(b@, 0) == zero_from(b@, k as int),
            forall|j: int| 0 <= j < k ==> in_name(#[trigger] b@[j]),
            k > 0 ==> starts_name(b@[0]),
            s@ == ascii(b@.take(k as int)),
        decreases n - k,
    {
        let c: u8 = b[k];
        if !in_name_byte(c) || (k == 0 && !starts_name_byte(c)) {
            proof {
                lemma_bad_name(b@, k as int);
            }
            return None;
        }
        s.push(c as char);
        proof {
            assert(ascii(b@.take(k + 1)) =~= ascii(b@.take(k as int)).push(c as char));
        }
        k = k + 1;
    }
    if k >= n || k == 0 {
        return None;
    }
    Some(s)
}

proof fn lemma_bad_name(b: Seq<u8>, k: int)
    requires
        0 <= k < b.len(),
        b[k] != 0,
        zero_from(b, 0) == zero_from(b, k),
        !in_name(b[k]) || (k == 0 && !starts_name(b[0])),
    ensures
        name_in(b) is None,
{
    lemma_zero_from(b, k);
    match zero_from(b, 0) {
        Some(z) => {
            assert(k < z);
            assert(b.take(z)[k] == b[k]);
            assert(b.take(z)[0] == b[0]);
        },
        None => {},
    }
}

fn read_name(src: &Snapshot, at: Va) -> (r: Option<String>)
    ensures
        text_of(r) == name_at(*src, at.0),
{
    if at.0 == 0 {
        return None;
    }
    match src.read(at, MAX_NAME) {
        Ok(b) => parse_name(b.as_slice()),
        Err(_) => None,
    }
}

// ---------------------------------------------------------------------------
// The parts of a class
// ---------------------------------------------------------------------------

/// The 64-bit slots in bytes.
pub open spec fn slots_in(b: Seq<u8>) -> Seq<u64> {
    Seq::new(b.len() / 8, |i: int| le(b, 8 * i, 8) as u64)
}

/// The slots of a structure.
pub open spec fn slots_at(src: Snapshot, base: u64, probe: nat) -> Seq<u64> {
    match src.read_of(base, probe) {
        Some(b) => slots_in(b),
        None => Seq::empty(),
    }
}

fn split_slots(b: &[u8]) -> (out: Vec<u64>)
    ensures
        out@ == slots_in(b@),
{
    let n: usize = b.len() / 8;
    let mut out: Vec<u64> = Vec::new();
    let mut i: usize = 0;
    while i < n
        invariant
            i <= n,
            8 * n <= b@.len(),
            b@.len() <= usize::MAX,
            out@.len() == i,
            forall|j: int| 0 <= j < i ==> #[trigger] out@[j] == le(b@, 8 * j, 8) as u64,
        decreases n - i,
    {
        out.push(le64(b, 8 * i));
        i = i + 1;
    }
    assert(out@ =~= slots_in(b@));
    out
}

fn slots_of(src: &Snapshot, base: Va, probe: usize) -> (out: Vec<u64>)
    ensures
        out@ == slots_at(*src, base.0, probe as nat),
        8 * out@.len() <= probe,
{
    match src.read(base, probe) {
        Ok(b) => split_slots(b.as_slice()),
        Err(_) => {
            let v: Vec<u64> = Vec::new();
            assert(v@ =~= Seq::<u64>::empty());
            v
        },
    }
}

/// The first slot from index `k` on that points at the structure itself.
pub open spec fn self_from(slots: Seq<u64>, base: u64, k: int) -> Option<int>
    decreases slots.len() - k,
{
    if k < 0 || k >= slots.len() {
        None
    } else if slots[k] == base {
        Some(k)
    } else {
        self_from(slots, base, k + 1)
    }
}

/// The slot in which a structure points at itself.
pub fn self_pointer_index(slots: &Vec<u64>, base: Va) -> (r: Option<usize>)
    ensures
        match (r, self_from(slots@, base.0, 0)) {
            (Some(i), Some(j)) => i == j && i < slots@.len(),
            (None, None) => true,
            _ => false,
        },
{
    let mut k: usize = 0;
    while k < slots.len()
        invariant
            k <= slots@.len(),
            self_from(slots@, base.0, 0) == self_from(slots@, base.0, k as int),
        decreases slots@.len() - k,
    {
        if slots[k] == base.0 {
            return Some(k);
        }
        k = k + 1;
    }
    None
}

/// Where the names stand, the namespace and the name.
pub ghost struct NamesAt {
    pub offset: int,
    pub namespace: Seq<char>,
    pub name: Seq<char>,
}

/// The namespace that a slot leads to. An empty one is stored as an empty text.
pub open spec fn namespace_at(src: Snapshot, p: u64) -> Option<Seq<char>> {
    match name_at(src, p) {
        Some(s) => Some(s),
        None => match src.read_of(p, 1) {
            Some(b) => if b.len() > 0 && b[0] == 0 {
                Some(Seq::empty())
            } else {
                None
            },
            None => None,
        },
    }
}

/// The name in slot `i` and the namespace in the slot behind it.
pub open spec fn names_at(src: Snapshot, slots: Seq<u64>, i: int) -> Option<NamesAt> {
    if i < 0 || i + 1 >= slots.len() {
        None
    } else {
        match (name_at(src, slots[i]), namespace_at(src, slots[i + 1])) {
            (Some(name), Some(namespace)) => Some(NamesAt { offset: 8 * i, namespace, name }),
            _ => None,
        }
    }
}

/// The first names from slot `k` on.
pub open spec fn names_from(src: Snapshot, slots: Seq<u64>, k: int) -> Option<NamesAt>
    decreases slots.len() - k,
{
    if k < 0 || k >= slots.len() {
        None
    } else {
        match names_at(src, slots, k) {
            Some(n) => Some(n),
            None => names_from(src, slots, k + 1),
        }
    }
}

/// Where the names stand, the namespace and the name.
pub struct Names {
    pub offset: usize,
    pub namespace: String,
    pub name: String,
}

pub open spec fn opt_names(n: Option<Names>) -> Option<NamesAt> {
    match n {
        Some(x) => Some(NamesAt { offset: x.offset as int, namespace: x.namespace@, name: x.name@ }),
        None => None,
    }
}

fn name_pair_at(src: &Snapshot, slots: &Vec<u64>, i: usize) -> (r: Option<Names>)
    requires
        8 * slots@.len() <= usize::MAX,
    ensures
        opt_names(r) == names_at(*src, slots@, i as int),
{
    if slots.len() < 2 || i > slots.len() - 2 {
        return None;
    }
    let name = match read_name(src, Va(slots[i])) {
        Some(n) => n,
        None => {
            return None;
        },
    };
    let p = Va(slots[i + 1]);
    let namespace = match read_name(src, p) {
        Some(n) => n,
        None => match src.read(p, 1) {
            Ok(b) => {
                if b.len() > 0 && b[0] == 0 {
                    let s = String::new();
                    assert(s@ =~= Seq::<char>::empty());
                    s
                } else {
                    return None;
                }
            },
            Err(_) => {
                return None;
            },
        },
    };
    Some(Names { offset: 8 * i, namespace, name })
}

fn find_names(src: &Snapshot, slots: &Vec<u64>) -> (r: Option<Names>)
    requires
        8 * slots@.len() <= usize::MAX,
    ensures
        opt_names(r) == names_from(*src, slots@, 0),
{
    let mut k: usize = 0;
    while k < slots.len()
        invariant
            8 * slots@.len() <= usize::MAX,
            k <= slots@.len(),
            names_from(*src, slots@, 0) == names_from(*src, slots@, k as int),
        decreases slots@.len() - k,
    {
        let n = name_pair_at(src, slots, k);
        if n.is_some() {
            return n;
        }
        k = k + 1;
    }
    None
}

fn discover_names(src: &Snapshot, klass: Va, probe: usize) -> (r: Option<Names>)
    ensures
        opt_names(r) == names_from(*src, slots_at(*src, klass.0, probe as nat), 0),
{
    let slots = slots_of(src, klass, probe);
    find_names(src, &slots)
}

/// A field: its name and its offset.
pub ghost struct FieldAt {
    pub name: Seq<char>,
    pub offset: i64,
}

/// The field at `p` of a field array, where it is one of the class.
pub open spec fn field_at(src: Snapshot, klass: u64, t: Seq<u8>, p: int) -> Option<FieldAt> {
    match name_at(src, le(t, p, 8) as u64) {
        Some(name) => {
            let off = signed(le(t, p + FIELD_OFFSET, 4) as u64);
            if le(t, p + FIELD_PARENT, 8) == klass && 0 <= off < MAX_FIELD_OFFSET {
                Some(FieldAt { name, offset: off as i64 })
            } else {
                None
            }
        },
        None => None,
    }
}

/// The fields from `p` on, up to one that is not of the class.
pub open spec fn fields_walk(src: Snapshot, klass: u64, t: Seq<u8>, stride: int, p: int) -> Seq<FieldAt>
    decreases t.len() - p,
{
    if p < 0 || stride <= 0 || p + stride > t.len() {
        Seq::empty()
    } else {
        match field_at(src, klass, t, p) {
            Some(f) => seq![f] + fields_walk(src, klass, t, stride, p + stride),
            None => Seq::empty(),
        }
    }
}

/// A second field at this distance points back at the class.
pub open spec fn points_back(t: Seq<u8>, klass: u64, stride: int) -> bool {
    stride + FIELD_PARENT + 8 <= t.len() && le(t, stride + FIELD_PARENT, 8) == klass
}

/// The distance from one field to the next, as the second shows it.
pub open spec fn stride_of(t: Seq<u8>, klass: u64) -> usize {
    if points_back(t, klass, FIELD_ENTRY as int) {
        FIELD_ENTRY
    } else if points_back(t, klass, FIELD_ENTRY_WIDE as int) {
        FIELD_ENTRY_WIDE
    } else {
        FIELD_ENTRY
    }
}

/// The distance and the fields of the array at an address, where its first
/// entry points back at the class.
pub open spec fn array_at(src: Snapshot, klass: u64, arr: u64) -> Option<(usize, Seq<FieldAt>)> {
    if arr == 0 {
        None
    } else {
        match src.read_of(arr, FIELD_ENTRY as nat) {
            None => None,
            Some(head) => if head.len() < FIELD_ENTRY || le(head, FIELD_PARENT as int, 8) != klass {
                None
            } else {
                match src.read_of(arr, FIELD_TABLE as nat) {
                    None => None,
                    Some(t) => {
                        let stride = stride_of(t, klass);
                        let fields = fields_walk(src, klass, t, stride as int, 0);
                        if fields.len() == 0 {
                            None
                        } else {
                            Some((stride, fields))
                        }
                    },
                }
            },
        }
    }
}

/// Where the field array stands, the distance between fields, and the fields.
pub ghost struct FieldsAt {
    pub offset: int,
    pub stride: usize,
    pub fields: Seq<FieldAt>,
}

/// The first field array from slot `k` on.
pub open spec fn fields_from(src: Snapshot, klass: u64, slots: Seq<u64>, k: int) -> Option<FieldsAt>
    decreases slots.len() - k,
{
    if k < 0 || k >= slots.len() {
        None
    } else {
        match array_at(src, klass, slots[k]) {
            Some((stride, fields)) => Some(FieldsAt { offset: 8 * k, stride, fields }),
            None => fields_from(src, klass, slots, k + 1),
        }
    }
}

pub open spec fn fields_of(src: Snapshot, klass: u64, probe: nat) -> Option<FieldsAt> {
    fields_from(src, klass, slots_at(src, klass, probe), 0)
}

/// A field: its name and its offset.
pub struct Field {
    pub name: String,
    pub offset: i64,
}

pub open spec fn field_nodes(v: Seq<Field>) -> Seq<FieldAt> {
    v.map_values(|f: Field| FieldAt { name: f.name@, offset: f.offset })
}

/// Where the field array stands, the distance between fields, and the fields.
pub struct FieldTable {
    pub offset: usize,
    pub stride: usize,
    pub fields: Vec<Field>,
}

pub open spec fn opt_table(t: Option<FieldTable>) -> Option<FieldsAt> {
    match t {
        Some(x) => Some(FieldsAt { offset: x.offset as int, stride: x.stride, fields: field_nodes(x.fields@) }),
        None => None,
    }
}

fn read_field(src: &Snapshot, klass: Va, t: &[u8], p: usize) -> (r: Option<Field>)
    requires
        p + FIELD_ENTRY <= t@.len(),
        t@.len() <= FIELD_TABLE,
    ensures
        match (r, field_at(*src, klass.0, t@, p as int)) {
            (Some(f), Some(g)) => f.name@ == g.name && f.offset == g.offset,
            (None, None) => true,
            _ => false,
        },
{
    let name = match read_name(src, Va(le64(t, p))) {
        Some(n) => n,
        None => {
            return None;
        },
    };
    let parent: u64 = le64(t, p + FIELD_PARENT);
    let off: i32 = to_signed(le32(t, p + FIELD_OFFSET) as u64);
    if parent != klass.0 || off < 0 || off as i64 >= MAX_FIELD_OFFSET {
        return None;
    }
    Some(Field { name, offset: off as i64 })
}

fn walk_fields(src: &Snapshot, klass: Va, t: &[u8], stride: usize) -> (out: Vec<Field>)
    requires
        stride == FIELD_ENTRY || stride == FIELD_ENTRY_WIDE,
        t@.len() <= FIELD_TABLE,
    ensures
        field_nodes(out@) == fields_walk(*src, klass.0, t@, stride as int, 0),
{
    let mut out: Vec<Field> = Vec::new();
    let mut p: usize = 0;
    let ghost all = fields_walk(*src, klass.0, t@, stride as int, 0);
    assert(field_nodes(out@) + all =~= all);
    while p <= t.len() && t.len() - p >= stride
        invariant
            stride == FIELD_ENTRY || stride == FIELD_ENTRY_WIDE,
            t@.len() <= FIELD_TABLE,
            p <= t@.len() + FIELD_ENTRY_WIDE,
            all == fields_walk(*src, klass.0, t@, stride as int, 0),
            field_nodes(out@) + fields_walk(*src, klass.0, t@, stride as int, p as int) == all,
        decreases t@.len() + FIELD_ENTRY_WIDE - p,
    {
        let ghost before = field_nodes(out@);
        match read_field(src, klass, t, p) {
            Some(f) => {
                proof {
                    let node = FieldAt { name: f.name@, offset: f.offset };
                    let rest = fields_walk(*src, klass.0, t@, stride as int, p + stride);
                    assert(field_nodes(out@.push(f)) =~= before.push(node));
                    assert(before.push(node) + rest =~= before + (seq![node] + rest));
                }
                out.push(f);
            },
            None => {
                assert(before + Seq::<FieldAt>::empty() =~= before);
                return out;
            },
        }
        p = p + stride;
    }
    assert(field_nodes(out@) + Seq::<FieldAt>::empty() =~= field_nodes(out@));
    out
}

fn second_points_back(t: &[u8], klass: Va, stride: usize) -> (r: bool)
    requires
        stride <= FIELD_ENTRY_WIDE,
    ensures
        r == points_back(t@, klass.0, stride as int),
{
    t.len() >= stride + FIELD_PARENT + 8 && le64(t, stride + FIELD_PARENT) == klass.0
}

fn read_array(src: &Snapshot, klass: Va, arr: u64) -> (r: Option<(usize, Vec<Field>)>)
    ensures
        match (r, array_at(*src, klass.0, arr)) {
            (Some((s, v)), Some((t, w))) => s == t && field_nodes(v@) == w,
            (None, None) => true,
            _ => false,
        },
{
    if arr == 0 {
        return None;
    }
    let head = match src.read(Va(arr), FIELD_ENTRY) {
        Ok(h) => h,
        Err(_) => {
            return None;
        },
    };
    if head.len() < FIELD_ENTRY || le64(head.as_slice(), FIELD_PARENT) != klass.0 {
        return None;
    }
    let t = match src.read(Va(arr), FIELD_TABLE) {
        Ok(t) => t,
        Err(_) => {
            return None;
        },
    };
    let stride: usize = if second_points_back(t.as_slice(), klass, FIELD_ENTRY) {
        FIELD_ENTRY
    } else if second_points_back(t.as_slice(), klass, FIELD_ENTRY_WIDE) {
        FIELD_ENTRY_WIDE
    } else {
        FIELD_ENTRY
    };
    let fields = walk_fields(src, klass, t.as_slice(), stride);
    assert(field_nodes(fields@).len() == fields@.len());
    if fields.len() == 0 {
        None
    } else {
        Some((stride, fields))
    }
}

fn discover_fields(src: &Snapshot, klass: Va, probe: usize) -> (r: Option<FieldTable>)
    ensures
        opt_table(r) == fields_of(*src, klass.0, probe as nat),
{
    let slots = slots_of(src, klass, probe);
    let mut k: usize = 0;
    while k < slots.len()
        invariant
            slots@ == slots_at(*src, klass.0, probe as nat),
            8 * slots@.len() <= probe,
            k <= slots@.len(),
            fields_of(*src, klass.0, probe as nat) == fields_from(*src, klass.0, slots@, k as int),
        decreases slots@.len() - k,
    {
        match read_array(src, klass, slots[k]) {
            Some((stride, fields)) => {
                return Some(FieldTable { offset: 8 * k, stride, fields });
            },
            None => {},
        }
        k = k + 1;
    }
    None
}

// ---------------------------------------------------------------------------
// One class
// ---------------------------------------------------------------------------

/// A way to read an address: the object if it is one, the class, and its names.
pub ghost struct ReadingAt {
    pub object: Option<Va>,
    pub klass: Va,
    pub names: NamesAt,
}

/// How far into a class its parts are searched for.
pub open spec fn probe_of(probe: usize) -> usize {
    if probe == 0 {
        DEFAULT_PROBE
    } else {
        probe
    }
}

/// The address as that of an object: its first word is its class.
pub open spec fn as_object(src: Snapshot, addr: Va, probe: nat) -> Option<ReadingAt> {
    match pointer_at(src, addr.0) {
        Some(k) => match names_from(src, slots_at(src, k, probe), 0) {
            Some(names) => Some(ReadingAt { object: Some(addr), klass: Va(k), names }),
            None => None,
        },
        None => None,
    }
}

/// The address as that of a class.
pub open spec fn as_class(src: Snapshot, addr: Va, probe: nat) -> Option<ReadingAt> {
    match names_from(src, slots_at(src, addr.0, probe), 0) {
        Some(names) => Some(ReadingAt { object: None, klass: addr, names }),
        None => None,
    }
}

/// The class has fields that point back at it.
pub open spec fn has_fields(src: Snapshot, r: Option<ReadingAt>, probe: nat) -> bool {
    match r {
        Some(x) => fields_of(src, x.klass.0, probe) is Some,
        None => false,
    }
}

/// The reading that is taken: one whose class has fields that point back at it,
/// and as an object before as a class.
pub open spec fn reading_of(src: Snapshot, addr: Va, probe: nat) -> Option<ReadingAt> {
    let o = as_object(src, addr, probe);
    let c = as_class(src, addr, probe);
    if has_fields(src, o, probe) {
        o
    } else if has_fields(src, c, probe) {
        c
    } else if o is Some {
        o
    } else {
        c
    }
}

/// A field and its value, by contents.
pub ghost struct FieldNode {
    pub name: Seq<char>,
    pub offset: i64,
    pub value: Option<Seq<char>>,
}

/// The eight bytes at an offset of an object.
pub open spec fn value_at(b: Option<Seq<u8>>, offset: i64) -> Option<Seq<char>> {
    match b {
        Some(bytes) => if 0 <= offset && offset + 8 <= bytes.len() {
            Some("0x"@ + zero_padded(hex(le(bytes, offset as int, 8)), 16))
        } else {
            None
        },
        None => None,
    }
}

/// The bytes of an object, where values are asked for.
pub open spec fn object_bytes(src: Snapshot, object: Option<Va>, n: usize) -> Option<Seq<u8>> {
    match object {
        Some(o) => if n > 0 {
            src.read_of(o.0, n as nat)
        } else {
            None
        },
        None => None,
    }
}

/// A class, by contents.
pub ghost struct KlassNode {
    pub queried: Va,
    pub object: Option<Va>,
    pub klass: Va,
    pub namespace: Seq<char>,
    pub name: Seq<char>,
    pub field_count: nat,
    pub fields: Seq<FieldNode>,
    pub layout: LayoutEvidence,
    pub confidence: Seq<char>,
}

pub open spec fn field_node(f: KlassField) -> FieldNode {
    FieldNode { name: f.name@, offset: f.offset, value: text_of(f.value) }
}

pub open spec fn klass_node(a: KlassArtifact) -> KlassNode {
    KlassNode {
        queried: a.queried,
        object: a.object,
        klass: a.klass,
        namespace: a.namespace@,
        name: a.name@,
        field_count: a.field_count as nat,
        fields: a.fields@.map_values(|f: KlassField| field_node(f)),
        layout: a.layout,
        confidence: a.confidence@,
    }
}

/// What a reading says.
pub open spec fn klass_from(src: Snapshot, input: KlassInput, r: ReadingAt) -> KlassNode {
    let probe = probe_of(input.probe) as nat;
    let found = fields_of(src, r.klass.0, probe);
    let slot = self_from(slots_at(src, r.klass.0, probe), r.klass.0, 0);
    let raw = match found {
        Some(t) => t.fields,
        None => Seq::empty(),
    };
    let bytes = object_bytes(src, r.object, input.read_values);
    KlassNode {
        queried: input.addr,
        object: r.object,
        klass: r.klass,
        namespace: r.names.namespace,
        name: r.names.name,
        field_count: raw.len(),
        fields: raw.map_values(
            |f: FieldAt| FieldNode { name: f.name, offset: f.offset, value: value_at(bytes, f.offset) },
        ),
        layout: LayoutEvidence {
            name_offset: r.names.offset as usize,
            fields_offset: match found {
                Some(t) => Some(t.offset as usize),
                None => None,
            },
            fields_validated: raw.len() as usize,
            self_pointer_offset: match slot {
                Some(i) => Some((8 * i) as usize),
                None => None,
            },
            field_stride: match found {
                Some(t) => Some(t.stride),
                None => None,
            },
        },
        confidence: if raw.len() == 0 {
            WEAK@
        } else {
            VALIDATED@
        },
    }
}

/// Why an address is refused.
pub open spec fn refusal(addr: Va, probe: usize) -> Seq<char> {
    addr.text()
        + " is neither a managed object nor an Il2CppClass: no adjacent name/namespace pointer pair validated within "@
        + Va(probe as u64).text()
        + " bytes. Reading a live IL2CPP process is required — a static image has no runtime type structures at all"@
}

/// The class at an address, or of the object there.
pub open spec fn klass_of(src: Snapshot, input: KlassInput) -> Result<KlassNode, CoreFault> {
    match reading_of(src, input.addr, probe_of(input.probe) as nat) {
        Some(r) => Ok(klass_from(src, input, r)),
        None => Err(CoreFault::Other(refusal(input.addr, probe_of(input.probe)))),
    }
}

/// A way to read an address.
struct Reading {
    object: Option<Va>,
    klass: Va,
    names: Names,
}

spec fn opt_reading(r: Option<Reading>) -> Option<ReadingAt> {
    match r {
        Some(x) => Some(
            ReadingAt {
                object: x.object,
                klass: x.klass,
                names: NamesAt {
                    offset: x.names.offset as int,
                    namespace: x.names.namespace@,
                    name: x.names.name@,
                },
            },
        ),
        None => None,
    }
}

fn read_as_object(src: &Snapshot, addr: Va, probe: usize) -> (r: Option<Reading>)
    ensures
        opt_reading(r) == as_object(*src, addr, probe as nat),
{
    match read_u64(src, addr) {
        Some(k) => match discover_names(src, Va(k), probe) {
            Some(names) => Some(Reading { object: Some(addr), klass: Va(k), names }),
            None => None,
        },
        None => None,
    }
}

fn read_as_class(src: &Snapshot, addr: Va, probe: usize) -> (r: Option<Reading>)
    ensures
        opt_reading(r) == as_class(*src, addr, probe as nat),
{
    match discover_names(src, addr, probe) {
        Some(names) => Some(Reading { object: None, klass: addr, names }),
        None => None,
    }
}

fn validates(src: &Snapshot, r: &Option<Reading>, probe: usize) -> (b: bool)
    ensures
        b == has_fields(*src, opt_reading(*r), probe as nat),
{
    match r {
        Some(x) => discover_fields(src, x.klass, probe).is_some(),
        None => false,
    }
}

fn choose_reading(src: &Snapshot, addr: Va, probe: usize) -> (r: Option<Reading>)
    ensures
        opt_reading(r) == reading_of(*src, addr, probe as nat),
{
    let o = read_as_object(src, addr, probe);
    let c = read_as_class(src, addr, probe);
    if validates(src, &o, probe) {
        o
    } else if validates(src, &c, probe) {
        c
    } else if o.is_some() {
        o
    } else {
        c
    }
}

fn show_value(b: &Option<Vec<u8>>, offset: i64) -> (r: Option<String>)
    ensures
        text_of(r) == value_at(crate::aot::opt_bytes(*b), offset),
{
    match b {
        Some(v) => {
            if offset < 0 || v.len() < 8 || offset as u64 > (v.len() - 8) as u64 {
                return None;
            }
            let w: u64 = le64(v.as_slice(), offset as usize);
            Some(String::from_str("0x").concat(hexadecimal(w, false, 16).as_str()))
        },
        None => None,
    }
}

fn show_fields(raw: &Vec<Field>, b: &Option<Vec<u8>>) -> (out: Vec<KlassField>)
    ensures
        out@.len() == raw@.len(),
        out@.map_values(|f: KlassField| field_node(f)) == field_nodes(raw@).map_values(
            |f: FieldAt|
                FieldNode { name: f.name, offset: f.offset, value: value_at(crate::aot::opt_bytes(*b), f.offset) },
        ),
{
    let mut out: Vec<KlassField> = Vec::new();
    let mut i: usize = 0;
    while i < raw.len()
        invariant
            i <= raw@.len(),
            out@.len() == i,
            forall|j: int|
                0 <= j < i ==> field_node(#[trigger] out@[j]) == (FieldNode {
                    name: raw@[j].name@,
                    offset: raw@[j].offset,
                    value: value_at(crate::aot::opt_bytes(*b), raw@[j].offset),
                }),
        decreases raw@.len() - i,
    {
        let f = &raw[i];
        out.push(KlassField { name: f.name.clone(), offset: f.offset, value: show_value(b, f.offset) });
        i = i + 1;
    }
    assert(out@.map_values(|f: KlassField| field_node(f)) =~= field_nodes(raw@).map_values(
        |f: FieldAt|
            FieldNode { name: f.name, offset: f.offset, value: value_at(crate::aot::opt_bytes(*b), f.offset) },
    ));
    out
}

/// Reads the class at an address, or of the object there.
pub struct KlassPass;

impl KlassPass {
    pub fn name(&self) -> (r: &'static str)
        ensures
            r@ == "il2cpp.klass"@,
    {
        "il2cpp.klass"
    }

    pub fn run(&self, ctx: &Ctx, input: KlassInput) -> (r: Result<KlassArtifact, CoreError>)
        ensures
            match (r, klass_of(*ctx.source, input)) {
                (Ok(a), Ok(n)) => klass_node(a) == n,
                (Err(e), Err(f)) => e.fault() == f,
                _ => false,
            },
    {
        let src = ctx.source;
        let probe: usize = if input.probe == 0 {
            DEFAULT_PROBE
        } else {
            input.probe
        };
        let chosen = match choose_reading(src, input.addr, probe) {
            Some(x) => x,
            None => {
                return Err(
                    CoreError::Other(
                        input.addr.to_text().concat(
                            " is neither a managed object nor an Il2CppClass: no adjacent name/namespace pointer pair validated within ",
                        ).concat(Va(probe as u64).to_text().as_str()).concat(
                            " bytes. Reading a live IL2CPP process is required — a static image has no runtime type structures at all",
                        ),
                    ),
                );
            },
        };
        let klass = chosen.klass;
        let slots = slots_of(src, klass, probe);
        let self_pointer_offset: Option<usize> = match self_pointer_index(&slots, klass) {
            Some(i) => Some(8 * i),
            None => None,
        };
        let none: Vec<Field> = Vec::new();
        assert(field_nodes(none@) =~= Seq::<FieldAt>::empty());
        let (fields_offset, field_stride, raw): (Option<usize>, Option<usize>, Vec<Field>) = match discover_fields(
            src,
            klass,
            probe,
        ) {
            Some(t) => (Some(t.offset), Some(t.stride), t.fields),
            None => (None, None, none),
        };
        let confidence = if raw.len() == 0 {
            WEAK
        } else {
            VALIDATED
        };
        let bytes: Option<Vec<u8>> = match chosen.object {
            Some(o) => {
                if input.read_values > 0 {
                    match src.read(o, input.read_values) {
                        Ok(b) => Some(b),
                        Err(_) => None,
                    }
                } else {
                    None
                }
            },
            None => None,
        };
        let fields = show_fields(&raw, &bytes);
        proof {
            assert(field_nodes(raw@).len() == raw@.len());
        }
        Ok(
            KlassArtifact {
                queried: input.addr,
                object: chosen.object,
                klass,
                namespace: chosen.names.namespace,
                name: chosen.names.name,
                field_count: fields.len(),
                layout: LayoutEvidence {
                    name_offset: chosen.names.offset,
                    fields_offset,
                    fields_validated: fields.len(),
                    self_pointer_offset,
                    field_stride,
                },
                fields,
                confidence,
            },
        )
    }
}

// ---------------------------------------------------------------------------
// All classes
// ---------------------------------------------------------------------------

/// How often a pointer must occur to be looked at.
pub const DEFAULT_MIN_HITS: usize = 2;

/// How many pointers are looked at.
pub const DEFAULT_MAX_PROBE: usize = 2_000;

/// Where and how to search.
#[derive(Clone, Debug, PartialEq, Eq)]
pub struct ClassScanInput {
    /// The memory that is sampled.
    pub windows: Vec<(Va, usize)>,
    pub probe: usize,
    pub max_probe: usize,
    pub limit: usize,
    pub min_hits: usize,
    /// Whether a class must point at itself.
    pub require_self_pointer: bool,
}

/// A class that was found.
#[derive(Clone, Debug, PartialEq, Eq)]
pub struct ClassSummary {
    pub klass: Va,
    pub namespace: String,
    pub name: String,
    pub field_count: usize,
    /// How often its address occurs in the sample.
    pub hits: usize,
}

/// What a search finds.
#[derive(Clone, Debug, PartialEq, Eq)]
pub struct ClassScanArtifact {
    pub windows_read: usize,
    pub bytes_read: usize,
    /// How many different pointers occur.
    pub candidates: usize,
    /// How many of them were looked at.
    pub probed: usize,
    /// How many had names and no fields that point back.
    pub weak_rejected: usize,
    /// How many did not point at themselves.
    pub no_self_pointer: usize,
    pub count: usize,
    pub classes: Vec<ClassSummary>,
}

/// A pointer and how often it occurs.
#[derive(Clone, Copy, Debug, PartialEq, Eq, Structural)]
pub struct Hit {
    pub va: u64,
    pub hits: usize,
}

/// The more frequent come first, and of equally frequent ones the lower.
impl Ranked for Hit {
    open spec fn at_most(self, other: Hit) -> bool {
        self.hits > other.hits || (self.hits == other.hits && self.va <= other.va)
    }

    proof fn rank_laws(a: Hit, b: Hit, c: Hit) {
    }
}

impl Sortable for Hit {
    fn not_after(&self, other: &Hit) -> (r: bool) {
        self.hits > other.hits || (self.hits == other.hits && self.va <= other.va)
    }
}

/// A number that can be a pointer: in user space, aligned, and not near zero.
pub open spec fn is_pointer(v: u64) -> bool {
    0x1_0000 < v < 0x7fff_ffff_ffff && v % 8 == 0
}

pub open spec fn one_more(n: usize) -> usize {
    if n < usize::MAX {
        (n + 1) as usize
    } else {
        n
    }
}

/// How often each pointer occurs, after the first `k` slots.
pub open spec fn tally(slots: Seq<u64>, k: int, m: Map<u64, usize>) -> Map<u64, usize>
    decreases k,
{
    if k <= 0 {
        m
    } else {
        let done = tally(slots, k - 1, m);
        let v = slots[k - 1];
        if !is_pointer(v) {
            done
        } else if done.contains_key(v) {
            done.insert(v, one_more(done[v]))
        } else {
            done.insert(v, 1)
        }
    }
}

/// What was sampled: how often each pointer occurs, and how much was read.
pub ghost struct Sample {
    pub freq: Map<u64, usize>,
    pub windows: usize,
    pub bytes: usize,
}

pub open spec fn sat_sum(a: usize, b: nat) -> usize {
    if a + b > usize::MAX {
        usize::MAX
    } else {
        (a + b) as usize
    }
}

/// The sample of the first `k` windows. One that cannot be read is passed over.
pub open spec fn sample_of(src: Snapshot, windows: Seq<(Va, usize)>, k: int) -> Sample
    decreases k,
{
    if k <= 0 {
        Sample { freq: Map::empty(), windows: 0, bytes: 0 }
    } else {
        let done = sample_of(src, windows, k - 1);
        match src.read_of(windows[k - 1].0.0, windows[k - 1].1 as nat) {
            Some(b) => Sample {
                freq: tally(slots_in(b), slots_in(b).len() as int, done.freq),
                windows: one_more(done.windows),
                bytes: sat_sum(done.bytes, b.len()),
            },
            None => done,
        }
    }
}

/// The pointers that occur often enough, the most frequent first.
pub open spec fn ranking(ranked: Seq<Hit>, freq: Map<u64, usize>, min_hits: usize) -> bool {
    &&& in_order(ranked)
    &&& forall|i: int, j: int| 0 <= i < j < ranked.len() ==> (#[trigger] ranked[i]).va != (#[trigger] ranked[j]).va
    &&& forall|h: Hit| #[trigger]
        ranked.contains(h) <==> freq.contains_key(h.va) && freq[h.va] == h.hits && h.hits >= min_hits
}

/// A class that was found, by contents.
pub ghost struct SummaryNode {
    pub klass: Va,
    pub namespace: Seq<char>,
    pub name: Seq<char>,
    pub field_count: nat,
    pub hits: usize,
}

/// What the search has found so far.
pub ghost struct ScanNode {
    pub classes: Seq<SummaryNode>,
    pub probed: nat,
    pub weak: nat,
    pub no_self: nat,
}

/// The names of a candidate. Where it points at itself they are looked for at
/// the usual distance first.
pub open spec fn names_of(src: Snapshot, slots: Seq<u64>, anchor: Option<int>) -> Option<NamesAt> {
    let near = match anchor {
        Some(i) => names_at(src, slots, i - SELF_PTR_SLOTS_AFTER_NAME),
        None => None,
    };
    if near is Some {
        near
    } else {
        names_from(src, slots, 0)
    }
}

/// The search after one more candidate.
pub open spec fn probe_one(src: Snapshot, probe: nat, require_self: bool, h: Hit, st: ScanNode) -> ScanNode {
    let slots = slots_at(src, h.va, probe);
    let anchor = self_from(slots, h.va, 0);
    let next = ScanNode { probed: st.probed + 1, ..st };
    if slots.len() == 0 {
        next
    } else if require_self && anchor is None {
        ScanNode { no_self: st.no_self + 1, ..next }
    } else {
        match names_of(src, slots, anchor) {
            None => next,
            Some(n) => match fields_of(src, h.va, probe) {
                None => ScanNode { weak: st.weak + 1, ..next },
                Some(t) => ScanNode {
                    classes: st.classes.push(
                        SummaryNode {
                            klass: Va(h.va),
                            namespace: n.namespace,
                            name: n.name,
                            field_count: t.fields.len(),
                            hits: h.hits,
                        },
                    ),
                    ..next
                },
            },
        }
    }
}

/// The search from candidate `k` on. It ends when enough were looked at or
/// enough were found.
pub open spec fn probe_from(
    src: Snapshot,
    probe: nat,
    require_self: bool,
    max_probe: usize,
    limit: usize,
    ranked: Seq<Hit>,
    k: int,
    st: ScanNode,
) -> ScanNode
    decreases ranked.len() - k,
{
    if k < 0 || k >= ranked.len() || st.probed >= max_probe || (limit != 0 && st.classes.len() >= limit) {
        st
    } else {
        probe_from(
            src,
            probe,
            require_self,
            max_probe,
            limit,
            ranked,
            k + 1,
            probe_one(src, probe, require_self, ranked[k], st),
        )
    }
}

pub open spec fn or_default(n: usize, d: usize) -> usize {
    if n == 0 {
        d
    } else {
        n
    }
}

pub open spec fn summary_nodes(v: Seq<ClassSummary>) -> Seq<SummaryNode> {
    v.map_values(
        |c: ClassSummary|
            SummaryNode {
                klass: c.klass,
                namespace: c.namespace@,
                name: c.name@,
                field_count: c.field_count as nat,
                hits: c.hits,
            },
    )
}

/// The artifact is what the search finds.
pub open spec fn scanned(src: Snapshot, input: ClassScanInput, a: ClassScanArtifact) -> bool {
    let sample = sample_of(src, input.windows@, input.windows@.len() as int);
    &&& a.windows_read == sample.windows
    &&& a.bytes_read == sample.bytes
    &&& a.candidates == sample.freq.dom().len()
    &&& a.count == a.classes@.len()
    &&& exists|ranked: Seq<Hit>| #[trigger]
        ranking(ranked, sample.freq, or_default(input.min_hits, DEFAULT_MIN_HITS)) && {
            let end = probe_from(
                src,
                probe_of(input.probe) as nat,
                input.require_self_pointer,
                or_default(input.max_probe, DEFAULT_MAX_PROBE),
                input.limit,
                ranked,
                0,
                ScanNode { classes: Seq::empty(), probed: 0, weak: 0, no_self: 0 },
            );
            &&& summary_nodes(a.classes@) == end.classes
            &&& a.probed == end.probed
            &&& a.weak_rejected == end.weak
            &&& a.no_self_pointer == end.no_self
        }
}

fn count_slots(slots: &Vec<u64>, freq: &mut SortedMap<u64, usize>)
    requires
        old(freq).wf(),
    ensures
        final(freq).wf(),
        final(freq).map() == tally(slots@, slots@.len() as int, old(freq).map()),
{
    let mut k: usize = 0;
    while k < slots.len()
        invariant
            k <= slots@.len(),
            freq.wf(),
            freq.map() == tally(slots@, k as int, old(freq).map()),
        decreases slots@.len() - k,
    {
        let v: u64 = slots[k];
        if v > 0x1_0000 && v < 0x7fff_ffff_ffff && v % 8 == 0 {
            let n: usize = match freq.get(&v) {
                Some(n) => n.saturating_add(1),
                None => 1,
            };
            freq.insert(v, n);
        }
        k = k + 1;
    }
}

pub fn rank_hits(freq: &SortedMap<u64, usize>, min_hits: usize) -> (out: Vec<Hit>)
    requires
        freq.wf(),
    ensures
        ranking(out@, freq.map(), min_hits),
{
    let mut hits: Vec<Hit> = Vec::new();
    let mut i: usize = 0;
    while i < freq.keys.len()
        invariant
            freq.wf(),
            i <= freq.keys@.len(),
            forall|h: Hit| #[trigger]
                hits@.contains(h) <==> exists|j: int|
                    0 <= j < i && #[trigger] freq.keys@[j] == h.va && freq.vals@[j] == h.hits && h.hits >= min_hits,
            forall|a: int, b: int| 0 <= a < b < hits@.len() ==> (#[trigger] hits@[a]).va < (#[trigger] hits@[b]).va,
            forall|a: int| 0 <= a < hits@.len() && i < freq.keys@.len() ==> (#[trigger] hits@[a]).va < freq.keys@[i as int],
        decreases freq.keys@.len() - i,
    {
        let va: u64 = freq.keys[i];
        let n: usize = freq.vals[i];
        let ghost before = hits@;
        if n >= min_hits {
            hits.push(Hit { va, hits: n });
        }
        proof {
            assert forall|h: Hit| #[trigger]
                hits@.contains(h) <==> exists|j: int|
                    0 <= j < i + 1 && #[trigger] freq.keys@[j] == h.va && freq.vals@[j] == h.hits && h.hits >= min_hits by {
                assert(before.contains(h) <==> exists|j: int|
                    0 <= j < i && #[trigger] freq.keys@[j] == h.va && freq.vals@[j] == h.hits && h.hits >= min_hits);
                if before.contains(h) {
                    let x = choose|x: int| 0 <= x < before.len() && before[x] == h;
                    assert(hits@[x] == h);
                }
                if n >= min_hits {
                    assert(hits@[before.len() as int] == (Hit { va, hits: n }));
                }
                if hits@.contains(h) && !before.contains(h) {
                    let x = choose|x: int| 0 <= x < hits@.len() && hits@[x] == h;
                    if x < before.len() {
                        assert(before[x] == h);
                    }
                    assert(freq.keys@[i as int] == h.va);
                }
                if freq.keys@[i as int] == h.va && freq.vals@[i as int] == h.hits && h.hits >= min_hits {
                    assert(hits@.contains(h));
                }
            }
            if i + 1 < freq.keys@.len() {
                assert(<u64 as crate::sorted::SortKey>::before(
                    crate::sorted::SortKey::model(&freq.keys@[i as int]),
                    crate::sorted::SortKey::model(&freq.keys@[i + 1]),
                ));
            }
        }
        i = i + 1;
    }
    let ghost raw = hits@;
    proof {
        sorting_permutes(raw);
        assert forall|h: Hit| #[trigger]
            raw.contains(h) <==> freq.map().contains_key(h.va) && freq.map()[h.va] == h.hits && h.hits >= min_hits by {
            if raw.contains(h) {
                let j = choose|j: int|
                    0 <= j < freq.keys@.len() && #[trigger] freq.keys@[j] == h.va && freq.vals@[j] == h.hits && h.hits
                        >= min_hits;
                lemma_map_at(freq, j);
            }
            if freq.map().contains_key(h.va) && freq.map()[h.va] == h.hits && h.hits >= min_hits {
                let j = crate::sorted::index_of_model(freq.keys@, h.va);
                assert(freq.keys@[j] == h.va);
                lemma_map_at(freq, j);
            }
        }
        lemma_distinct_vas(raw);
    }
    let out = sort_stable(hits);
    proof {
        lemma_keeps_distinct(raw, out@);
    }
    out
}

spec fn distinct_vas(s: Seq<Hit>) -> bool {
    s.no_duplicates() && forall|a: Hit, b: Hit|
        #![trigger s.contains(a), s.contains(b)]
        s.contains(a) && s.contains(b) && a.va == b.va ==> a == b
}

proof fn lemma_distinct_vas(s: Seq<Hit>)
    requires
        forall|a: int, b: int| 0 <= a < b < s.len() ==> (#[trigger] s[a]).va < (#[trigger] s[b]).va,
    ensures
        distinct_vas(s),
{
    assert forall|a: Hit, b: Hit| s.contains(a) && s.contains(b) && a.va == b.va implies a == b by {
        let i = choose|i: int| 0 <= i < s.len() && s[i] == a;
        let j = choose|j: int| 0 <= j < s.len() && s[j] == b;
        if i < j {
            assert(s[i].va < s[j].va);
        } else if j < i {
            assert(s[j].va < s[i].va);
        }
    }
    assert forall|i: int, j: int| 0 <= i < s.len() && 0 <= j < s.len() && i != j implies s[i] != s[j] by {
        if i < j {
            assert(s[i].va < s[j].va);
        } else {
            assert(s[j].va < s[i].va);
        }
    }
}

proof fn lemma_keeps_distinct(s: Seq<Hit>, t: Seq<Hit>)
    requires
        distinct_vas(s),
        t == stable(s),
    ensures
        forall|i: int, j: int| 0 <= i < j < t.len() ==> (#[trigger] t[i]).va != (#[trigger] t[j]).va,
{
    broadcast use vstd::seq_lib::group_to_multiset_ensures;

    sorting_permutes(s);
    s.lemma_multiset_has_no_duplicates();
    assert(t.no_duplicates()) by {
        assert(t.to_multiset() == s.to_multiset());
        t.lemma_multiset_has_no_duplicates_conv();
    }
    assert forall|i: int, j: int| 0 <= i < j < t.len() implies (#[trigger] t[i]).va != (#[trigger] t[j]).va by {
        assert(t.contains(t[i]));
        assert(t.contains(t[j]));
        assert(s.contains(t[i]));
        assert(s.contains(t[j]));
    }
}

/// Finds classes by what every object has: its first word is its class. The
/// most frequent pointers in a sample of memory are looked at first.
pub struct ClassScanPass;

/// What the search has found so far.
struct ScanState {
    classes: Vec<ClassSummary>,
    probed: usize,
    weak: usize,
    no_self: usize,
}

impl ScanState {
    spec fn node(&self) -> ScanNode {
        ScanNode {
            classes: summary_nodes(self.classes@),
            probed: self.probed as nat,
            weak: self.weak as nat,
            no_self: self.no_self as nat,
        }
    }

    spec fn bounded(&self, k: int) -> bool {
        self.probed <= k && self.weak <= k && self.no_self <= k
    }
}

fn find_candidate_names(src: &Snapshot, slots: &Vec<u64>, anchor: Option<usize>) -> (r: Option<Names>)
    requires
        8 * slots@.len() <= usize::MAX,
    ensures
        opt_names(r) == names_of(
            *src,
            slots@,
            match anchor {
                Some(i) => Some(i as int),
                None => None,
            },
        ),
{
    match anchor {
        Some(i) => {
            if i >= SELF_PTR_SLOTS_AFTER_NAME {
                let n = name_pair_at(src, slots, i - SELF_PTR_SLOTS_AFTER_NAME);
                if n.is_some() {
                    return n;
                }
            }
        },
        None => {},
    }
    find_names(src, slots)
}

fn look_at(src: &Snapshot, probe: usize, require_self: bool, h: Hit, st: &mut ScanState)
    requires
        old(st).probed < usize::MAX,
        old(st).weak < usize::MAX,
        old(st).no_self < usize::MAX,
    ensures
        final(st).node() == probe_one(*src, probe as nat, require_self, h, old(st).node()),
{
    st.probed = st.probed + 1;
    let klass = Va(h.va);
    let slots = slots_of(src, klass, probe);
    if slots.len() == 0 {
        return ;
    }
    let anchor = self_pointer_index(&slots, klass);
    if require_self && anchor.is_none() {
        st.no_self = st.no_self + 1;
        return ;
    }
    let names = match find_candidate_names(src, &slots, anchor) {
        Some(n) => n,
        None => {
            return ;
        },
    };
    match discover_fields(src, klass, probe) {
        None => {
            st.weak = st.weak + 1;
        },
        Some(t) => {
            let ghost before = summary_nodes(st.classes@);
            let c = ClassSummary {
                klass,
                namespace: names.namespace,
                name: names.name,
                field_count: t.fields.len(),
                hits: h.hits,
            };
            proof {
                assert(field_nodes(t.fields@).len() == t.fields@.len());
                let node = SummaryNode {
                    klass,
                    namespace: c.namespace@,
                    name: c.name@,
                    field_count: c.field_count as nat,
                    hits: c.hits,
                };
                assert(summary_nodes(st.classes@.push(c)) =~= before.push(node));
            }
            st.classes.push(c);
        },
    }
}

impl ClassScanPass {
    pub fn name(&self) -> (r: &'static str)
        ensures
            r@ == "il2cpp.classes"@,
    {
        "il2cpp.classes"
    }

    pub fn run(&self, ctx: &Ctx, input: ClassScanInput) -> (r: Result<ClassScanArtifact, CoreError>)
        ensures
            r matches Ok(a) && scanned(*ctx.source, input, a),
    {
        let src = ctx.source;
        let probe: usize = if input.probe == 0 {
            DEFAULT_PROBE
        } else {
            input.probe
        };
        let max_probe: usize = if input.max_probe == 0 {
            DEFAULT_MAX_PROBE
        } else {
            input.max_probe
        };
        let min_hits: usize = if input.min_hits == 0 {
            DEFAULT_MIN_HITS
        } else {
            input.min_hits
        };
        let mut freq: SortedMap<u64, usize> = SortedMap::new();
        let mut windows_read: usize = 0;
        let mut bytes_read: usize = 0;
        let mut k: usize = 0;
        while k < input.windows.len()
            invariant
                k <= input.windows@.len(),
                freq.wf(),
                (Sample { freq: freq.map(), windows: windows_read, bytes: bytes_read }) == sample_of(
                    *src,
                    input.windows@,
                    k as int,
                ),
            decreases input.windows@.len() - k,
        {
            let (base, size) = input.windows[k];
            match src.read(base, size) {
                Ok(b) => {
                    windows_read = windows_read.saturating_add(1);
                    bytes_read = bytes_read.saturating_add(b.len());
                    let slots = split_slots(b.as_slice());
                    count_slots(&slots, &mut freq);
                },
                Err(_) => {},
            }
            k = k + 1;
        }
        proof {
            crate::sorted::lemma_map_len(&freq);
        }
        let candidates: usize = freq.keys.len();
        let ranked = rank_hits(&freq, min_hits);
        let n: usize = ranked.len();
        let mut st = ScanState { classes: Vec::new(), probed: 0, weak: 0, no_self: 0 };
        let ghost end = probe_from(
            *src,
            probe as nat,
            input.require_self_pointer,
            max_probe,
            input.limit,
            ranked@,
            0,
            ScanNode { classes: Seq::empty(), probed: 0, weak: 0, no_self: 0 },
        );
        assert(summary_nodes(st.classes@) =~= Seq::<SummaryNode>::empty());
        let mut i: usize = 0;
        while i < n && st.probed < max_probe && (input.limit == 0 || st.classes.len() < input.limit)
            invariant
                n == ranked@.len(),
                i <= n,
                st.bounded(i as int),
                probe_from(
                    *src,
                    probe as nat,
                    input.require_self_pointer,
                    max_probe,
                    input.limit,
                    ranked@,
                    i as int,
                    st.node(),
                ) == end,
            decreases n - i,
        {
            assert(st.node().classes.len() == st.classes@.len());
            look_at(src, probe, input.require_self_pointer, ranked[i], &mut st);
            i = i + 1;
        }
        assert(st.node().classes.len() == st.classes@.len());
        assert(st.node() == end);
        proof {
            let sample = sample_of(*src, input.windows@, input.windows@.len() as int);
            assert(freq.map() == sample.freq);
            assert(ranking(ranked@, sample.freq, or_default(input.min_hits, DEFAULT_MIN_HITS)));
        }
        let a = ClassScanArtifact {
            windows_read,
            bytes_read,
            candidates,
            probed: st.probed,
            weak_rejected: st.weak,
            no_self_pointer: st.no_self,
            count: st.classes.len(),
            classes: st.classes,
        };
        Ok(a)
    }
}

// ---------------------------------------------------------------------------
// Laws
// ---------------------------------------------------------------------------

/// Every field that is reported has a name and lies in the object, as its own
/// entry says.
pub proof fn fields_point_back(src: Snapshot, klass: u64, t: Seq<u8>, stride: int, p: int, i: int)
    requires
        0 <= p,
        0 <= i < fields_walk(src, klass, t, stride, p).len(),
    ensures
        p + stride * i + stride <= t.len(),
        field_at(src, klass, t, p + stride * i) == Some(fields_walk(src, klass, t, stride, p)[i]),
        le(t, p + stride * i + FIELD_PARENT, 8) == klass,
        0 <= fields_walk(src, klass, t, stride, p)[i].offset < MAX_FIELD_OFFSET,
    decreases i,
{
    if i > 0 {
        fields_point_back(src, klass, t, stride, p + stride, i - 1);
        assert(p + stride + stride * (i - 1) == p + stride * i) by (nonlinear_arith);
    } else {
        assert(stride * 0 == 0) by (nonlinear_arith);
    }
}

/// Exactly what has fields that point back at it is called validated, everything
/// else weak.
pub proof fn validated_classes_are_proven(src: Snapshot, input: KlassInput, r: ReadingAt)
    ensures
        klass_from(src, input, r).confidence == VALIDATED@ <==> fields_of(src, r.klass.0, probe_of(input.probe) as nat) is Some,
        klass_from(src, input, r).confidence == VALIDATED@ <==> klass_from(src, input, r).field_count > 0,
        klass_from(src, input, r).confidence == VALIDATED@ || klass_from(src, input, r).confidence == WEAK@,
        klass_from(src, input, r).field_count == klass_from(src, input, r).fields.len(),
{
    reveal_strlit("validated");
    reveal_strlit("weak-name-pair-only");
    assert(VALIDATED@.len() != WEAK@.len());
    lemma_fields_nonempty(src, r.klass.0, slots_at(src, r.klass.0, probe_of(input.probe) as nat), 0);
}

proof fn lemma_fields_nonempty(src: Snapshot, klass: u64, slots: Seq<u64>, k: int)
    ensures
        fields_from(src, klass, slots, k) matches Some(t) ==> t.fields.len() > 0,
    decreases slots.len() - k,
{
    if 0 <= k < slots.len() && array_at(src, klass, slots[k]) is None {
        lemma_fields_nonempty(src, klass, slots, k + 1);
    }
}

// ---------------------------------------------------------------------------
// What a class is made of
// ---------------------------------------------------------------------------

/// A name is what stands before the first zero, if it begins with a letter, an underscore
/// or an angle bracket and holds nothing but what names hold.
pub proof fn names_end_at_their_zero(b: Seq<u8>, z: int)
    requires
        0 < z < b.len(),
        b[z] == 0,
        forall|i: int| 0 <= i < z ==> #[trigger] b[i] != 0,
    ensures
        (forall|i: int| 0 <= i < z ==> ('a' as u8 <= #[trigger] b[i] <= 'z' as u8)) ==> name_in(b) == Some(
            Seq::new(z as nat, |i: int| b[i] as char),
        ),
        '0' as u8 <= b[0] <= '9' as u8 ==> name_in(b) is None,
        (exists|i: int| 0 <= i < z && #[trigger] b[i] >= 0x80) ==> name_in(b) is None,
{
    crate::bytes::texts_end_at_the_first_zero(b, 0, z);
    let t = b.take(z);
    if forall|i: int| 0 <= i < z ==> ('a' as u8 <= #[trigger] b[i] <= 'z' as u8) {
        assert forall|i: int| 0 <= i < t.len() implies in_name(#[trigger] t[i]) by {
            assert(t[i] == b[i]);
        }
        assert(t[0] == b[0]);
        assert(ascii(t) =~= Seq::new(z as nat, |i: int| b[i] as char));
    }
    if exists|i: int| 0 <= i < z && #[trigger] b[i] >= 0x80 {
        let i = choose|i: int| 0 <= i < z && #[trigger] b[i] >= 0x80;
        assert(!in_name(t[i]));
    }
    assert(t[0] == b[0]);
}

/// The name of a class stands in one slot and its namespace in the slot behind it.
pub proof fn the_namespace_follows_the_name(src: Snapshot, slots: Seq<u64>, i: int)
    requires
        0 <= i,
        i + 1 < slots.len(),
    ensures
        names_at(src, slots, i) matches Some(n) ==> name_at(src, slots[i]) == Some(n.name) && namespace_at(
            src,
            slots[i + 1],
        ) == Some(n.namespace) && n.offset == 8 * i,
        name_at(src, slots[i]) is Some && namespace_at(src, slots[i + 1]) is Some ==> names_at(src, slots, i) is Some,
{
}

/// The names that are taken are the first that are found.
pub proof fn the_first_names_are_taken(src: Snapshot, slots: Seq<u64>, i: int)
    requires
        0 <= i < slots.len(),
        names_at(src, slots, i) is Some,
        forall|j: int| 0 <= j < i ==> (#[trigger] names_at(src, slots, j)) is None,
    ensures
        names_from(src, slots, 0) == names_at(src, slots, i),
{
    lemma_names_found(src, slots, i, 0);
}

proof fn lemma_names_found(src: Snapshot, slots: Seq<u64>, i: int, k: int)
    requires
        0 <= k <= i < slots.len(),
        names_at(src, slots, i) is Some,
        forall|j: int| k <= j < i ==> (#[trigger] names_at(src, slots, j)) is None,
    ensures
        names_from(src, slots, k) == names_at(src, slots, i),
    decreases i - k,
{
    if k < i {
        lemma_names_found(src, slots, i, k + 1);
    }
}

/// A field is an entry with a pointer to its name, one to its class and its offset.
pub proof fn fields_have_a_name_a_class_and_an_offset(src: Snapshot, klass: u64, t: Seq<u8>, p: int, n: Seq<char>)
    requires
        name_at(src, le(t, p, 8) as u64) == Some(n),
    ensures
        le(t, p + 16, 8) != klass ==> field_at(src, klass, t, p) is None,
        le(t, p + 16, 8) == klass && le(t, p + 24, 4) < 0x1_0000 ==> field_at(src, klass, t, p) == Some(
            FieldAt { name: n, offset: le(t, p + 24, 4) as i64 },
        ),
        0x1_0000 <= le(t, p + 24, 4) ==> field_at(src, klass, t, p) is None,
{
    crate::bytes::lemma_le_bound(t, p + 24, 4);
    assert(vstd::arithmetic::power::pow(256, 4) == 0x1_0000_0000) by {
        reveal_with_fuel(vstd::arithmetic::power::pow, 6);
    }
}

/// Fields stand one stride behind the other, up to one that is not of the class.
pub proof fn fields_stand_a_stride_apart(src: Snapshot, klass: u64, t: Seq<u8>, stride: int, p: int)
    requires
        0 <= p,
        stride > 0,
        p + stride <= t.len(),
    ensures
        field_at(src, klass, t, p) is None ==> fields_walk(src, klass, t, stride, p).len() == 0,
        field_at(src, klass, t, p) matches Some(f) ==> fields_walk(src, klass, t, stride, p)[0] == f && fields_walk(
            src,
            klass,
            t,
            stride,
            p,
        ).skip(1) == fields_walk(src, klass, t, stride, p + stride),
{
    match field_at(src, klass, t, p) {
        Some(f) => {
            let rest = fields_walk(src, klass, t, stride, p + stride);
            assert((seq![f] + rest).skip(1) =~= rest);
        },
        None => {},
    }
}

/// An address is read as an object before as a class, but a reading whose class has
/// fields that point back at it before one whose class has none.
pub proof fn readings_with_fields_come_first(src: Snapshot, addr: Va, probe: nat)
    ensures
        ({
            let o = as_object(src, addr, probe);
            let c = as_class(src, addr, probe);
            let r = reading_of(src, addr, probe);
            &&& has_fields(src, o, probe) ==> r == o
            &&& !has_fields(src, o, probe) && has_fields(src, c, probe) ==> r == c
            &&& !has_fields(src, o, probe) && !has_fields(src, c, probe) && o is Some ==> r == o
            &&& o is None ==> r == c
            &&& o matches Some(x) ==> x.object == Some(addr) && pointer_at(src, addr.0) == Some(x.klass.0)
            &&& c matches Some(x) ==> x.object is None && x.klass == addr
        }),
{
}

/// A value is the eight bytes at its field's offset, in sixteen digits behind `0x`.
pub proof fn values_are_the_bytes_of_their_field(b: Seq<u8>, offset: i64)
    ensures
        0 <= offset && offset + 8 <= b.len() ==> value_at(Some(b), offset) == Some(
            "0x"@ + zero_padded(hex(le(b, offset as int, 8)), 16),
        ),
        offset < 0 || offset + 8 > b.len() ==> value_at(Some(b), offset) is None,
        value_at(None, offset) is None,
{
}

/// What is said of a class is what its reading found: its names, its fields with their
/// values, and where each was found.
pub proof fn classes_are_what_was_read(src: Snapshot, input: KlassInput, r: ReadingAt, i: int)
    ensures
        ({
            let k = klass_from(src, input, r);
            let probe = if input.probe == 0 {
                0x120nat
            } else {
                input.probe as nat
            };
            &&& k.queried == input.addr && k.object == r.object && k.klass == r.klass
            &&& k.name == r.names.name && k.namespace == r.names.namespace
            &&& fields_of(src, r.klass.0, probe) matches Some(t) ==> k.field_count == t.fields.len() && k.fields.len()
                == t.fields.len() && (0 <= i < t.fields.len() ==> k.fields[i].name == t.fields[i].name && k.fields[i].offset
                == t.fields[i].offset) && k.layout.field_stride == Some(t.stride)
            &&& fields_of(src, r.klass.0, probe) is None ==> k.field_count == 0 && k.fields.len() == 0
                && k.layout.field_stride is None
            &&& k.field_count == 0 ==> k.confidence == "weak-name-pair-only"@
            &&& k.field_count > 0 ==> k.confidence == "validated"@
        }),
{
}

/// Each pointer is counted as often as it occurs, and what is no pointer not at all.
pub proof fn pointers_are_counted(slots: Seq<u64>, k: int, m: Map<u64, usize>, x: u64)
    requires
        0 <= k < slots.len(),
    ensures
        ({
            let done = tally(slots, k, m);
            let now = tally(slots, k + 1, m);
            let v = slots[k];
            let counts = 0x1_0000 < v < 0x7fff_ffff_ffff && v % 8 == 0;
            &&& !counts ==> now == done
            &&& counts && !done.contains_key(v) ==> now.contains_key(v) && now[v] == 1
            &&& counts && done.contains_key(v) && done[v] < usize::MAX ==> now.contains_key(v) && now[v] == done[v] + 1
            &&& x != v ==> now.contains_key(x) == done.contains_key(x)
            &&& x != v && done.contains_key(x) ==> now[x] == done[x]
        }),
{
}

/// A candidate is reported only where its names and its fields are found; one with names
/// alone is counted as weak, and one that does not point at itself is refused where that
/// is asked for.
pub proof fn candidates_must_have_names_and_fields(src: Snapshot, probe: nat, require_self: bool, h: Hit, st: ScanNode)
    ensures
        ({
            let slots = slots_at(src, h.va, probe);
            let anchor = self_from(slots, h.va, 0);
            let next = probe_one(src, probe, require_self, h, st);
            &&& next.probed == st.probed + 1
            &&& slots.len() == 0 ==> next.classes == st.classes && next.weak == st.weak && next.no_self == st.no_self
            &&& slots.len() > 0 && require_self && anchor is None ==> next.no_self == st.no_self + 1 && next.classes
                == st.classes
            &&& slots.len() > 0 && !(require_self && anchor is None) ==> (names_of(src, slots, anchor) is None
                ==> next.classes == st.classes && next.weak == st.weak)
            &&& slots.len() > 0 && !(require_self && anchor is None) ==> (names_of(src, slots, anchor) matches Some(n) ==> (
            fields_of(src, h.va, probe) is None ==> next.weak == st.weak + 1 && next.classes == st.classes) && (fields_of(
                src,
                h.va,
                probe,
            ) matches Some(t) ==> next.classes.len() == st.classes.len() + 1 && next.classes.last().name == n.name
                && next.classes.last().namespace == n.namespace && next.classes.last().field_count == t.fields.len()
                && next.classes.last().hits == h.hits && next.classes.last().klass.0 == h.va))
        }),
{
}

/// The distance between fields is the narrow one, unless only the wide one leads to a
/// field of the class.
pub proof fn strides_lead_to_a_second_field(t: Seq<u8>, klass: u64)
    ensures
        points_back(t, klass, FIELD_ENTRY as int) ==> stride_of(t, klass) == FIELD_ENTRY,
        !points_back(t, klass, FIELD_ENTRY as int) && points_back(t, klass, FIELD_ENTRY_WIDE as int) ==> stride_of(t, klass)
            == FIELD_ENTRY_WIDE,
        points_back(t, klass, FIELD_ENTRY as int) || points_back(t, klass, FIELD_ENTRY_WIDE as int) ==> points_back(
            t,
            klass,
            stride_of(t, klass) as int,
        ),
{
}

} // verus!
