//! The names of methods in ahead-of-time compiled .NET images.
//!
//! Such an image has no ordinary symbols, but it carries metadata from which
//! stack traces are printed and methods are invoked by reflection. Both map the
//! entry of a method to its name. The header that leads to them is searched for
//! in the data of the image.

use std::collections::{HashMap, HashSet};
use vstd::prelude::*;
use vstd::string::{StrSliceExecFns, StringExecFns};

use crate::bytes::{le, le16, le32, le64};
use crate::eh::{signed, to_signed};
use crate::native::{
    decode_signed, decode_unsigned, members_at, method_at, method_name_and_sig, method_signature_types, name_at,
    namespace_at, namespace_def_children, offsets_at, read_name, root_at, scope_root_ns, signature_at, signed_at,
    token_handle, type_members, type_name_at, type_text, unsigned_at, Handle, HT_NULL, HT_TYPE_DEFINITION,
};
use crate::order::{
    firsts, keep_firsts, lemma_firsts_map, sort_stable, stable, Comparable, Ranked, Repeats, Sortable,
};
use crate::source::{CoreError, Snapshot};
use crate::text::{dec, decimal, join, join_texts, same};
use crate::va::Va;

verus! {

broadcast use {vstd::set::group_set_axioms, vstd::std_specs::hash::group_hash_axioms};

/// A method: where it starts and what it is called.
#[derive(Clone, Debug, PartialEq, Eq)]
pub struct AotSymbol {
    /// Relative to the image.
    pub rva: u32,
    pub va: Va,
    /// Namespace, type and method.
    pub name: String,
    /// The types of its parameters, in parentheses.
    pub signature: String,
    pub return_type: String,
    /// The returned type, the name and the parameters.
    pub display: String,
    /// Where the name comes from: `stacktrace` or `invoke`.
    pub source: &'static str,
}

/// A part of the image.
#[derive(Clone, Copy, Debug, PartialEq, Eq, Structural)]
pub struct RvaSize {
    pub rva: u32,
    pub size: u32,
}

/// What the metadata of an image says.
#[derive(Clone, Debug, PartialEq, Eq)]
pub struct AotArtifact {
    pub header_rva: u32,
    pub version: String,
    pub embedded_metadata: RvaSize,
    pub rva_to_token: RvaSize,
    /// How many methods there are, each counted once.
    pub method_count: usize,
    pub stacktrace_count: usize,
    pub invoke_count: usize,
    /// In the order of their addresses, one for each.
    pub symbols: Vec<AotSymbol>,
}

/// A method, by contents.
pub ghost struct SymbolNode {
    pub rva: u32,
    pub va: Va,
    pub name: Seq<char>,
    pub signature: Seq<char>,
    pub return_type: Seq<char>,
    pub display: Seq<char>,
    pub source: Seq<char>,
}

pub open spec fn symbol_node(s: AotSymbol) -> SymbolNode {
    SymbolNode {
        rva: s.rva,
        va: s.va,
        name: s.name@,
        signature: s.signature@,
        return_type: s.return_type@,
        display: s.display@,
        source: s.source@,
    }
}

pub open spec fn symbol_nodes(s: Seq<AotSymbol>) -> Seq<SymbolNode> {
    s.map_values(|x: AotSymbol| symbol_node(x))
}

/// The signature of the metadata blob.
pub const METADATA_SIGNATURE: u32 = 0xDEAD_DFFD;

/// The ids of blob sections start here.
pub const READONLY_BLOB_REGION_START: u32 = 300;

pub const BLOB_EMBEDDED_METADATA: u32 = 13;

pub const BLOB_STACKTRACE_RVA_TO_TOKEN: u32 = 27;

pub const BLOB_INVOKE_MAP: u32 = 6;

pub const BLOB_COMMON_FIXUPS: u32 = 8;

/// How much is searched at a time.
pub const SCAN_WINDOW: u32 = 0x10_0000;

/// How large a header with its sections may be.
pub const HEADER_MAX: usize = 48016;

/// How large a blob may be.
pub const MAX_BLOB: u32 = 0x1000_0000;

/// How far above its base an image reaches.
pub const IMAGE_SPAN_MAX: u64 = 0x8000_0000;

// ---------------------------------------------------------------------------
// The header
// ---------------------------------------------------------------------------

/// A section of the header.
#[derive(Clone, Copy, Debug, PartialEq, Eq, Structural)]
pub struct ModuleInfoRow {
    pub section_id: u32,
    pub start_rva: u32,
    pub size: u32,
}

/// The four bytes at `p` are the magic number of a header.
pub open spec fn magic_at(b: Seq<u8>, p: int) -> bool {
    0 <= p && p + 4 <= b.len() && b[p] == 0x52 && b[p + 1] == 0x54 && b[p + 2] == 0x52 && b[p + 3] == 0
}

/// The row `k` of the section table looks like one: a section id in range, no
/// unknown flags, and a start in the image.
pub open spec fn row_ok(b: Seq<u8>, base: u64, k: int) -> bool {
    let p = 16 + 24 * k;
    let id = le(b, p, 4);
    let flags = le(b, p + 4, 4);
    let start = le(b, p + 8, 8);
    100 <= id <= 999 && flags <= 1 && base <= start && start - base < IMAGE_SPAN_MAX
}

/// The section in row `k`. One without an end has no size.
pub open spec fn row_of(b: Seq<u8>, base: u64, k: int) -> ModuleInfoRow {
    let p = 16 + 24 * k;
    let start = le(b, p + 8, 8);
    let end = le(b, p + 16, 8);
    ModuleInfoRow {
        section_id: le(b, p, 4) as u32,
        start_rva: (start - base) as u32,
        size: if le(b, p + 4, 4) == 1 && end >= start && end - base < IMAGE_SPAN_MAX {
            (end - start) as u32
        } else {
            0
        },
    }
}

pub open spec fn is_blob_id(id: nat) -> bool {
    300 <= id <= 399
}

/// The version and the sections of the header in `b`. A row that does not look
/// like one, and the want of a blob section, mean that it is none.
pub open spec fn header_of(b: Seq<u8>, base: u64) -> Option<(Seq<char>, Seq<ModuleInfoRow>)> {
    if b.len() < 16 || !magic_at(b, 0) {
        None
    } else {
        let major = le(b, 4, 2);
        let n = le(b, 12, 2);
        if !(1 <= major <= 20) || n == 0 || n >= 2000 || b[14] != 24 || b.len() < 16 + 24 * n {
            None
        } else if exists|k: int| 0 <= k < n && !#[trigger] row_ok(b, base, k) {
            None
        } else if !exists|k: int| 0 <= k < n && #[trigger] is_blob_id(le(b, 16 + 24 * k, 4)) {
            None
        } else {
            Some((dec(major) + "."@ + dec(le(b, 6, 2)), Seq::new(n, |k: int| row_of(b, base, k))))
        }
    }
}

/// Reads the header in `buf`.
pub fn parse_header(buf: &[u8], image_base: u64) -> (r: Option<(String, Vec<ModuleInfoRow>)>)
    ensures
        match (r, header_of(buf@, image_base)) {
            (Some((v, s)), Some((w, t))) => v@ == w && s@ == t,
            (None, None) => true,
            _ => false,
        },
{
    if buf.len() < 16 || buf[0] != 0x52 || buf[1] != 0x54 || buf[2] != 0x52 || buf[3] != 0 {
        return None;
    }
    let major: u16 = le16(buf, 4);
    let minor: u16 = le16(buf, 6);
    let n: usize = le16(buf, 12) as usize;
    if major < 1 || major > 20 || n == 0 || n >= 2000 || buf[14] != 24 || buf.len() - 16 < n * 24 {
        return None;
    }
    let mut rows: Vec<ModuleInfoRow> = Vec::new();
    let mut has_blob = false;
    let mut k: usize = 0;
    while k < n
        invariant
            k <= n < 2000,
            buf@.len() >= 16 + 24 * n,
            n == le(buf@, 12, 2),
            rows@.len() == k,
            forall|j: int| 0 <= j < k ==> #[trigger] row_ok(buf@, image_base, j),
            forall|j: int| 0 <= j < k ==> #[trigger] rows@[j] == row_of(buf@, image_base, j),
            has_blob == exists|j: int| 0 <= j < k && #[trigger] is_blob_id(le(buf@, 16 + 24 * j, 4)),
            magic_at(buf@, 0),
        decreases n - k,
    {
        let p: usize = 16 + 24 * k;
        let id: u32 = le32(buf, p);
        let flags: u32 = le32(buf, p + 4);
        let start: u64 = le64(buf, p + 8);
        let end: u64 = le64(buf, p + 16);
        if id < 100 || id > 999 || flags > 1 || start < image_base || start - image_base >= IMAGE_SPAN_MAX {
            assert(!row_ok(buf@, image_base, k as int));
            return None;
        }
        assert(row_ok(buf@, image_base, k as int));
        let ghost had = has_blob;
        if 300 <= id && id <= 399 {
            has_blob = true;
        }
        proof {
            assert(is_blob_id(le(buf@, 16 + 24 * (k as int), 4)) == (300 <= id <= 399));
            if had {
                let j = choose|j: int| 0 <= j < k && #[trigger] is_blob_id(le(buf@, 16 + 24 * j, 4));
                assert(is_blob_id(le(buf@, 16 + 24 * j, 4)));
            }
        }
        let size: u32 = if flags == 1 && end >= start && end - image_base < IMAGE_SPAN_MAX {
            (end - start) as u32
        } else {
            0
        };
        rows.push(ModuleInfoRow { section_id: id, start_rva: (start - image_base) as u32, size });
        k = k + 1;
    }
    if !has_blob {
        return None;
    }
    assert(rows@ =~= Seq::new(n as nat, |k: int| row_of(buf@, image_base, k)));
    let version = decimal(major as u64).concat(".").concat(decimal(minor as u64).as_str());
    Some((version, rows))
}

/// The bytes at an offset of the image.
pub open spec fn bytes_at(src: Snapshot, base: u64, rva: u32, len: nat) -> Option<Seq<u8>> {
    if len == 0 {
        Some(Seq::empty())
    } else {
        src.read_of((base + rva) as u64, len)
    }
}

pub open spec fn opt_bytes(o: Option<Vec<u8>>) -> Option<Seq<u8>> {
    match o {
        Some(v) => Some(v@),
        None => None,
    }
}

fn read_rva(src: &Snapshot, base: u64, rva: u32, len: usize) -> (r: Option<Vec<u8>>)
    requires
        base + u32::MAX <= u64::MAX,
    ensures
        opt_bytes(r) == bytes_at(*src, base, rva, len as nat),
        r matches Some(v) ==> v@.len() <= len,
{
    if len == 0 {
        let v: Vec<u8> = Vec::new();
        assert(v@ =~= Seq::<u8>::empty());
        return Some(v);
    }
    match src.read(Va(base + rva as u64), len) {
        Ok(v) => Some(v),
        Err(_) => None,
    }
}

/// A header that was found: where, its version and its sections.
pub ghost struct HeaderAt {
    pub rva: u32,
    pub version: Seq<char>,
    pub rows: Seq<ModuleInfoRow>,
}

/// The header at offset `rva` of the image.
pub open spec fn header_at(src: Snapshot, base: u64, rva: int) -> Option<HeaderAt> {
    if rva > u32::MAX {
        None
    } else {
        match bytes_at(src, base, rva as u32, HEADER_MAX as nat) {
            Some(b) => match header_of(b, base) {
                Some((version, rows)) => Some(HeaderAt { rva: rva as u32, version, rows }),
                None => None,
            },
            None => None,
        }
    }
}

/// The first header in a window of bytes that lies at offset `rva`, from its
/// byte `i` on. Headers are aligned to four bytes.
pub open spec fn window_header(src: Snapshot, base: u64, b: Seq<u8>, rva: int, i: int) -> Option<HeaderAt>
    decreases b.len() - i,
{
    if i < 0 || i + 4 > b.len() {
        None
    } else if magic_at(b, i) && header_at(src, base, rva + i) is Some {
        header_at(src, base, rva + i)
    } else {
        window_header(src, base, b, rva, i + 4)
    }
}

/// The first header in a region, from its byte `off` on. The region is searched
/// window by window, and given up where a window cannot be read in full.
pub open spec fn region_header(src: Snapshot, base: u64, rva: u32, len: u32, off: int) -> Option<HeaderAt>
    decreases len - off,
{
    if off < 0 || off >= len || rva + off > u32::MAX {
        None
    } else {
        let want = if len - off < SCAN_WINDOW {
            len - off
        } else {
            SCAN_WINDOW as int
        };
        match bytes_at(src, base, (rva + off) as u32, want as nat) {
            None => None,
            Some(b) => match window_header(src, base, b, rva + off, 0) {
                Some(h) => Some(h),
                None => if b.len() < want {
                    None
                } else {
                    region_header(src, base, rva, len, off + want)
                },
            },
        }
    }
}

/// The first header in the regions from index `k` on.
pub open spec fn regions_header(src: Snapshot, base: u64, regions: Seq<RvaSize>, k: int) -> Option<HeaderAt>
    decreases regions.len() - k,
{
    if k < 0 || k >= regions.len() {
        None
    } else {
        match region_header(src, base, regions[k].rva, regions[k].size, 0) {
            Some(h) => Some(h),
            None => regions_header(src, base, regions, k + 1),
        }
    }
}

/// A header that was found.
pub struct Header {
    pub rva: u32,
    pub version: String,
    pub rows: Vec<ModuleInfoRow>,
}

pub open spec fn opt_header(h: Option<Header>) -> Option<HeaderAt> {
    match h {
        Some(h) => Some(HeaderAt { rva: h.rva, version: h.version@, rows: h.rows@ }),
        None => None,
    }
}

fn try_header(src: &Snapshot, base: u64, rva: u64) -> (r: Option<Header>)
    requires
        base + u32::MAX <= u64::MAX,
    ensures
        opt_header(r) == header_at(*src, base, rva as int),
{
    if rva > u32::MAX as u64 {
        return None;
    }
    match read_rva(src, base, rva as u32, HEADER_MAX) {
        Some(b) => match parse_header(b.as_slice(), base) {
            Some((version, rows)) => Some(Header { rva: rva as u32, version, rows }),
            None => None,
        },
        None => None,
    }
}

fn search_window(src: &Snapshot, base: u64, b: &[u8], rva: u64) -> (r: Option<Header>)
    requires
        base + u32::MAX <= u64::MAX,
        rva <= u32::MAX,
        b@.len() <= SCAN_WINDOW,
    ensures
        opt_header(r) == window_header(*src, base, b@, rva as int, 0),
{
    let mut i: usize = 0;
    while i <= b.len() && b.len() - i >= 4
        invariant
            base + u32::MAX <= u64::MAX,
            rva <= u32::MAX,
            b@.len() <= SCAN_WINDOW,
            i <= b@.len() + 4,
            window_header(*src, base, b@, rva as int, 0) == window_header(*src, base, b@, rva as int, i as int),
        decreases b@.len() + 4 - i,
    {
        if b[i] == 0x52 && b[i + 1] == 0x54 && b[i + 2] == 0x52 && b[i + 3] == 0 {
            let h = try_header(src, base, rva + i as u64);
            if h.is_some() {
                return h;
            }
        }
        i = i + 4;
    }
    None
}

fn search_region(src: &Snapshot, base: u64, region: RvaSize) -> (r: Option<Header>)
    requires
        base + u32::MAX <= u64::MAX,
    ensures
        opt_header(r) == region_header(*src, base, region.rva, region.size, 0),
{
    let mut off: u32 = 0;
    while off < region.size && region.rva as u64 + off as u64 <= u32::MAX as u64
        invariant
            base + u32::MAX <= u64::MAX,
            off <= region.size,
            region_header(*src, base, region.rva, region.size, 0) == region_header(
                *src,
                base,
                region.rva,
                region.size,
                off as int,
            ),
        decreases region.size - off,
    {
        let want: u32 = if region.size - off < SCAN_WINDOW {
            region.size - off
        } else {
            SCAN_WINDOW
        };
        let at: u32 = region.rva + off;
        let b = match read_rva(src, base, at, want as usize) {
            Some(b) => b,
            None => {
                return None;
            },
        };
        let h = search_window(src, base, b.as_slice(), at as u64);
        if h.is_some() {
            return h;
        }
        if b.len() < want as usize {
            return None;
        }
        off = off + want;
    }
    None
}

/// Searches regions of the image for a header.
pub fn find_header(src: &Snapshot, base: u64, regions: &Vec<RvaSize>) -> (r: Option<Header>)
    requires
        base + u32::MAX <= u64::MAX,
    ensures
        opt_header(r) == regions_header(*src, base, regions@, 0),
{
    let mut k: usize = 0;
    while k < regions.len()
        invariant
            base + u32::MAX <= u64::MAX,
            k <= regions@.len(),
            regions_header(*src, base, regions@, 0) == regions_header(*src, base, regions@, k as int),
        decreases regions@.len() - k,
    {
        let h = search_region(src, base, regions[k]);
        if h.is_some() {
            return h;
        }
        k = k + 1;
    }
    None
}

// ---------------------------------------------------------------------------
// The sections of the image
// ---------------------------------------------------------------------------

/// Where the section table of an image is, and how many sections it has. The
/// table follows the headers, whose length is stated.
pub open spec fn table_of(head: Seq<u8>) -> Option<(int, nat)> {
    if head.len() < 0x40 || head[0] != 0x4d || head[1] != 0x5a {
        None
    } else {
        let e = le(head, 0x3c, 4) as int;
        if e + 22 > head.len() || head[e] != 0x50 || head[e + 1] != 0x45 || head[e + 2] != 0 || head[e + 3] != 0 {
            None
        } else {
            Some((e + 24 + le(head, e + 20, 2), le(head, e + 6, 2)))
        }
    }
}

/// The section at `p` is worth searching: it is not empty, and no code.
pub open spec fn is_data(b: Seq<u8>, p: int) -> bool {
    let flags = le(b, p + 36, 4);
    (flags / 0x20) % 2 == 0 && (flags / 0x2000_0000) % 2 == 0 && le(b, p + 8, 4) != 0
}

/// The section at `p` is called `.rdata`.
pub open spec fn is_rdata(b: Seq<u8>, p: int) -> bool {
    b[p] == 0x2e && b[p + 1] == 0x72 && b[p + 2] == 0x64 && b[p + 3] == 0x61 && b[p + 4] == 0x74 && b[p + 5] == 0x61
        && b[p + 6] == 0 && b[p + 7] == 0
}

/// Those of the first `n` sections from `p` on that are worth searching, and
/// that are or are not called `.rdata`.
pub open spec fn sections_of(b: Seq<u8>, p: int, n: nat, rdata: bool) -> Seq<RvaSize>
    decreases n,
{
    if n == 0 {
        Seq::empty()
    } else {
        let done = sections_of(b, p, (n - 1) as nat, rdata);
        let q = p + 40 * (n - 1);
        if is_data(b, q) && is_rdata(b, q) == rdata {
            done.push(RvaSize { rva: le(b, q + 12, 4) as u32, size: le(b, q + 8, 4) as u32 })
        } else {
            done
        }
    }
}

/// The regions of an image that are searched: read-only data first.
pub open spec fn scan_regions(src: Snapshot, base: u64) -> Option<Seq<RvaSize>> {
    match src.read_of(base, 0x1000) {
        None => None,
        Some(head) => match table_of(head) {
            None => None,
            Some((p, n)) => {
                let all = if p + 40 * n > head.len() {
                    src.read_of(base, (p + 40 * n) as nat)
                } else {
                    Some(head)
                };
                match all {
                    None => None,
                    Some(b) => if p + 40 * n > b.len() {
                        None
                    } else {
                        Some(sections_of(b, p, n, true) + sections_of(b, p, n, false))
                    },
                }
            },
        },
    }
}

fn locate_table(head: &[u8]) -> (r: Option<(usize, usize)>)
    requires
        head@.len() <= 0x1000,
    ensures
        match (r, table_of(head@)) {
            (Some((p, n)), Some((q, m))) => p == q && n == m && n <= 0xffff && p <= 0x1_1001,
            (None, None) => true,
            _ => false,
        },
{
    if head.len() < 0x40 || head[0] != 0x4d || head[1] != 0x5a {
        return None;
    }
    let e64: u64 = le32(head, 0x3c) as u64;
    if e64 + 22 > head.len() as u64 {
        return None;
    }
    let e: usize = e64 as usize;
    if head[e] != 0x50 || head[e + 1] != 0x45 || head[e + 2] != 0 || head[e + 3] != 0 {
        return None;
    }
    let n: usize = le16(head, e + 6) as usize;
    let skip: usize = le16(head, e + 20) as usize;
    Some((e + 24 + skip, n))
}

fn named_rdata(b: &[u8], p: usize) -> (r: bool)
    requires
        p + 40 <= b@.len(),
    ensures
        r == is_rdata(b@, p as int),
{
    let _n: usize = b.len();
    b[p] == 0x2e && b[p + 1] == 0x72 && b[p + 2] == 0x64 && b[p + 3] == 0x61 && b[p + 4] == 0x74 && b[p + 5] == 0x61
        && b[p + 6] == 0 && b[p + 7] == 0
}

fn collect_sections(b: &[u8], p: usize, n: usize, rdata: bool, out: &mut Vec<RvaSize>)
    requires
        p + 40 * n <= b@.len(),
        p <= 0x1_1001,
        n <= 0xffff,
    ensures
        final(out)@ == old(out)@ + sections_of(b@, p as int, n as nat, rdata),
{
    let _len: usize = b.len();
    let ghost first = out@;
    let mut k: usize = 0;
    assert(first + Seq::<RvaSize>::empty() =~= first);
    while k < n
        invariant
            k <= n <= 0xffff,
            p <= 0x1_1001,
            p + 40 * n <= b@.len(),
            out@ == first + sections_of(b@, p as int, k as nat, rdata),
        decreases n - k,
    {
        let q: usize = p + 40 * k;
        let flags: u32 = le32(b, q + 36);
        let size: u32 = le32(b, q + 8);
        let rva: u32 = le32(b, q + 12);
        let ghost done = sections_of(b@, p as int, k as nat, rdata);
        if (flags / 0x20) % 2 == 0 && (flags / 0x2000_0000) % 2 == 0 && size != 0 && named_rdata(b, q) == rdata {
            out.push(RvaSize { rva, size });
            assert((first + done).push(RvaSize { rva, size }) =~= first + done.push(RvaSize { rva, size }));
        }
        k = k + 1;
    }
}

/// The regions of an image that are searched for the header: data, and
/// read-only data first.
pub fn pe_scan_regions(src: &Snapshot, base: u64) -> (r: Option<Vec<RvaSize>>)
    ensures
        match (r, scan_regions(*src, base)) {
            (Some(v), Some(w)) => v@ == w,
            (None, None) => true,
            _ => false,
        },
{
    let head = match src.read(Va(base), 0x1000) {
        Ok(h) => h,
        Err(_) => {
            return None;
        },
    };
    let (p, n) = match locate_table(head.as_slice()) {
        Some(x) => x,
        None => {
            return None;
        },
    };
    let end: usize = p + 40 * n;
    let all = if end > head.len() {
        match src.read(Va(base), end) {
            Ok(b) => b,
            Err(_) => {
                return None;
            },
        }
    } else {
        head
    };
    if end > all.len() {
        return None;
    }
    let mut out: Vec<RvaSize> = Vec::new();
    collect_sections(all.as_slice(), p, n, true, &mut out);
    collect_sections(all.as_slice(), p, n, false, &mut out);
    assert(out@ =~= sections_of(all@, p as int, n as nat, true) + sections_of(all@, p as int, n as nat, false));
    Some(out)
}

// ---------------------------------------------------------------------------
// The map for stack traces
// ---------------------------------------------------------------------------

/// An entry of the map: a method and where its names stand in the metadata.
#[derive(Clone, Copy, Debug, PartialEq, Eq, Structural)]
pub struct MapEntry {
    pub rva: u32,
    pub owning_type: Handle,
    pub name_off: u32,
    pub signature_off: u32,
}

/// What one entry hands on to the next.
#[derive(Clone, Copy, Debug, PartialEq, Eq, Structural)]
pub struct MapState {
    pub owning_type: Handle,
    pub name_off: u32,
    pub signature_off: u32,
}

/// The low 32 bits of a number.
pub open spec fn wrap32(v: int) -> u32 {
    (v % 0x1_0000_0000) as u32
}

/// Whether the bit with this weight is set.
pub open spec fn bit(c: u8, w: int) -> bool {
    (c as int / w) % 2 == 1
}

/// The type that owns the method: the one before, or a token at `p`.
pub open spec fn owner_at(b: Seq<u8>, p: int, fresh: bool, prev: Handle) -> Option<(Handle, int)> {
    if !fresh {
        Some((prev, p))
    } else if p + 4 <= b.len() {
        Some((token_handle(le(b, p, 4) as u32), p + 4))
    } else {
        None
    }
}

/// An offset: the one before, or a number at `p`.
pub open spec fn offset_at(b: Seq<u8>, p: int, fresh: bool, prev: u32) -> Option<(u32, int)> {
    if fresh {
        unsigned_at(b, p)
    } else {
        Some((prev, p))
    }
}

/// The entry of the method at `p`, relative to that place.
pub open spec fn target_at(b: Seq<u8>, blob: u32, p: int, st: MapState) -> Option<(MapEntry, int)> {
    if p + 4 <= b.len() {
        Some(
            (
                MapEntry {
                    rva: wrap32(blob + p + signed(le(b, p, 4) as u64)),
                    owning_type: st.owning_type,
                    name_off: st.name_off,
                    signature_off: st.signature_off,
                },
                p + 4,
            ),
        )
    } else {
        None
    }
}

/// The entry at `p`, and the position after it. A command byte says which of
/// the type, the name and the signature differ from the entry before; then
/// comes the method, relative to the place of that number.
pub open spec fn entry_at(b: Seq<u8>, blob: u32, p: int, st: MapState) -> Option<(MapEntry, int)> {
    if p >= b.len() {
        None
    } else {
        let c = b[p];
        match owner_at(b, p + 1, bit(c, 1), st.owning_type) {
            None => None,
            Some((owning_type, p1)) => match offset_at(b, p1, bit(c, 2), st.name_off) {
                None => None,
                Some((name_off, p2)) => match offset_at(b, p2, bit(c, 4) || bit(c, 8), st.signature_off) {
                    None => None,
                    Some((signature_off, p3)) => match offset_at(b, p3, bit(c, 8), 0) {
                        None => None,
                        Some((_, p4)) => target_at(b, blob, p4, MapState { owning_type, name_off, signature_off }),
                    },
                },
            },
        }
    }
}

pub open spec fn state_after(e: MapEntry) -> MapState {
    MapState { owning_type: e.owning_type, name_off: e.name_off, signature_off: e.signature_off }
}

/// The `n` entries from `p` on.
pub open spec fn entries_from(b: Seq<u8>, blob: u32, p: int, st: MapState, n: nat) -> Option<Seq<MapEntry>>
    decreases n,
{
    if n == 0 {
        Some(Seq::empty())
    } else {
        match entry_at(b, blob, p, st) {
            None => None,
            Some((e, q)) => match entries_from(b, blob, q, state_after(e), (n - 1) as nat) {
                Some(rest) => Some(seq![e] + rest),
                None => None,
            },
        }
    }
}

pub open spec fn first_state() -> MapState {
    MapState { owning_type: Handle { ty: HT_NULL, off: 0 }, name_off: 0, signature_off: 0 }
}

/// How many entries the map has: as many as it states, and no more than fit.
pub open spec fn entry_count(b: Seq<u8>) -> nat {
    let n = signed(le(b, 0, 4) as u64);
    if n < 0 {
        0
    } else if n <= b.len() / 5 {
        n as nat
    } else {
        b.len() / 5
    }
}

pub open spec fn truncated() -> Seq<char> {
    "truncated RVA→token blob"@
}

/// The entries of the map, or why there are none.
pub open spec fn map_entries(b: Seq<u8>, blob: u32) -> Result<Seq<MapEntry>, Seq<char>> {
    if b.len() < 4 {
        Err("RVA→token blob too small"@)
    } else {
        match entries_from(b, blob, 4, first_state(), entry_count(b)) {
            Some(s) => Ok(s),
            None => Err(truncated()),
        }
    }
}

fn to_wrap32(v: i64) -> (r: u32)
    requires
        -0x1_0000_0000_0000 <= v <= 0x1_0000_0000_0000,
    ensures
        r == wrap32(v as int),
{
    let up: i64 = v + 0x2_0000_0000_0000;
    proof {
        vstd::arithmetic::div_mod::lemma_mod_multiples_vanish(0x2_0000, v as int, 0x1_0000_0000);
    }
    (up as u64 % 0x1_0000_0000) as u32
}

fn read_owner(b: &[u8], p: usize, fresh: bool, prev: Handle) -> (r: Option<(Handle, usize)>)
    requires
        p <= b@.len(),
    ensures
        match (r, owner_at(b@, p as int, fresh, prev)) {
            (Some((v, q)), Some((w, t))) => v == w && q == t && p <= q <= b@.len(),
            (None, None) => true,
            _ => false,
        },
{
    if !fresh {
        return Some((prev, p));
    }
    if b.len() - p < 4 {
        return None;
    }
    Some((Handle::from_token(le32(b, p)), p + 4))
}

fn read_offset(b: &[u8], p: usize, fresh: bool, prev: u32) -> (r: Option<(u32, usize)>)
    requires
        p <= b@.len(),
    ensures
        match (r, offset_at(b@, p as int, fresh, prev)) {
            (Some((v, q)), Some((w, t))) => v == w && q == t && p <= q <= b@.len(),
            (None, None) => true,
            _ => false,
        },
{
    if fresh {
        decode_unsigned(b, p)
    } else {
        Some((prev, p))
    }
}

fn read_target(b: &[u8], blob: u32, p: usize, st: MapState) -> (r: Option<(MapEntry, usize)>)
    requires
        b@.len() <= MAX_BLOB,
        p <= b@.len(),
    ensures
        match (r, target_at(b@, blob, p as int, st)) {
            (Some((v, q)), Some((w, t))) => v == w && q == t && p <= q <= b@.len(),
            (None, None) => true,
            _ => false,
        },
{
    if b.len() - p < 4 {
        return None;
    }
    let rel: i32 = to_signed(le32(b, p) as u64);
    let rva: u32 = to_wrap32(blob as i64 + p as i64 + rel as i64);
    Some(
        (
            MapEntry {
                rva,
                owning_type: st.owning_type,
                name_off: st.name_off,
                signature_off: st.signature_off,
            },
            p + 4,
        ),
    )
}

#[verifier::spinoff_prover]
#[verifier::rlimit(60)]
fn read_entry(b: &[u8], blob: u32, p: usize, st: MapState) -> (r: Option<(MapEntry, usize)>)
    requires
        b@.len() <= MAX_BLOB,
    ensures
        match (r, entry_at(b@, blob, p as int, st)) {
            (Some((e, q)), Some((f, t))) => e == f && q == t && q <= b@.len() && p < q,
            (None, None) => true,
            _ => false,
        },
{
    if p >= b.len() {
        return None;
    }
    let c: u8 = b[p];
    let (owning_type, p1) = match read_owner(b, p + 1, c % 2 == 1, st.owning_type) {
        Some(x) => x,
        None => {
            return None;
        },
    };
    let (name_off, p2) = match read_offset(b, p1, (c / 2) % 2 == 1, st.name_off) {
        Some(x) => x,
        None => {
            return None;
        },
    };
    let generic = (c / 8) % 2 == 1;
    let (signature_off, p3) = match read_offset(b, p2, (c / 4) % 2 == 1 || generic, st.signature_off) {
        Some(x) => x,
        None => {
            return None;
        },
    };
    let p4: usize = match read_offset(b, p3, generic, 0) {
        Some((_, q)) => q,
        None => {
            return None;
        },
    };
    read_target(b, blob, p4, MapState { owning_type, name_off, signature_off })
}

/// Reads the map for stack traces, which lies at offset `blob_rva`.
pub fn parse_rva_to_token(buf: &[u8], blob_rva: u32) -> (r: Result<Vec<MapEntry>, CoreError>)
    requires
        buf@.len() <= MAX_BLOB,
    ensures
        match (r, map_entries(buf@, blob_rva)) {
            (Ok(v), Ok(w)) => v@ == w,
            (Err(CoreError::Other(s)), Err(t)) => s@ == t,
            _ => false,
        },
{
    if buf.len() < 4 {
        return Err(CoreError::Other(String::from_str("RVA→token blob too small")));
    }
    let declared: i32 = to_signed(le32(buf, 0) as u64);
    let most: usize = buf.len() / 5;
    let count: usize = if declared < 0 {
        0
    } else if declared as u64 <= most as u64 {
        declared as usize
    } else {
        most
    };
    let mut out: Vec<MapEntry> = Vec::new();
    let mut p: usize = 4;
    let mut st = MapState { owning_type: Handle::null(), name_off: 0, signature_off: 0 };
    let ghost all = entries_from(buf@, blob_rva, 4, first_state(), count as nat);
    let mut left: usize = count;
    proof {
        match all {
            Some(w) => {
                assert(out@ + w =~= w);
            },
            None => {},
        }
    }
    while left > 0
        invariant
            buf@.len() <= MAX_BLOB,
            buf@.len() >= 4,
            count == entry_count(buf@),
            all == entries_from(buf@, blob_rva, 4, first_state(), count as nat),
            match (all, entries_from(buf@, blob_rva, p as int, st, left as nat)) {
                (Some(w), Some(rest)) => out@ + rest == w,
                (None, None) => true,
                _ => false,
            },
        decreases left,
    {
        match read_entry(buf, blob_rva, p, st) {
            None => {
                return Err(CoreError::Other(String::from_str("truncated RVA→token blob")));
            },
            Some((e, q)) => {
                proof {
                    let rest = entries_from(buf@, blob_rva, q as int, state_after(e), (left - 1) as nat);
                    match rest {
                        Some(r) => {
                            assert(out@.push(e) + r =~= out@ + (seq![e] + r));
                        },
                        None => {},
                    }
                }
                out.push(e);
                st = MapState { owning_type: e.owning_type, name_off: e.name_off, signature_off: e.signature_off };
                p = q;
            },
        }
        left = left - 1;
    }
    assert(out@ + Seq::<MapEntry>::empty() =~= out@);
    Ok(out)
}

// ---------------------------------------------------------------------------
// Names
// ---------------------------------------------------------------------------

/// The names of the first `k` types, with their namespaces.
pub open spec fn type_texts(b: Seq<u8>, hs: Seq<Handle>) -> Seq<Seq<char>> {
    hs.map_values(|h: Handle| type_text(b, h, true, 0))
}

/// The returned type and the parameters of a signature in words.
pub open spec fn signature_texts(b: Seq<u8>, off: u32) -> (Seq<char>, Seq<char>) {
    match signature_at(b, off) {
        Some((ret, params)) => (
            type_text(b, ret, false, 0),
            "("@ + join(type_texts(b, params), ", "@) + ")"@,
        ),
        None => (Seq::empty(), "("@ + join(Seq::empty(), ", "@) + ")"@),
    }
}

/// A method with this full name and signature.
pub open spec fn symbol_of(
    b: Seq<u8>,
    base: u64,
    rva: u32,
    full: Seq<char>,
    sig: u32,
    source: Seq<char>,
) -> SymbolNode {
    let (return_type, signature) = signature_texts(b, sig);
    SymbolNode {
        rva,
        va: Va((base + rva) as u64),
        name: full,
        signature,
        return_type,
        display: if return_type.len() == 0 {
            full + signature
        } else {
            return_type + " "@ + full + signature
        },
        source,
    }
}

/// A method's name with that of its type, if there is one.
pub open spec fn full_name(ty: Seq<char>, name: Seq<char>) -> Seq<char> {
    if ty.len() == 0 {
        name
    } else {
        ty + "."@ + name
    }
}

fn join_name(ty: String, name: String) -> (r: String)
    ensures
        r@ == full_name(ty@, name@),
{
    if ty.as_str().is_empty() {
        name
    } else {
        ty.concat(".").concat(name.as_str())
    }
}

fn name_types(b: &[u8], hs: &Vec<Handle>) -> (out: Vec<String>)
    ensures
        out@.map_values(|s: String| s@) == type_texts(b@, hs@),
{
    let mut out: Vec<String> = Vec::new();
    let mut i: usize = 0;
    while i < hs.len()
        invariant
            i <= hs@.len(),
            out@.len() == i,
            forall|j: int| 0 <= j < i ==> (#[trigger] out@[j])@ == type_text(b@, hs@[j], true, 0),
        decreases hs@.len() - i,
    {
        out.push(type_name_at(b, hs[i], true, 0));
        i = i + 1;
    }
    assert(out@.map_values(|s: String| s@) =~= type_texts(b@, hs@));
    out
}

fn name_signature(b: &[u8], off: u32) -> (r: (String, String))
    ensures
        (r.0@, r.1@) == signature_texts(b@, off),
{
    match method_signature_types(b, off) {
        Some((ret, params)) => {
            let names = name_types(b, &params);
            let inner = join_texts(&names, ", ");
            (type_name_at(b, ret, false, 0), String::from_str("(").concat(inner.as_str()).concat(")"))
        },
        None => {
            let none: Vec<String> = Vec::new();
            assert(none@.map_values(|s: String| s@) =~= Seq::<Seq<char>>::empty());
            let inner = join_texts(&none, ", ");
            let empty = String::new();
            assert(empty@ =~= Seq::<char>::empty());
            (empty, String::from_str("(").concat(inner.as_str()).concat(")"))
        },
    }
}

fn make_symbol(b: &[u8], base: u64, rva: u32, full: String, sig: u32, source: &'static str) -> (s: AotSymbol)
    requires
        base + u32::MAX <= u64::MAX,
    ensures
        symbol_node(s) == symbol_of(b@, base, rva, full@, sig, source@),
{
    let (return_type, signature) = name_signature(b, sig);
    let display = if return_type.as_str().is_empty() {
        full.clone().concat(signature.as_str())
    } else {
        return_type.clone().concat(" ").concat(full.as_str()).concat(signature.as_str())
    };
    AotSymbol { rva, va: Va(base + rva as u64), name: full, signature, return_type, display, source }
}

/// The method of an entry of the map.
pub open spec fn traced(b: Seq<u8>, base: u64, e: MapEntry) -> SymbolNode {
    symbol_of(
        b,
        base,
        e.rva,
        full_name(type_text(b, e.owning_type, true, 0), name_at(b, e.name_off)),
        e.signature_off,
        "stacktrace"@,
    )
}

fn trace_symbols(b: &[u8], base: u64, entries: &Vec<MapEntry>) -> (out: Vec<AotSymbol>)
    requires
        base + u32::MAX <= u64::MAX,
    ensures
        symbol_nodes(out@) == entries@.map_values(|e: MapEntry| traced(b@, base, e)),
{
    let mut out: Vec<AotSymbol> = Vec::new();
    let mut i: usize = 0;
    while i < entries.len()
        invariant
            base + u32::MAX <= u64::MAX,
            i <= entries@.len(),
            out@.len() == i,
            forall|j: int| 0 <= j < i ==> symbol_node(#[trigger] out@[j]) == traced(b@, base, entries@[j]),
        decreases entries@.len() - i,
    {
        let e = entries[i];
        let name = read_name(b, e.name_off);
        let full = join_name(type_name_at(b, e.owning_type, true, 0), name);
        out.push(make_symbol(b, base, e.rva, full, e.signature_off, "stacktrace"));
        i = i + 1;
    }
    assert(symbol_nodes(out@) =~= entries@.map_values(|e: MapEntry| traced(b@, base, e)));
    out
}

// ---------------------------------------------------------------------------
// The hash table for invocation
// ---------------------------------------------------------------------------

/// The number of `n` bytes at `p`, or zero where it does not fit.
pub open spec fn le_or_zero(b: Seq<u8>, p: int, n: nat) -> int {
    if 0 <= p && p + n <= b.len() {
        le(b, p, n) as int
    } else {
        0
    }
}

/// How many bytes a bound of a bucket has.
pub open spec fn index_size(header: u8) -> nat {
    match header % 4 {
        0 => 1,
        1 => 2,
        _ => 4,
    }
}

/// The offsets of the entries of a bucket from `p` up to `end`. An entry is a
/// byte of its hash and how far it lies from the number that says so.
pub open spec fn bucket_from(b: Seq<u8>, p: int, end: int) -> Seq<usize>
    decreases b.len() - p,
{
    if p < 0 || p >= end || p >= b.len() {
        Seq::empty()
    } else {
        match signed_at(b, p + 1) {
            None => Seq::empty(),
            Some((delta, q)) => {
                let rest = bucket_from(b, q, end);
                let at = p + 1 + delta;
                if 0 <= at < b.len() {
                    seq![at as usize] + rest
                } else {
                    rest
                }
            },
        }
    }
}

/// When no further bucket is read.
pub const MAX_TABLE_ENTRIES: usize = 5_000_000;

/// The offsets of the entries of the first `k` buckets.
pub open spec fn buckets_of(b: Seq<u8>, size: nat, k: nat) -> Seq<usize>
    decreases k,
{
    if k == 0 {
        Seq::empty()
    } else {
        let done = buckets_of(b, size, (k - 1) as nat);
        if done.len() > MAX_TABLE_ENTRIES {
            done
        } else {
            let start = le_or_zero(b, 1 + size * (k - 1), size);
            let end = le_or_zero(b, (1 + size * k) as int, size);
            done + bucket_from(b, 1 + start, 1 + end)
        }
    }
}

/// The offsets of all entries of a hash table. Its first byte says how many
/// buckets there are, and how large their bounds.
pub open spec fn table_entries(b: Seq<u8>) -> Seq<usize> {
    if b.len() == 0 || b[0] / 4 > 28 {
        Seq::empty()
    } else {
        buckets_of(b, index_size(b[0]), vstd::arithmetic::power2::pow2((b[0] / 4) as nat))
    }
}

fn number_or_zero(b: &[u8], p: u64, n: u32) -> (r: u64)
    requires
        n == 1 || n == 2 || n == 4,
        p <= 0x8_0000_0000,
    ensures
        r == le_or_zero(b@, p as int, n as nat),
        r <= u32::MAX,
{
    if p + n as u64 > b.len() as u64 {
        return 0;
    }
    let at: usize = p as usize;
    if n == 1 {
        proof {
            reveal_with_fuel(le, 2);
        }
        b[at] as u64
    } else if n == 2 {
        le16(b, at) as u64
    } else {
        le32(b, at) as u64
    }
}

fn read_bucket(b: &[u8], start: u64, end: u64, out: &mut Vec<usize>)
    requires
        b@.len() <= MAX_BLOB,
        start <= 0x1_0000_0000,
    ensures
        final(out)@ == old(out)@ + bucket_from(b@, start as int, end as int),
{
    let ghost all = old(out)@ + bucket_from(b@, start as int, end as int);
    if start >= b.len() as u64 {
        assert(out@ + Seq::<usize>::empty() =~= out@);
        return ;
    }
    let mut p: usize = start as usize;
    while p < b.len() && (p as u64) < end
        invariant
            b@.len() <= MAX_BLOB,
            p <= b@.len(),
            all == old(out)@ + bucket_from(b@, start as int, end as int),
            out@ + bucket_from(b@, p as int, end as int) == all,
        decreases b@.len() - p,
    {
        let ghost before = out@;
        let ghost here = bucket_from(b@, p as int, end as int);
        match decode_signed(b, p + 1) {
            None => {
                assert(out@ + Seq::<usize>::empty() =~= out@);
                return ;
            },
            Some((delta, q)) => {
                let at: i64 = p as i64 + 1 + delta as i64;
                if at >= 0 && at < b.len() as i64 {
                    out.push(at as usize);
                    proof {
                        let rest = bucket_from(b@, q as int, end as int);
                        assert(before.push(at as usize) + rest =~= before + (seq![at as usize] + rest));
                    }
                }
                p = q;
            },
        }
    }
    assert(out@ + Seq::<usize>::empty() =~= out@);
}

/// Every entry of a hash table, by its offset.
pub fn native_hashtable_entries(b: &[u8]) -> (out: Vec<usize>)
    requires
        b@.len() <= MAX_BLOB,
    ensures
        out@ == table_entries(b@),
{
    let mut out: Vec<usize> = Vec::new();
    assert(out@ =~= Seq::<usize>::empty());
    if b.len() == 0 || b[0] / 4 > 28 {
        return out;
    }
    let size: u32 = match b[0] % 4 {
        0 => 1,
        1 => 2,
        _ => 4,
    };
    let shift: u32 = (b[0] / 4) as u32;
    proof {
        crate::bits::lemma_pow2_values();
        if shift < 32 {
            vstd::arithmetic::power2::lemma_pow2_strictly_increases(shift as nat, 32);
        }
    }
    let count: u64 = crate::bits::two_to(shift) as u64;
    let mut k: u64 = 0;
    while k < count && out.len() <= MAX_TABLE_ENTRIES
        invariant
            b@.len() <= MAX_BLOB,
            size == 1 || size == 2 || size == 4,
            k <= count <= 0x1_0000_0000,
            out@ == buckets_of(b@, size as nat, k as nat),
        decreases count - k,
    {
        let start: u64 = number_or_zero(b, 1 + size as u64 * k, size);
        let end: u64 = number_or_zero(b, 1 + size as u64 * (k + 1), size);
        read_bucket(b, 1 + start, 1 + end, &mut out);
        k = k + 1;
    }
    proof {
        if k < count {
            lemma_buckets_stop(b@, size as nat, k as nat, count as nat);
        }
    }
    out
}

proof fn lemma_buckets_stop(b: Seq<u8>, size: nat, k: nat, n: nat)
    requires
        k <= n,
        buckets_of(b, size, k).len() > MAX_TABLE_ENTRIES,
    ensures
        buckets_of(b, size, n) == buckets_of(b, size, k),
    decreases n,
{
    if k < n {
        lemma_buckets_stop(b, size, k, (n - 1) as nat);
    }
}

// ---------------------------------------------------------------------------
// The types of methods
// ---------------------------------------------------------------------------

/// The type of each method seen, and the types seen.
pub ghost struct IndexNode {
    pub names: Map<u32, Seq<char>>,
    pub seen: Set<u32>,
}

/// Adds the first `k` methods; one that has a type keeps it.
pub open spec fn with_methods(ms: Seq<u32>, k: int, name: Seq<char>, m: Map<u32, Seq<char>>) -> Map<u32, Seq<char>>
    decreases k,
{
    if k <= 0 {
        m
    } else {
        let done = with_methods(ms, k - 1, name, m);
        if done.contains_key(ms[k - 1]) {
            done
        } else {
            done.insert(ms[k - 1], name)
        }
    }
}

/// How deep types nest, and namespaces.
pub const MAX_TYPE_DEPTH: u32 = 64;

pub const MAX_NAMESPACE_DEPTH: u32 = 300;

/// The index after the type at an offset, with those nested in it. A type is
/// entered once.
pub open spec fn walk_type_of(b: Seq<u8>, off: u32, depth: int, st: IndexNode) -> IndexNode
    decreases MAX_TYPE_DEPTH + 2 - depth, 0nat, 0nat,
{
    if off == 0 || depth > MAX_TYPE_DEPTH || st.seen.contains(off) {
        st
    } else {
        let seen = st.seen.insert(off);
        match members_at(b, off) {
            None => IndexNode { names: st.names, seen },
            Some((nested, methods)) => {
                let name = type_text(b, Handle { ty: HT_TYPE_DEFINITION, off }, true, 0);
                let names = with_methods(methods, methods.len() as int, name, st.names);
                walk_types_of(b, nested, nested.len(), depth + 1, IndexNode { names, seen })
            },
        }
    }
}

/// The index after the first `k` types.
pub open spec fn walk_types_of(b: Seq<u8>, list: Seq<u32>, k: nat, depth: int, st: IndexNode) -> IndexNode
    decreases MAX_TYPE_DEPTH + 2 - depth, 1nat, k,
{
    if k == 0 || depth > MAX_TYPE_DEPTH + 1 {
        st
    } else {
        walk_type_of(b, list[k - 1], depth, walk_types_of(b, list, (k - 1) as nat, depth, st))
    }
}

/// The index after the namespace at an offset, with those in it.
pub open spec fn walk_namespace_of(b: Seq<u8>, off: u32, depth: int, st: IndexNode) -> IndexNode
    decreases MAX_NAMESPACE_DEPTH + 2 - depth, 0nat, 0nat,
{
    if off == 0 || depth > MAX_NAMESPACE_DEPTH {
        st
    } else {
        match namespace_at(b, off) {
            None => st,
            Some((types, children)) => walk_namespaces_of(
                b,
                children,
                children.len(),
                depth + 1,
                walk_types_of(b, types, types.len(), 0, st),
            ),
        }
    }
}

/// The index after the first `k` namespaces.
pub open spec fn walk_namespaces_of(b: Seq<u8>, list: Seq<u32>, k: nat, depth: int, st: IndexNode) -> IndexNode
    decreases MAX_NAMESPACE_DEPTH + 2 - depth, 1nat, k,
{
    if k == 0 || depth > MAX_NAMESPACE_DEPTH + 1 {
        st
    } else {
        walk_namespace_of(b, list[k - 1], depth, walk_namespaces_of(b, list, (k - 1) as nat, depth, st))
    }
}

/// The index after the first `k` scopes.
pub open spec fn walk_scopes_of(b: Seq<u8>, scopes: Seq<u32>, k: int) -> IndexNode
    decreases k,
{
    if k <= 0 {
        IndexNode { names: Map::empty(), seen: Set::empty() }
    } else {
        let done = walk_scopes_of(b, scopes, k - 1);
        match root_at(b, scopes[k - 1]) {
            Some(root) => walk_namespace_of(b, root, 0, done),
            None => done,
        }
    }
}

/// The type of each method in the metadata. The scopes stand behind the
/// signature.
pub open spec fn method_types(b: Seq<u8>) -> Map<u32, Seq<char>> {
    match offsets_at(b, 4) {
        Some((scopes, _)) => walk_scopes_of(b, scopes, scopes.len() as int).names,
        None => Map::empty(),
    }
}

/// The type of each method seen, and the types seen.
pub struct TypeIndex {
    pub names: HashMap<u32, String>,
    pub seen: HashSet<u32>,
}

pub open spec fn name_texts(m: Map<u32, String>) -> Map<u32, Seq<char>> {
    Map::new(|k: u32| m.contains_key(k), |k: u32| m[k]@)
}

impl TypeIndex {
    pub open spec fn node(&self) -> IndexNode {
        IndexNode { names: name_texts(self.names@), seen: self.seen@ }
    }

    fn add_methods(&mut self, ms: &Vec<u32>, name: &String)
        ensures
            final(self).seen@ == old(self).seen@,
            name_texts(final(self).names@) == with_methods(
                ms@,
                ms@.len() as int,
                name@,
                name_texts(old(self).names@),
            ),
    {
        let mut k: usize = 0;
        while k < ms.len()
            invariant
                k <= ms@.len(),
                self.seen@ == old(self).seen@,
                name_texts(self.names@) == with_methods(ms@, k as int, name@, name_texts(old(self).names@)),
            decreases ms@.len() - k,
        {
            let m: u32 = ms[k];
            let ghost before = self.names@;
            if !self.names.contains_key(&m) {
                self.names.insert(m, name.clone());
                assert(name_texts(self.names@) =~= name_texts(before).insert(m, name@));
            }
            k = k + 1;
        }
    }

    fn walk_type(&mut self, b: &[u8], off: u32, depth: u32)
        requires
            depth <= MAX_TYPE_DEPTH + 1,
        ensures
            final(self).node() == walk_type_of(b@, off, depth as int, old(self).node()),
        decreases MAX_TYPE_DEPTH + 2 - depth, 0nat, 0nat,
    {
        if off == 0 || depth > MAX_TYPE_DEPTH || self.seen.contains(&off) {
            return ;
        }
        self.seen.insert(off);
        match type_members(b, off) {
            None => {},
            Some((nested, methods)) => {
                let name = type_name_at(b, Handle { ty: HT_TYPE_DEFINITION, off }, true, 0);
                self.add_methods(&methods, &name);
                self.walk_types(b, &nested, depth + 1);
            },
        }
    }

    fn walk_types(&mut self, b: &[u8], list: &Vec<u32>, depth: u32)
        requires
            depth <= MAX_TYPE_DEPTH + 1,
        ensures
            final(self).node() == walk_types_of(b@, list@, list@.len(), depth as int, old(self).node()),
        decreases MAX_TYPE_DEPTH + 2 - depth, 1nat, list@.len(),
    {
        let mut k: usize = 0;
        while k < list.len()
            invariant
                depth <= MAX_TYPE_DEPTH + 1,
                k <= list@.len(),
                self.node() == walk_types_of(b@, list@, k as nat, depth as int, old(self).node()),
            decreases list@.len() - k,
        {
            self.walk_type(b, list[k], depth);
            k = k + 1;
        }
    }

    fn walk_namespace(&mut self, b: &[u8], off: u32, depth: u32)
        requires
            depth <= MAX_NAMESPACE_DEPTH + 1,
        ensures
            final(self).node() == walk_namespace_of(b@, off, depth as int, old(self).node()),
        decreases MAX_NAMESPACE_DEPTH + 2 - depth, 0nat,
    {
        if off == 0 || depth > MAX_NAMESPACE_DEPTH {
            return ;
        }
        match namespace_def_children(b, off) {
            None => {},
            Some((types, children)) => {
                self.walk_types(b, &types, 0);
                let mut k: usize = 0;
                let ghost st = self.node();
                while k < children.len()
                    invariant
                        depth <= MAX_NAMESPACE_DEPTH,
                        k <= children@.len(),
                        self.node() == walk_namespaces_of(b@, children@, k as nat, depth + 1, st),
                    decreases children@.len() - k,
                {
                    self.walk_namespace(b, children[k], depth + 1);
                    k = k + 1;
                }
            },
        }
    }
}

/// The type of each method in the metadata.
pub fn build_method_type_index(b: &[u8]) -> (index: TypeIndex)
    ensures
        index.node().names == method_types(b@),
{
    let mut index = TypeIndex { names: HashMap::new(), seen: HashSet::new() };
    proof {
        assert(name_texts(index.names@) =~= Map::<u32, Seq<char>>::empty());
        assert(index.seen@ =~= Set::<u32>::empty());
    }
    let scopes = match crate::native::read_offsets(b, 4) {
        Some((s, _)) => s,
        None => {
            return index;
        },
    };
    let mut k: usize = 0;
    while k < scopes.len()
        invariant
            k <= scopes@.len(),
            index.node() == walk_scopes_of(b@, scopes@, k as int),
        decreases scopes@.len() - k,
    {
        match scope_root_ns(b, scopes[k]) {
            Some(root) => {
                index.walk_namespace(b, root, 0);
            },
            None => {},
        }
        k = k + 1;
    }
    index
}

// ---------------------------------------------------------------------------
// The map for invocation
// ---------------------------------------------------------------------------

/// What the fixup with this index leads to, relative to its own place.
pub open spec fn fixup_of(fixups: Seq<u8>, rva: u32, idx: u32) -> Option<u32> {
    if 4 * idx + 4 <= fixups.len() {
        Some(wrap32(rva + 4 * idx + signed(le(fixups, 4 * idx, 4) as u64)))
    } else {
        None
    }
}

/// The method and the fixup of the entry at `p` of the map, where it has both.
pub open spec fn invoke_at(b: Seq<u8>, p: int) -> Option<(u32, u32)> {
    match unsigned_at(b, p) {
        None => None,
        Some((flags, p1)) => if (flags / 0x20) % 2 == 0 {
            None
        } else {
            match unsigned_at(b, p1) {
                None => None,
                Some((method, p2)) => match unsigned_at(b, p2) {
                    None => None,
                    Some((_, p3)) => match unsigned_at(b, p3) {
                        None => None,
                        Some((idx, _)) => if (flags / 4) % 2 == 0 {
                            None
                        } else {
                            Some(((method % 0x100_0000) as u32, idx))
                        },
                    },
                },
            }
        },
    }
}

/// The method of the entry at `p`.
pub open spec fn invoked(
    meta: Seq<u8>,
    base: u64,
    invoke: Seq<u8>,
    fixups: Seq<u8>,
    fixups_rva: u32,
    types: Map<u32, Seq<char>>,
    p: int,
) -> Option<SymbolNode> {
    match invoke_at(invoke, p) {
        None => None,
        Some((method, idx)) => if !types.contains_key(method) {
            None
        } else {
            match (fixup_of(fixups, fixups_rva, idx), method_at(meta, method)) {
                (Some(rva), Some((name, sig))) => if name_at(meta, name).len() == 0 {
                    None
                } else {
                    Some(symbol_of(meta, base, rva, full_name(types[method], name_at(meta, name)), sig, "invoke"@))
                },
                _ => None,
            }
        },
    }
}

/// The methods of the first `k` entries.
pub open spec fn all_invoked(
    meta: Seq<u8>,
    base: u64,
    invoke: Seq<u8>,
    fixups: Seq<u8>,
    fixups_rva: u32,
    types: Map<u32, Seq<char>>,
    entries: Seq<usize>,
    k: int,
) -> Seq<SymbolNode>
    decreases k,
{
    if k <= 0 {
        Seq::empty()
    } else {
        let done = all_invoked(meta, base, invoke, fixups, fixups_rva, types, entries, k - 1);
        match invoked(meta, base, invoke, fixups, fixups_rva, types, entries[k - 1] as int) {
            Some(s) => done.push(s),
            None => done,
        }
    }
}

/// The methods of the map for invocation, or why there are none.
pub open spec fn invoke_symbols(
    src: Snapshot,
    base: u64,
    meta: Seq<u8>,
    imap: RvaSize,
    fixups: RvaSize,
) -> Result<Seq<SymbolNode>, Seq<char>> {
    if imap.size > MAX_BLOB || fixups.size > MAX_BLOB {
        Err("InvokeMap/CommonFixups blob size implausible"@)
    } else {
        match bytes_at(src, base, imap.rva, imap.size as nat) {
            None => Err("cannot read InvokeMap blob"@),
            Some(invoke) => match bytes_at(src, base, fixups.rva, fixups.size as nat) {
                None => Err("cannot read CommonFixups blob"@),
                Some(f) => {
                    let entries = table_entries(invoke);
                    Ok(
                        all_invoked(
                            meta,
                            base,
                            invoke,
                            f,
                            fixups.rva,
                            method_types(meta),
                            entries,
                            entries.len() as int,
                        ),
                    )
                },
            },
        }
    }
}

/// What the fixup with this index leads to.
pub fn fixup_rva(fixups: &[u8], rva: u32, idx: u32) -> (r: Option<u32>)
    requires
        fixups@.len() <= MAX_BLOB,
    ensures
        r == fixup_of(fixups@, rva, idx),
{
    let pos: u64 = 4 * (idx as u64);
    if pos + 4 > fixups.len() as u64 {
        return None;
    }
    let rel: i32 = to_signed(le32(fixups, pos as usize) as u64);
    Some(to_wrap32(rva as i64 + pos as i64 + rel as i64))
}

fn read_invoke(b: &[u8], p: usize) -> (r: Option<(u32, u32)>)
    ensures
        r == invoke_at(b@, p as int),
{
    let (flags, p1) = match decode_unsigned(b, p) {
        Some(x) => x,
        None => {
            return None;
        },
    };
    if (flags / 0x20) % 2 == 0 {
        return None;
    }
    let (method, p2) = match decode_unsigned(b, p1) {
        Some(x) => x,
        None => {
            return None;
        },
    };
    let p3: usize = match decode_unsigned(b, p2) {
        Some((_, q)) => q,
        None => {
            return None;
        },
    };
    let idx: u32 = match decode_unsigned(b, p3) {
        Some((v, _)) => v,
        None => {
            return None;
        },
    };
    if (flags / 4) % 2 == 0 {
        return None;
    }
    Some((method % 0x100_0000, idx))
}

pub open spec fn opt_symbol(s: Option<AotSymbol>) -> Option<SymbolNode> {
    match s {
        Some(x) => Some(symbol_node(x)),
        None => None,
    }
}

fn invoke_symbol(
    meta: &[u8],
    base: u64,
    invoke: &[u8],
    fixups: &[u8],
    fixups_rva: u32,
    types: &HashMap<u32, String>,
    p: usize,
) -> (r: Option<AotSymbol>)
    requires
        base + u32::MAX <= u64::MAX,
        fixups@.len() <= MAX_BLOB,
    ensures
        opt_symbol(r) == invoked(meta@, base, invoke@, fixups@, fixups_rva, name_texts(types@), p as int),
{
    let (method, idx) = match read_invoke(invoke, p) {
        Some(x) => x,
        None => {
            return None;
        },
    };
    let ty = match types.get(&method) {
        Some(t) => t.clone(),
        None => {
            return None;
        },
    };
    let rva: u32 = match fixup_rva(fixups, fixups_rva, idx) {
        Some(x) => x,
        None => {
            return None;
        },
    };
    let (name_off, sig) = match method_name_and_sig(meta, method) {
        Some(x) => x,
        None => {
            return None;
        },
    };
    let name = read_name(meta, name_off);
    if name.as_str().is_empty() {
        return None;
    }
    Some(make_symbol(meta, base, rva, join_name(ty, name), sig, "invoke"))
}

/// Reads the map for invocation by reflection.
pub fn parse_invoke_map(src: &Snapshot, base: u64, meta: &[u8], imap: RvaSize, fixups: RvaSize) -> (r: Result<
    Vec<AotSymbol>,
    CoreError,
>)
    requires
        base + u32::MAX <= u64::MAX,
    ensures
        match (r, invoke_symbols(*src, base, meta@, imap, fixups)) {
            (Ok(v), Ok(w)) => symbol_nodes(v@) == w,
            (Err(CoreError::Other(s)), Err(t)) => s@ == t,
            _ => false,
        },
{
    if imap.size > MAX_BLOB || fixups.size > MAX_BLOB {
        return Err(CoreError::Other(String::from_str("InvokeMap/CommonFixups blob size implausible")));
    }
    let invoke = match read_rva(src, base, imap.rva, imap.size as usize) {
        Some(b) => b,
        None => {
            return Err(CoreError::Other(String::from_str("cannot read InvokeMap blob")));
        },
    };
    let f = match read_rva(src, base, fixups.rva, fixups.size as usize) {
        Some(b) => b,
        None => {
            return Err(CoreError::Other(String::from_str("cannot read CommonFixups blob")));
        },
    };
    let index = build_method_type_index(meta);
    let entries = native_hashtable_entries(invoke.as_slice());
    let mut out: Vec<AotSymbol> = Vec::new();
    let mut k: usize = 0;
    let ghost types = name_texts(index.names@);
    assert(symbol_nodes(out@) =~= Seq::<SymbolNode>::empty());
    while k < entries.len()
        invariant
            base + u32::MAX <= u64::MAX,
            f@.len() <= MAX_BLOB,
            types == name_texts(index.names@),
            k <= entries@.len(),
            symbol_nodes(out@) == all_invoked(
                meta@,
                base,
                invoke@,
                f@,
                fixups.rva,
                types,
                entries@,
                k as int,
            ),
        decreases entries@.len() - k,
    {
        let s = invoke_symbol(
            meta,
            base,
            invoke.as_slice(),
            f.as_slice(),
            fixups.rva,
            &index.names,
            entries[k],
        );
        match s {
            Some(x) => {
                let ghost before = symbol_nodes(out@);
                assert(symbol_nodes(out@.push(x)) =~= before.push(symbol_node(x)));
                out.push(x);
            },
            None => {},
        }
        k = k + 1;
    }
    Ok(out)
}

// ---------------------------------------------------------------------------
// All methods
// ---------------------------------------------------------------------------

/// By address; of two at the same address the one for invocation comes first.
pub open spec fn comes_first(a: u32, a_traced: bool, b: u32, b_traced: bool) -> bool {
    a < b || (a == b && (!a_traced || b_traced))
}

impl Ranked for SymbolNode {
    open spec fn at_most(self, other: SymbolNode) -> bool {
        comes_first(self.rva, self.source == "stacktrace"@, other.rva, other.source == "stacktrace"@)
    }

    proof fn rank_laws(a: SymbolNode, b: SymbolNode, c: SymbolNode) {
    }
}

impl Ranked for AotSymbol {
    open spec fn at_most(self, other: AotSymbol) -> bool {
        comes_first(self.rva, self.source@ == "stacktrace"@, other.rva, other.source@ == "stacktrace"@)
    }

    proof fn rank_laws(a: AotSymbol, b: AotSymbol, c: AotSymbol) {
    }
}

impl Sortable for AotSymbol {
    fn not_after(&self, other: &AotSymbol) -> (r: bool) {
        if self.rva == other.rva {
            !same(self.source, "stacktrace") || same(other.source, "stacktrace")
        } else {
            self.rva < other.rva
        }
    }
}

impl Repeats for SymbolNode {
    open spec fn repeats(self, other: SymbolNode) -> bool {
        self.rva == other.rva
    }
}

impl Repeats for AotSymbol {
    open spec fn repeats(self, other: AotSymbol) -> bool {
        self.rva == other.rva
    }
}

impl Comparable for AotSymbol {
    fn is_repeat(&self, other: &AotSymbol) -> (r: bool) {
        self.rva == other.rva
    }
}

/// The methods by address, one for each.
pub open spec fn one_each(s: Seq<SymbolNode>) -> Seq<SymbolNode> {
    firsts(stable(s), s.len() as int)
}

/// The section with this id, from index `k` on.
pub open spec fn blob_from(rows: Seq<ModuleInfoRow>, id: u32, k: int) -> Option<RvaSize>
    decreases rows.len() - k,
{
    if k < 0 || k >= rows.len() {
        None
    } else if rows[k].section_id == READONLY_BLOB_REGION_START + id {
        Some(RvaSize { rva: rows[k].start_rva, size: rows[k].size })
    } else {
        blob_from(rows, id, k + 1)
    }
}

/// What the metadata of an image says, by contents.
pub ghost struct AotNode {
    pub header_rva: u32,
    pub version: Seq<char>,
    pub embedded_metadata: RvaSize,
    pub rva_to_token: RvaSize,
    pub method_count: nat,
    pub stacktrace_count: nat,
    pub invoke_count: nat,
    pub symbols: Seq<SymbolNode>,
}

pub open spec fn aot_node(a: AotArtifact) -> AotNode {
    AotNode {
        header_rva: a.header_rva,
        version: a.version@,
        embedded_metadata: a.embedded_metadata,
        rva_to_token: a.rva_to_token,
        method_count: a.method_count as nat,
        stacktrace_count: a.stacktrace_count as nat,
        invoke_count: a.invoke_count as nat,
        symbols: symbol_nodes(a.symbols@),
    }
}

/// The methods for invocation, none where there is no such map or it cannot be
/// read.
pub open spec fn optional_invoked(src: Snapshot, base: u64, meta: Seq<u8>, rows: Seq<ModuleInfoRow>) -> Seq<SymbolNode> {
    match (blob_from(rows, BLOB_INVOKE_MAP, 0), blob_from(rows, BLOB_COMMON_FIXUPS, 0)) {
        (Some(imap), Some(fixups)) => match invoke_symbols(src, base, meta, imap, fixups) {
            Ok(s) => s,
            Err(_) => Seq::empty(),
        },
        _ => Seq::empty(),
    }
}

/// What two blobs of metadata say.
pub open spec fn artifact_of(
    src: Snapshot,
    base: u64,
    h: HeaderAt,
    embedded: RvaSize,
    map: RvaSize,
    meta: Seq<u8>,
    entries: Seq<MapEntry>,
) -> AotNode {
    let first = entries.map_values(|e: MapEntry| traced(meta, base, e));
    let more = optional_invoked(src, base, meta, h.rows);
    let symbols = one_each(first + more);
    AotNode {
        header_rva: h.rva,
        version: h.version,
        embedded_metadata: embedded,
        rva_to_token: map,
        method_count: symbols.len(),
        stacktrace_count: first.len(),
        invoke_count: more.len(),
        symbols,
    }
}

/// What the metadata of an image says, or why nothing can be read from it.
pub open spec fn aot_of(src: Snapshot, base: u64) -> Result<AotNode, Seq<char>> {
    match scan_regions(src, base) {
        None => Err("not a PE image at the given base"@),
        Some(regions) => match regions_header(src, base, regions, 0) {
            None => Err("no NativeAOT ReadyToRunHeader found"@),
            Some(h) => match blob_from(h.rows, BLOB_EMBEDDED_METADATA, 0) {
                None => Err("NativeAOT image has no EmbeddedMetadata blob"@),
                Some(embedded) => match blob_from(h.rows, BLOB_STACKTRACE_RVA_TO_TOKEN, 0) {
                    None => Err(
                        "NativeAOT image has no stack-trace RVA→token blob (built without stack-trace metadata?)"@,
                    ),
                    Some(map) => blobs_of(src, base, h, embedded, map),
                },
            },
        },
    }
}

/// What the metadata says, once its blobs are located.
pub open spec fn blobs_of(
    src: Snapshot,
    base: u64,
    h: HeaderAt,
    embedded: RvaSize,
    map: RvaSize,
) -> Result<AotNode, Seq<char>> {
    if embedded.size > MAX_BLOB || map.size > MAX_BLOB {
        Err("NativeAOT metadata blob size implausible"@)
    } else {
        match bytes_at(src, base, embedded.rva, embedded.size as nat) {
            None => Err("cannot read EmbeddedMetadata blob"@),
            Some(meta) => match bytes_at(src, base, map.rva, map.size as nat) {
                None => Err("cannot read RVA→token blob"@),
                Some(m) => if meta.len() < 4 || le(meta, 0, 4) != METADATA_SIGNATURE {
                    Err("EmbeddedMetadata signature mismatch"@)
                } else {
                    match map_entries(m, map.rva) {
                        Err(e) => Err(e),
                        Ok(entries) => Ok(artifact_of(src, base, h, embedded, map, meta, entries)),
                    }
                },
            },
        }
    }
}

fn find_blob(rows: &Vec<ModuleInfoRow>, id: u32) -> (r: Option<RvaSize>)
    requires
        id < 100,
    ensures
        r == blob_from(rows@, id, 0),
{
    let mut k: usize = 0;
    while k < rows.len()
        invariant
            id < 100,
            k <= rows@.len(),
            blob_from(rows@, id, 0) == blob_from(rows@, id, k as int),
        decreases rows@.len() - k,
    {
        if rows[k].section_id == READONLY_BLOB_REGION_START + id {
            return Some(RvaSize { rva: rows[k].start_rva, size: rows[k].size });
        }
        k = k + 1;
    }
    None
}

fn fail<T>(s: &str) -> (r: Result<T, CoreError>)
    ensures
        r matches Err(CoreError::Other(t)) && t@ == s@,
{
    Err(CoreError::Other(String::from_str(s)))
}

fn read_invoked(src: &Snapshot, base: u64, meta: &[u8], rows: &Vec<ModuleInfoRow>) -> (v: Vec<AotSymbol>)
    requires
        base + u32::MAX <= u64::MAX,
    ensures
        symbol_nodes(v@) == optional_invoked(*src, base, meta@, rows@),
{
    let none: Vec<AotSymbol> = Vec::new();
    assert(symbol_nodes(none@) =~= Seq::<SymbolNode>::empty());
    match (find_blob(rows, BLOB_INVOKE_MAP), find_blob(rows, BLOB_COMMON_FIXUPS)) {
        (Some(imap), Some(fixups)) => match parse_invoke_map(src, base, meta, imap, fixups) {
            Ok(v) => v,
            Err(_) => none,
        },
        _ => none,
    }
}

fn parse_blobs(src: &Snapshot, base: u64, h: Header, embedded: RvaSize, map: RvaSize) -> (r: Result<
    AotArtifact,
    CoreError,
>)
    requires
        base + u32::MAX <= u64::MAX,
    ensures
        match (
            r,
            blobs_of(
                *src,
                base,
                HeaderAt { rva: h.rva, version: h.version@, rows: h.rows@ },
                embedded,
                map,
            ),
        ) {
            (Ok(a), Ok(n)) => aot_node(a) == n,
            (Err(CoreError::Other(s)), Err(t)) => s@ == t,
            _ => false,
        },
{
    if embedded.size > MAX_BLOB || map.size > MAX_BLOB {
        return fail("NativeAOT metadata blob size implausible");
    }
    let meta = match read_rva(src, base, embedded.rva, embedded.size as usize) {
        Some(b) => b,
        None => {
            return fail("cannot read EmbeddedMetadata blob");
        },
    };
    let m = match read_rva(src, base, map.rva, map.size as usize) {
        Some(b) => b,
        None => {
            return fail("cannot read RVA→token blob");
        },
    };
    if meta.len() < 4 || le32(meta.as_slice(), 0) != METADATA_SIGNATURE {
        return fail("EmbeddedMetadata signature mismatch");
    }
    let entries = match parse_rva_to_token(m.as_slice(), map.rva) {
        Ok(e) => e,
        Err(e) => {
            return Err(e);
        },
    };
    let mut symbols = trace_symbols(meta.as_slice(), base, &entries);
    let ghost first = symbol_nodes(symbols@);
    let stacktrace_count: usize = symbols.len();
    let mut more = read_invoked(src, base, meta.as_slice(), &h.rows);
    let ghost second = symbol_nodes(more@);
    let invoke_count: usize = more.len();
    symbols.append(&mut more);
    proof {
        assert(symbol_nodes(symbols@) =~= first + second);
        crate::order::lemma_stable_map(symbols@, |x: AotSymbol| symbol_node(x));
        crate::order::sorting_permutes(symbols@);
    }
    let sorted = sort_stable(symbols);
    proof {
        lemma_firsts_map(sorted@, sorted@.len() as int, |x: AotSymbol| symbol_node(x));
    }
    let kept = keep_firsts(sorted);
    let method_count: usize = kept.len();
    proof {
        assert(symbol_nodes(kept@).len() == kept@.len());
        assert(first.len() == stacktrace_count);
        assert(second.len() == invoke_count);
    }
    Ok(
        AotArtifact {
            header_rva: h.rva,
            version: h.version,
            embedded_metadata: embedded,
            rva_to_token: map,
            method_count,
            stacktrace_count,
            invoke_count,
            symbols: kept,
        },
    )
}

/// Reads the names of the methods of the image at `image_base`.
pub fn parse_aot(src: &Snapshot, image_base: Va) -> (r: Result<AotArtifact, CoreError>)
    requires
        image_base.0 + u32::MAX <= u64::MAX,
    ensures
        match (r, aot_of(*src, image_base.0)) {
            (Ok(a), Ok(n)) => aot_node(a) == n,
            (Err(CoreError::Other(s)), Err(t)) => s@ == t,
            _ => false,
        },
{
    let base: u64 = image_base.0;
    let regions = match pe_scan_regions(src, base) {
        Some(v) => v,
        None => {
            return fail("not a PE image at the given base");
        },
    };
    let h = match find_header(src, base, &regions) {
        Some(h) => h,
        None => {
            return fail("no NativeAOT ReadyToRunHeader found");
        },
    };
    let embedded = match find_blob(&h.rows, BLOB_EMBEDDED_METADATA) {
        Some(x) => x,
        None => {
            return fail("NativeAOT image has no EmbeddedMetadata blob");
        },
    };
    let map = match find_blob(&h.rows, BLOB_STACKTRACE_RVA_TO_TOKEN) {
        Some(x) => x,
        None => {
            return fail(
                "NativeAOT image has no stack-trace RVA→token blob (built without stack-trace metadata?)",
            );
        },
    };
    parse_blobs(src, base, h, embedded, map)
}

// ---------------------------------------------------------------------------
// Laws
// ---------------------------------------------------------------------------

proof fn lemma_firsts(s: Seq<SymbolNode>, k: int)
    requires
        0 <= k <= s.len(),
        forall|i: int, j: int| 0 <= i < j < s.len() ==> (#[trigger] s[i]).rva <= (#[trigger] s[j]).rva,
    ensures
        forall|i: int, j: int|
            0 <= i < j < firsts(s, k).len() ==> (#[trigger] firsts(s, k)[i]).rva < (#[trigger] firsts(s, k)[j]).rva,
        forall|i: int| 0 <= i < firsts(s, k).len() ==> (#[trigger] firsts(s, k)[i]).rva <= s[k - 1].rva,
        firsts(s, k).len() <= k,
        k > 0 ==> firsts(s, k).len() > 0 && firsts(s, k).last().rva == s[k - 1].rva,
    decreases k,
{
    if k > 0 {
        lemma_firsts(s, k - 1);
        let done = firsts(s, k - 1);
        let now = firsts(s, k);
        if k > 1 {
            assert(s[k - 2].rva <= s[k - 1].rva);
        }
        assert forall|i: int, j: int| 0 <= i < j < now.len() implies (#[trigger] now[i]).rva < (#[trigger] now[j]).rva by {
            if j < done.len() {
                assert(done[i].rva < done[j].rva);
            } else {
                assert(done[i].rva <= s[k - 2].rva);
            }
        }
        assert forall|i: int| 0 <= i < now.len() implies (#[trigger] now[i]).rva <= s[k - 1].rva by {
            if i < done.len() {
                assert(done[i].rva <= s[k - 2].rva);
            }
        }
    }
}

/// The methods come out in the order of their addresses, one for each.
pub proof fn methods_come_out_by_address(s: Seq<SymbolNode>)
    ensures
        forall|i: int, j: int|
            0 <= i < j < one_each(s).len() ==> (#[trigger] one_each(s)[i]).rva < (#[trigger] one_each(s)[j]).rva,
{
    crate::order::sorting_permutes(s);
    let t = stable(s);
    assert forall|i: int, j: int| 0 <= i < j < t.len() implies (#[trigger] t[i]).rva <= (#[trigger] t[j]).rva by {
        assert(t[i].at_most(t[j]));
    }
    lemma_firsts(t, t.len() as int);
}

// ---------------------------------------------------------------------------
// What the tables mean
// ---------------------------------------------------------------------------

/// A row of the section table is an id, flags, a start and an end; the section starts
/// that far behind the image's base, and has a size if its flags say that the end counts.
pub proof fn rows_describe_sections(b: Seq<u8>, base: u64, k: int)
    requires
        0 <= k,
        base <= le(b, 16 + 24 * k + 8, 8),
        le(b, 16 + 24 * k + 8, 8) - base <= u32::MAX,
        le(b, 16 + 24 * k + 16, 8) - base < 0x4000_0000,
        le(b, 16 + 24 * k + 16, 8) >= le(b, 16 + 24 * k + 8, 8),
    ensures
        ({
            let r = row_of(b, base, k);
            let p = 16 + 24 * k;
            &&& r.section_id == le(b, p, 4)
            &&& r.start_rva == le(b, p + 8, 8) - base
            &&& le(b, p + 4, 4) == 1 ==> r.size == le(b, p + 16, 8) - le(b, p + 8, 8)
            &&& le(b, p + 4, 4) != 1 ==> r.size == 0
        }),
{
    crate::bytes::lemma_le_bound(b, 16 + 24 * k, 4);
    assert(vstd::arithmetic::power::pow(256, 4) == 0x1_0000_0000) by {
        reveal_with_fuel(vstd::arithmetic::power::pow, 6);
    }
}

/// A blob is found in the first section that has its id, counted from the first id of
/// blobs.
pub proof fn blobs_are_found_by_their_id(rows: Seq<ModuleInfoRow>, id: u32, i: int)
    requires
        0 <= i < rows.len(),
        id <= 1000,
        rows[i].section_id == 300 + id,
        forall|j: int| 0 <= j < i ==> (#[trigger] rows[j]).section_id != 300 + id,
    ensures
        blob_from(rows, id, 0) == Some(RvaSize { rva: rows[i].start_rva, size: rows[i].size }),
{
    lemma_blob_found(rows, id, i, 0);
}

proof fn lemma_blob_found(rows: Seq<ModuleInfoRow>, id: u32, i: int, k: int)
    requires
        0 <= k <= i < rows.len(),
        id <= 1000,
        rows[i].section_id == 300 + id,
        forall|j: int| k <= j < i ==> (#[trigger] rows[j]).section_id != 300 + id,
    ensures
        blob_from(rows, id, k) == Some(RvaSize { rva: rows[i].start_rva, size: rows[i].size }),
    decreases i - k,
{
    if k < i {
        lemma_blob_found(rows, id, i, k + 1);
    }
}

/// An entry of the map that changes nothing has the type, the name and the signature of
/// the one before; its method lies where the number says, counted from its own place.
pub proof fn unchanged_entries_repeat_the_one_before(b: Seq<u8>, blob: u32, p: int, st: MapState)
    requires
        0 <= p,
        p + 5 <= b.len(),
        b[p] % 16 == 0,
    ensures
        ({
            let raw = le(b, p + 1, 4) as int;
            let far = if raw < 0x8000_0000 {
                raw
            } else {
                raw - 0x1_0000_0000
            };
            entry_at(b, blob, p, st) == Some(
                (
                    MapEntry {
                        rva: ((blob + p + 1 + far) % 0x1_0000_0000) as u32,
                        owning_type: st.owning_type,
                        name_off: st.name_off,
                        signature_off: st.signature_off,
                    },
                    p + 5,
                ),
            )
        }),
{
    crate::bytes::lemma_le_bound(b, p + 1, 4);
    assert(vstd::arithmetic::power::pow(256, 4) == 0x1_0000_0000) by {
        reveal_with_fuel(vstd::arithmetic::power::pow, 6);
    }
    let c = b[p] as int;
    assert(c % 2 == 0 && (c / 2) % 2 == 0 && (c / 4) % 2 == 0 && (c / 8) % 2 == 0);
}

/// The first bit of the command gives the entry a type of its own, the second a name, and
/// the third a signature, in that order; each is kept for the entries behind.
pub proof fn commands_say_what_changes(b: Seq<u8>, blob: u32, p: int, st: MapState, e: MapEntry, q: int)
    requires
        0 <= p < b.len(),
        b[p] % 16 < 8,
        entry_at(b, blob, p, st) == Some((e, q)),
    ensures
        b[p] % 2 == 1 ==> e.owning_type.ty == b[p + 4] && e.owning_type.off == b[p + 1] + 0x100 * b[p + 2] + 0x1_0000 * b[p
            + 3],
        b[p] % 2 == 0 ==> e.owning_type == st.owning_type,
        (b[p] / 2) % 2 == 0 ==> e.name_off == st.name_off,
        (b[p] / 4) % 2 == 0 ==> e.signature_off == st.signature_off,
        b[p] % 8 == 2 ==> (unsigned_at(b, p + 1) matches Some((n, _)) && e.name_off == n),
        b[p] % 8 == 4 ==> (unsigned_at(b, p + 1) matches Some((n, _)) && e.signature_off == n),
        b[p] % 8 == 6 ==> (unsigned_at(b, p + 1) matches Some((n, r)) && e.name_off == n && (unsigned_at(b, r) matches Some(
            (s, _),
        ) && e.signature_off == s)),
        state_after(e).owning_type == e.owning_type,
        state_after(e).name_off == e.name_off,
        state_after(e).signature_off == e.signature_off,
{
    let c = b[p];
    lemma_commands(c);
    if c % 2 == 1 {
        lemma_token_at(b, p + 1);
    }
}

proof fn lemma_commands(c: u8)
    requires
        c % 16 < 8,
    ensures
        bit(c, 1) == (c % 2 == 1),
        bit(c, 2) == ((c / 2) % 2 == 1),
        bit(c, 4) == ((c / 4) % 2 == 1),
        !bit(c, 8),
        c % 8 == 2 ==> !bit(c, 1) && bit(c, 2) && !bit(c, 4),
        c % 8 == 4 ==> !bit(c, 1) && !bit(c, 2) && bit(c, 4),
        c % 8 == 6 ==> !bit(c, 1) && bit(c, 2) && bit(c, 4),
{
}

proof fn lemma_token_at(b: Seq<u8>, p: int)
    ensures
        token_handle(le(b, p, 4) as u32).ty == b[p + 3],
        token_handle(le(b, p, 4) as u32).off == b[p] + 0x100 * b[p + 1] + 0x1_0000 * b[p + 2],
{
    crate::bytes::the_lowest_byte_comes_first(b, p);
    let off = (b[p] + 0x100 * b[p + 1] + 0x1_0000 * b[p + 2]) as u32;
    crate::native::handles_have_a_type_and_a_place(b[p + 3], off);
}

/// Entries stand one behind the other, and each is read in the state that the one before
/// leaves.
pub proof fn entries_follow_each_other(b: Seq<u8>, blob: u32, p: int, st: MapState, n: nat)
    requires
        n > 0,
        entries_from(b, blob, p, st, n) is Some,
    ensures
        entry_at(b, blob, p, st) matches Some((e, q)) && (entries_from(b, blob, p, st, n)->0)[0] == e && entries_from(
            b,
            blob,
            q,
            state_after(e),
            (n - 1) as nat,
        ) == Some((entries_from(b, blob, p, st, n)->0).skip(1)),
{
    match entry_at(b, blob, p, st) {
        Some((e, q)) => match entries_from(b, blob, q, state_after(e), (n - 1) as nat) {
            Some(rest) => {
                assert((seq![e] + rest).skip(1) =~= rest);
            },
            None => {},
        },
        None => {},
    }
}

/// A method is called by its type, a dot and its own name; one without a type by its own.
pub proof fn methods_are_called_by_their_type(ty: Seq<char>, name: Seq<char>)
    ensures
        ty.len() > 0 ==> full_name(ty, name) == ty + seq!['.'] + name,
        ty.len() == 0 ==> full_name(ty, name) == name,
{
    reveal_strlit(".");
    assert("."@ =~= seq!['.']);
}

/// A method is shown with what it returns, its full name and what it takes; it lies at
/// its distance from the image's base.
pub proof fn methods_are_shown_with_their_signature(
    b: Seq<u8>,
    base: u64,
    rva: u32,
    full: Seq<char>,
    sig: u32,
    source: Seq<char>,
)
    requires
        base + rva <= u64::MAX,
    ensures
        ({
            let s = symbol_of(b, base, rva, full, sig, source);
            &&& s.rva == rva
            &&& s.va.0 == base + rva
            &&& s.name == full
            &&& s.source == source
            &&& s.return_type.len() > 0 ==> s.display == s.return_type + seq![' '] + full + s.signature
            &&& s.return_type.len() == 0 ==> s.display == full + s.signature
            &&& signature_at(b, sig) matches Some((ret, params)) ==> s.return_type == type_text(b, ret, false, 0) && (
            params.len() == 0 ==> s.signature == seq!['('] + Seq::<char>::empty() + seq![')']) && (params.len() == 1
                ==> s.signature == seq!['('] + type_text(b, params[0], true, 0) + seq![')']) && (params.len() == 2
                ==> s.signature == seq!['('] + (type_text(b, params[0], true, 0) + ", "@ + type_text(b, params[1], true, 0))
                + seq![')'])
        }),
{
    reveal_strlit(" ");
    reveal_strlit("(");
    reveal_strlit(")");
    assert(" "@ =~= seq![' ']);
    assert("("@ =~= seq!['(']);
    assert(")"@ =~= seq![')']);
    match signature_at(b, sig) {
        Some((ret, params)) => {
            if params.len() == 0 {
                assert(type_texts(b, params) =~= Seq::<Seq<char>>::empty());
            }
            if params.len() == 1 {
                assert(type_texts(b, params) =~= seq![type_text(b, params[0], true, 0)]);
            }
            if params.len() == 2 {
                let x = type_text(b, params[0], true, 0);
                let y = type_text(b, params[1], true, 0);
                assert(type_texts(b, params) =~= seq![x].push(y));
                crate::text::texts_are_joined_with_the_separator_between(seq![x], y, ", "@);
                crate::text::texts_are_joined_with_the_separator_between(seq![x], x, ", "@);
            }
        },
        None => {},
    }
}

/// A fixup leads as far from its own place as it says.
pub proof fn fixups_lead_from_their_own_place(fixups: Seq<u8>, rva: u32, idx: u32)
    ensures
        4 * idx + 4 > fixups.len() ==> fixup_of(fixups, rva, idx) is None,
        4 * idx + 4 <= fixups.len() ==> {
            let raw = le(fixups, 4 * idx, 4) as int;
            let far = if raw < 0x8000_0000 {
                raw
            } else {
                raw - 0x1_0000_0000
            };
            fixup_of(fixups, rva, idx) == Some(((rva + 4 * idx + far) % 0x1_0000_0000) as u32)
        },
{
    crate::bytes::lemma_le_bound(fixups, 4 * idx, 4);
    assert(vstd::arithmetic::power::pow(256, 4) == 0x1_0000_0000) by {
        reveal_with_fuel(vstd::arithmetic::power::pow, 6);
    }
}

/// An entry for invocation has flags, a method, a type and the index of a fixup; it
/// counts only where it has both a method and a fixup.
pub proof fn invocations_have_a_method_and_a_fixup(b: Seq<u8>, p: int, s: Seq<u32>, q: int)
    requires
        s.len() == 4,
        crate::native::numbers_stand(b, p, s, q),
    ensures
        (s[0] / 0x20) % 2 == 1 && (s[0] / 4) % 2 == 1 ==> invoke_at(b, p) == Some(((s[1] % 0x100_0000) as u32, s[3])),
        (s[0] / 0x20) % 2 == 0 || (s[0] / 4) % 2 == 0 ==> invoke_at(b, p) is None,
{
    reveal_with_fuel(crate::native::numbers_stand, 5);
}

/// A method is known under the first type that lists it.
pub proof fn methods_keep_their_first_type(ms: Seq<u32>, k: int, name: Seq<char>, m: Map<u32, Seq<char>>, x: u32)
    requires
        0 <= k <= ms.len(),
    ensures
        m.contains_key(x) ==> with_methods(ms, k, name, m).contains_key(x) && with_methods(ms, k, name, m)[x] == m[x],
        !m.contains_key(x) && ms.take(k).contains(x) ==> with_methods(ms, k, name, m).contains_key(x) && with_methods(
            ms,
            k,
            name,
            m,
        )[x] == name,
        !m.contains_key(x) && !ms.take(k).contains(x) ==> !with_methods(ms, k, name, m).contains_key(x),
    decreases k,
{
    if k > 0 {
        methods_keep_their_first_type(ms, k - 1, name, m, x);
        let before = ms.take(k - 1);
        let now = ms.take(k);
        assert(now =~= before.push(ms[k - 1]));
        if before.contains(x) {
            let i = choose|i: int| 0 <= i < before.len() && before[i] == x;
            assert(now[i] == x);
        }
        if ms[k - 1] == x {
            assert(now[k - 1] == x);
        }
        if now.contains(x) && ms[k - 1] != x {
            let i = choose|i: int| 0 <= i < now.len() && now[i] == x;
            assert(before[i] == x);
        }
    } else {
        assert(!ms.take(0).contains(x));
    }
}

/// Methods come out by their address; at one address the one for invocation comes before
/// the one from a trace.
pub proof fn invocations_come_before_traces(a: SymbolNode, b: SymbolNode)
    ensures
        a.rva < b.rva ==> a.at_most(b) && !b.at_most(a),
        a.rva == b.rva && a.source != "stacktrace"@ && b.source == "stacktrace"@ ==> a.at_most(b) && !b.at_most(a),
        a.repeats(b) <==> a.rva == b.rva,
{
}

/// A header begins with its magic number, and its version and its sections are those
/// that it states.
pub proof fn headers_state_version_and_sections(b: Seq<u8>, base: u64)
    ensures
        header_of(b, base) matches Some((version, rows)) ==> {
            &&& b[0] == 'R' as u8 && b[1] == 'T' as u8 && b[2] == 'R' as u8 && b[3] == 0
            &&& version == dec(le(b, 4, 2)) + seq!['.'] + dec(le(b, 6, 2))
            &&& rows.len() == le(b, 12, 2)
            &&& forall|k: int| 0 <= k < rows.len() ==> (#[trigger] rows[k]) == row_of(b, base, k)
        },
{
    reveal_strlit(".");
    assert("."@ =~= seq!['.']);
}

/// An image has its section table behind its headers, whose place and length it states;
/// anything else is no image.
pub proof fn images_state_where_their_sections_are(head: Seq<u8>, e: int)
    requires
        head.len() >= 0x40,
        le(head, 0x3c, 4) == e,
        0 <= e,
        e + 22 <= head.len(),
    ensures
        head[0] == 'M' as u8 && head[1] == 'Z' as u8 && head[e] == 'P' as u8 && head[e + 1] == 'E' as u8 && head[e + 2] == 0
            && head[e + 3] == 0 ==> table_of(head) == Some((e + 24 + le(head, e + 20, 2), le(head, e + 6, 2))),
        head[0] != 'M' as u8 || head[1] != 'Z' as u8 || head[e] != 'P' as u8 || head[e + 1] != 'E' as u8 ==> table_of(head) is
            None,
{
}

/// Sections of code and empty ones are not searched; others are, those called `.rdata`
/// before the rest, each from its place on and as far as it goes.
pub proof fn data_sections_are_searched(b: Seq<u8>, p: int, n: nat, rdata: bool)
    ensures
        ({
            let q = (p + 40 * n) as int;
            let flags = le(b, q + 36, 4);
            let code = (flags / 0x20) % 2 == 1 || (flags / 0x2000_0000) % 2 == 1;
            let taken = !code && le(b, q + 8, 4) != 0 && is_rdata(b, q) == rdata;
            let done = sections_of(b, p, n, rdata);
            let now = sections_of(b, p, n + 1, rdata);
            &&& taken ==> now == done.push(RvaSize { rva: le(b, q + 12, 4) as u32, size: le(b, q + 8, 4) as u32 })
            &&& !taken ==> now == done
            &&& sections_of(b, p, 0, rdata).len() == 0
        }),
{
}

/// The first header in a window is the first one at a multiple of four.
pub proof fn the_first_header_is_taken(src: Snapshot, base: u64, b: Seq<u8>, rva: int, i: int)
    requires
        0 <= i,
        i + 4 <= b.len(),
    ensures
        magic_at(b, i) && header_at(src, base, rva + i) is Some ==> window_header(src, base, b, rva, i) == header_at(
            src,
            base,
            rva + i,
        ),
        !magic_at(b, i) || header_at(src, base, rva + i) is None ==> window_header(src, base, b, rva, i) == window_header(
            src,
            base,
            b,
            rva,
            i + 4,
        ),
{
}

/// A map states how many entries it has; it has none where that is negative, and no more
/// than its bytes can hold.
pub proof fn maps_state_their_entries(b: Seq<u8>)
    requires
        b.len() >= 4,
    ensures
        le(b, 0, 4) >= 0x8000_0000 ==> entry_count(b) == 0,
        le(b, 0, 4) <= b.len() / 5 && le(b, 0, 4) < 0x8000_0000 ==> entry_count(b) == le(b, 0, 4),
        entry_count(b) <= b.len() / 5,
{
    crate::bytes::lemma_le_bound(b, 0, 4);
    assert(vstd::arithmetic::power::pow(256, 4) == 0x1_0000_0000) by {
        reveal(vstd::arithmetic::power::pow);
        reveal_with_fuel(vstd::arithmetic::power::pow, 6);
    }
}

/// A method of the map is called by the type that owns it and its own name, and comes
/// from a trace.
pub proof fn traced_methods_are_named(b: Seq<u8>, base: u64, e: MapEntry)
    requires
        base + e.rva <= u64::MAX,
    ensures
        ({
            let s = traced(b, base, e);
            let ty = type_text(b, e.owning_type, true, 0);
            &&& s.rva == e.rva && s.va.0 == base + e.rva && s.source == "stacktrace"@
            &&& ty.len() > 0 ==> s.name == ty + seq!['.'] + name_at(b, e.name_off)
            &&& ty.len() == 0 ==> s.name == name_at(b, e.name_off)
        }),
{
    methods_are_called_by_their_type(type_text(b, e.owning_type, true, 0), name_at(b, e.name_off));
}

/// A type is entered once: its methods are named after it, and the types nested in it
/// follow.
pub proof fn types_name_their_methods(b: Seq<u8>, off: u32, depth: int, st: IndexNode, nested: Seq<u32>, methods: Seq<u32>, x: u32)
    requires
        off != 0,
        depth <= MAX_TYPE_DEPTH,
        !st.seen.contains(off),
        members_at(b, off) == Some((nested, methods)),
        nested.len() == 0,
    ensures
        ({
            let r = walk_type_of(b, off, depth, st);
            &&& r.seen == st.seen.insert(off)
            &&& methods.contains(x) && !st.names.contains_key(x) ==> r.names.contains_key(x) && r.names[x] == type_text(
                b,
                Handle { ty: 0x3a, off },
                true,
                0,
            )
            &&& st.names.contains_key(x) ==> r.names.contains_key(x) && r.names[x] == st.names[x]
            &&& walk_type_of(b, off, depth, r) == r
        }),
{
    let name = type_text(b, Handle { ty: 0x3a, off }, true, 0);
    methods_keep_their_first_type(methods, methods.len() as int, name, st.names, x);
    assert(methods.take(methods.len() as int) =~= methods);
}

/// A namespace enters its types and then the namespaces in it.
pub proof fn namespaces_enter_their_types(b: Seq<u8>, off: u32, depth: int, st: IndexNode, types: Seq<u32>, children: Seq<u32>)
    requires
        off != 0,
        depth <= MAX_NAMESPACE_DEPTH,
        namespace_at(b, off) == Some((types, children)),
    ensures
        walk_namespace_of(b, off, depth, st) == walk_namespaces_of(
            b,
            children,
            children.len(),
            depth + 1,
            walk_types_of(b, types, types.len(), 0, st),
        ),
        types.len() == 1 && children.len() == 0 ==> walk_namespace_of(b, off, depth, st) == walk_type_of(b, types[0], 0, st),
{
    reveal_with_fuel(walk_types_of, 2);
    reveal_with_fuel(walk_namespaces_of, 2);
}

/// A method for invocation is known by its type, its fixup and its record; it is left out
/// where one of them is missing or it has no name.
pub proof fn invoked_methods_have_type_fixup_and_name(
    meta: Seq<u8>,
    base: u64,
    invoke: Seq<u8>,
    fixups: Seq<u8>,
    rva0: u32,
    types: Map<u32, Seq<char>>,
    p: int,
    method: u32,
    idx: u32,
)
    requires
        invoke_at(invoke, p) == Some((method, idx)),
    ensures
        !types.contains_key(method) || fixup_of(fixups, rva0, idx) is None || method_at(meta, method) is None ==> invoked(
            meta,
            base,
            invoke,
            fixups,
            rva0,
            types,
            p,
        ) is None,
        types.contains_key(method) ==> (fixup_of(fixups, rva0, idx) matches Some(rva) ==> (method_at(meta, method) matches
            Some((name, sig)) ==> (name_at(meta, name).len() > 0 ==> invoked(meta, base, invoke, fixups, rva0, types, p)
            == Some(symbol_of(meta, base, rva, full_name(types[method], name_at(meta, name)), sig, "invoke"@))) && (name_at(
            meta,
            name,
        ).len() == 0 ==> invoked(meta, base, invoke, fixups, rva0, types, p) is None))),
{
}

/// A bucket's entry is a byte of its hash and how far the entry lies from the number that
/// says so.
pub proof fn buckets_lead_to_their_entries(b: Seq<u8>, p: int, end: int, delta: i32, q: int)
    requires
        0 <= p < end,
        p < b.len(),
        signed_at(b, p + 1) == Some((delta, q)),
    ensures
        0 <= p + 1 + delta < b.len() ==> bucket_from(b, p, end) == seq![(p + 1 + delta) as usize] + bucket_from(b, q, end),
        !(0 <= p + 1 + delta < b.len()) ==> bucket_from(b, p, end) == bucket_from(b, q, end),
{
}

/// The bounds of buckets have one, two or four bytes, as the first byte of the table says.
pub proof fn tables_state_the_size_of_their_bounds(h: u8)
    ensures
        h % 4 == 0 ==> index_size(h) == 1,
        h % 4 == 1 ==> index_size(h) == 2,
        h % 4 >= 2 ==> index_size(h) == 4,
{
}

/// What an image says is counted: the methods of the map, those for invocation, and those
/// that are left when each address has one.
pub proof fn artifacts_count_their_methods(
    src: Snapshot,
    base: u64,
    h: HeaderAt,
    embedded: RvaSize,
    map: RvaSize,
    meta: Seq<u8>,
    entries: Seq<MapEntry>,
)
    ensures
        ({
            let a = artifact_of(src, base, h, embedded, map, meta, entries);
            &&& a.header_rva == h.rva && a.version == h.version
            &&& a.stacktrace_count == entries.len()
            &&& a.method_count == a.symbols.len()
            &&& a.embedded_metadata == embedded && a.rva_to_token == map
        }),
{
}

/// The data called `.rdata` is searched before all other, and a header found in one region
/// ends the search.
pub proof fn regions_are_searched_in_turn(src: Snapshot, base: u64, regions: Seq<RvaSize>, k: int)
    requires
        0 <= k < regions.len(),
    ensures
        region_header(src, base, regions[k].rva, regions[k].size, 0) is Some ==> regions_header(src, base, regions, k)
            == region_header(src, base, regions[k].rva, regions[k].size, 0),
        region_header(src, base, regions[k].rva, regions[k].size, 0) is None ==> regions_header(src, base, regions, k)
            == regions_header(src, base, regions, k + 1),
        regions_header(src, base, regions, regions.len() as int) is None,
{
}

/// A bucket lies between its own bound and the next one, which stand one after another
/// behind the first byte.
pub proof fn buckets_lie_between_their_bounds(b: Seq<u8>, size: nat, k: nat)
    requires
        0 < size,
        1 + size * (k + 2) <= b.len(),
        buckets_of(b, size, k).len() <= 1000,
        MAX_TABLE_ENTRIES >= 1000,
    ensures
        buckets_of(b, size, k + 1) == buckets_of(b, size, k) + bucket_from(
            b,
            (1 + le(b, (1 + size * k) as int, size)) as int,
            (1 + le(b, (1 + size * k + size) as int, size)) as int,
        ),
{
    assert(size * (k + 1) == size * k + size && size * (k + 2) == size * k + size + size) by (nonlinear_arith);
    assert(0 <= size * k) by (nonlinear_arith);
}

} // verus!
