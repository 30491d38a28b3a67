use n0xis_core::aot::{
    parse_aot, parse_header, parse_rva_to_token, pe_scan_regions, RvaSize, BLOB_EMBEDDED_METADATA,
    BLOB_STACKTRACE_RVA_TO_TOKEN, METADATA_SIGNATURE, READONLY_BLOB_REGION_START,
};
use n0xis_core::native::{
    decode_signed, decode_unsigned, read_string, type_name_at, Handle, HT_ARRAY_SIGNATURE, HT_NAMESPACE_DEFINITION,
    HT_POINTER_SIGNATURE, HT_SZARRAY_SIGNATURE, HT_TYPE_DEFINITION, HT_TYPE_REFERENCE, HT_TYPE_VARIABLE_SIGNATURE,
};
use n0xis_core::source::{CoreError, Region, Snapshot};
use n0xis_core::va::Va;

const BASE: u64 = 0x1_4000_0000;

/// A number in the form of five bytes.
fn num(v: u32) -> Vec<u8> {
    let mut b = vec![0x0f];
    b.extend_from_slice(&v.to_le_bytes());
    b
}

/// A signed number of one byte.
fn small(v: i8) -> u8 {
    (v << 1) as u8
}

struct Blob {
    b: Vec<u8>,
}

impl Blob {
    fn new() -> Blob {
        Blob { b: METADATA_SIGNATURE.to_le_bytes().to_vec() }
    }

    fn put(&mut self, parts: &[Vec<u8>]) -> u32 {
        let at = self.b.len() as u32;
        for p in parts {
            self.b.extend_from_slice(p);
        }
        at
    }

    fn text(&mut self, s: &str) -> u32 {
        self.put(&[num(s.len() as u32), s.as_bytes().to_vec()])
    }
}

fn handle(ty: u8, off: u32) -> Vec<u8> {
    num(off << 8 | ty as u32)
}

struct Meta {
    blob: Vec<u8>,
    main_type: u32,
    inner_type: u32,
    name: u32,
    sig: u32,
    array: u32,
    pointer: u32,
}

fn metadata() -> Meta {
    let mut m = Blob::new();
    let ns_name = m.text("Ns");
    let prog = m.text("Prog");
    let inner = m.text("Inner");
    let name = m.text("Main");
    let void = m.text("Void");
    let string = m.text("String");
    let ns = m.put(&[handle(0x36, 0), num(ns_name)]);
    let main_type = m.put(&[num(0), num(0), num(ns), num(prog), num(0), num(0), num(0), num(0), num(0)]);
    let inner_type = m.put(&[num(0), num(0), num(ns), num(inner), num(0), num(0), num(main_type), num(0), num(0)]);
    let void_ref = m.put(&[handle(0, 0), num(void)]);
    let string_ref = m.put(&[handle(0, 0), num(string)]);
    let sz = m.put(&[handle(HT_TYPE_REFERENCE, string_ref)]);
    let array = m.put(&[handle(HT_TYPE_REFERENCE, string_ref), vec![small(3)]]);
    let pointer = m.put(&[handle(HT_TYPE_DEFINITION, main_type)]);
    let var = m.put(&[num(1)]);
    let sig = m.put(&[
        num(0),
        vec![small(0)],
        handle(HT_TYPE_REFERENCE, void_ref),
        num(2),
        handle(HT_SZARRAY_SIGNATURE, sz),
        handle(HT_TYPE_VARIABLE_SIGNATURE, var),
    ]);
    Meta { blob: m.b, main_type, inner_type, name, sig, array, pointer }
}

fn map_blob(m: &Meta, blob_rva: u32, second: i64) -> Vec<u8> {
    let mut b = 2u32.to_le_bytes().to_vec();
    b.push(7);
    b.extend_from_slice(&((HT_TYPE_DEFINITION as u32) << 24 | m.main_type).to_le_bytes());
    b.extend_from_slice(&num(m.name));
    b.extend_from_slice(&num(m.sig));
    let rel = 0x5020i64 - (blob_rva as i64 + b.len() as i64);
    b.extend_from_slice(&(rel as i32).to_le_bytes());
    b.push(1);
    b.extend_from_slice(&((HT_TYPE_DEFINITION as u32) << 24 | m.inner_type).to_le_bytes());
    let rel = second - (blob_rva as i64 + b.len() as i64);
    b.extend_from_slice(&(rel as i32).to_le_bytes());
    b
}

fn row(id: u32, rva: u64, size: u64) -> Vec<u8> {
    let mut b = id.to_le_bytes().to_vec();
    b.extend_from_slice(&1u32.to_le_bytes());
    b.extend_from_slice(&(BASE + rva).to_le_bytes());
    b.extend_from_slice(&(BASE + rva + size).to_le_bytes());
    b
}

fn header(rows: &[Vec<u8>]) -> Vec<u8> {
    let mut b = b"RTR\0".to_vec();
    b.extend_from_slice(&9u16.to_le_bytes());
    b.extend_from_slice(&2u16.to_le_bytes());
    b.extend_from_slice(&0u32.to_le_bytes());
    b.extend_from_slice(&(rows.len() as u16).to_le_bytes());
    b.push(24);
    b.push(1);
    for r in rows {
        b.extend_from_slice(r);
    }
    b
}

fn image(with_map: bool) -> Snapshot {
    image_with(with_map, 0x5000)
}

fn image_with(with_map: bool, second: i64) -> Snapshot {
    let mut img = vec![0u8; 0x4000];
    img[..2].copy_from_slice(b"MZ");
    img[0x3c] = 0x80;
    img[0x80..0x84].copy_from_slice(b"PE\0\0");
    img[0x86] = 1;
    let s = 0x80 + 24;
    img[s..s + 6].copy_from_slice(b".rdata");
    img[s + 8..s + 12].copy_from_slice(&0x3000u32.to_le_bytes());
    img[s + 12..s + 16].copy_from_slice(&0x1000u32.to_le_bytes());
    img[s + 36..s + 40].copy_from_slice(&0x4000_0040u32.to_le_bytes());
    let m = metadata();
    let map = map_blob(&m, 0x3000, second);
    let mut rows = vec![row(READONLY_BLOB_REGION_START + BLOB_EMBEDDED_METADATA, 0x2000, m.blob.len() as u64)];
    if with_map {
        rows.push(row(READONLY_BLOB_REGION_START + BLOB_STACKTRACE_RVA_TO_TOKEN, 0x3000, map.len() as u64));
    }
    let h = header(&rows);
    img[0x1040..0x1040 + h.len()].copy_from_slice(&h);
    img[0x2000..0x2000 + m.blob.len()].copy_from_slice(&m.blob);
    img[0x3000..0x3000 + map.len()].copy_from_slice(&map);
    Snapshot { regions: vec![Region { start: Va(BASE), bytes: img }], code: vec![] }
}

#[test]
fn the_methods_of_an_image_are_named_from_its_metadata() {
    let art = parse_aot(&image(true), Va(BASE)).unwrap();
    assert_eq!((art.header_rva, art.version.as_str()), (0x1040, "9.2"));
    assert_eq!(art.rva_to_token.rva, 0x3000);
    assert_eq!((art.method_count, art.stacktrace_count, art.invoke_count), (2, 2, 0));
    assert_eq!(art.symbols.len(), 2);
    assert_eq!((art.symbols[0].rva, art.symbols[0].va), (0x5000, Va(BASE + 0x5000)));
    assert_eq!(art.symbols[0].name, "Ns.Prog.Inner.Main");
    assert_eq!(art.symbols[1].name, "Ns.Prog.Main");
    assert_eq!(art.symbols[1].signature, "(String[], !1)");
    assert_eq!(art.symbols[1].return_type, "Void");
    assert_eq!(art.symbols[1].display, "Void Ns.Prog.Main(String[], !1)");
    assert_eq!(art.symbols[1].source, "stacktrace");
}

#[test]
fn an_image_without_the_metadata_says_what_is_missing() {
    let why = |s: &Snapshot, base: u64| match parse_aot(s, Va(base)).unwrap_err() {
        CoreError::Other(m) => m,
        CoreError::Source(e) => panic!("{e:?}"),
    };
    assert_eq!(why(&image(true), BASE + 8), "not a PE image at the given base");
    assert!(why(&image(false), BASE).contains("no stack-trace RVA"));
    let mut plain = image(true);
    plain.regions[0].bytes[0x1040] = 0;
    assert_eq!(why(&plain, BASE), "no NativeAOT ReadyToRunHeader found");
    let mut broken = image(true);
    broken.regions[0].bytes[0x2000] = 0;
    assert_eq!(why(&broken, BASE), "EmbeddedMetadata signature mismatch");
}

#[test]
fn headers_and_maps_are_read_strictly() {
    let h = header(&[row(313, 0x2000, 0x10)]);
    let (version, rows) = parse_header(&h, BASE).unwrap();
    assert_eq!(version, "9.2");
    assert_eq!((rows[0].section_id, rows[0].start_rva, rows[0].size), (313, 0x2000, 0x10));
    assert!(parse_header(&header(&[row(200, 0, 0)]), BASE).is_none(), "no blob section");
    assert!(parse_header(&header(&[row(99, 0, 0)]), BASE).is_none(), "no section id");
    assert!(parse_header(&h[..20], BASE).is_none());
    assert_eq!(pe_scan_regions(&image(true), BASE).unwrap(), vec![RvaSize { rva: 0x1000, size: 0x3000 }]);
    let m = metadata();
    let map = map_blob(&m, 0x3000, 0x5000);
    let e = parse_rva_to_token(&map, 0x3000).unwrap();
    assert_eq!(e[1].owning_type, Handle { ty: HT_TYPE_DEFINITION, off: m.inner_type });
    assert_eq!((e[1].rva, e[1].name_off, e[1].signature_off), (0x5000, m.name, m.sig), "what does not differ stays");
    assert!(parse_rva_to_token(&map[..3], 0).is_err());
    assert!(parse_rva_to_token(&map[..map.len() - 1], 0).is_err());
}

#[test]
fn types_are_named_by_their_records() {
    let m = metadata();
    let name = |ty: u8, off: u32, q: bool| type_name_at(&m.blob, Handle { ty, off }, q, 0);
    assert_eq!(name(HT_TYPE_DEFINITION, m.main_type, true), "Ns.Prog");
    assert_eq!(name(HT_TYPE_DEFINITION, m.main_type, false), "Prog");
    assert_eq!(name(HT_TYPE_DEFINITION, m.inner_type, false), "Prog.Inner");
    assert_eq!(name(HT_ARRAY_SIGNATURE, m.array, true), "String[,,]");
    assert_eq!(name(HT_POINTER_SIGNATURE, m.pointer, true), "Prog*");
    assert_eq!(name(0x7e, 0, true), "???");
    assert_eq!(name(HT_NAMESPACE_DEFINITION, 0, true), "???");
    assert_eq!(name(0, 0, true), "");
}

#[test]
fn numbers_have_one_to_five_bytes() {
    assert_eq!(decode_unsigned(&[0x0a], 0), Some((5, 1)));
    assert_eq!(decode_unsigned(&[0x05, 0x02], 0), Some((129, 2)));
    assert_eq!(decode_unsigned(&num(0xdead_beef), 0), Some((0xdead_beef, 5)));
    assert_eq!(decode_unsigned(&[0x05], 0), None);
    assert_eq!(decode_unsigned(&[0x1f, 0, 0, 0, 0], 0), None);
    assert_eq!(decode_signed(&[small(-3)], 0), Some((-3, 1)));
    assert_eq!(decode_signed(&num(0xffff_fffe), 0), Some((-2, 5)));
    assert_eq!(decode_signed(&[], 0), None);
}

#[test]
fn texts_that_are_not_valid_are_read_with_replacements() {
    let b = vec![0, 0, 0, 0, 6, b'a', 0xff, b'b'];
    assert_eq!(read_string(&b, 4).as_deref(), Some("a\u{fffd}b"));
    assert_eq!(read_string(&b, 0).as_deref(), Some(""));
    assert_eq!(read_string(&[0, 8, b'x'], 1), None);
}

#[test]
fn a_method_that_is_named_twice_counts_once() {
    let art = parse_aot(&image_with(true, 0x5020), Va(BASE)).unwrap();
    assert_eq!((art.method_count, art.stacktrace_count), (1, 2));
    assert_eq!(art.symbols.len(), 1);
}
