use blob_loader_core::build_blob::{
    build_blob_info, build_link_script, build_outputs, build_source, layout_blobs, Blob,
    BlobParams, BuildError, ScannedBlob,
};
use blob_loader_core::checksum::{digest_chunked, BlobDigest};
use blob_loader_core::link_script_parser::{expr, find_memory_def, LinkParseErrorKind};

const SCRIPT: &[u8] = b"MEMORY {\n    BOOT2 : ORIGIN = 0x10000000, LENGTH = 0x100\n    FLASH : ORIGIN = 0x10000100, LENGTH = 1024K - 0x100\n    RAM   : ORIGIN = 0x20000000, LENGTH = 256K\n}\n";

const ABC_SHA1: [u8; 20] = [
    0xa9, 0x99, 0x3e, 0x36, 0x47, 0x06, 0x81, 0x6a, 0xba, 0x3e, 0x25, 0x71, 0x78, 0x50, 0xc2,
    0x6c, 0x9c, 0xd0, 0xd8, 0x9d,
];

fn params(inline: Option<bool>, dev: Option<bool>, release: Option<bool>) -> BlobParams {
    BlobParams {
        filename: "data.bin".to_string(),
        inline,
        inline_dev: dev,
        inline_release: release,
    }
}

fn scanned(name: &str, size: u64, p: BlobParams) -> ScannedBlob {
    ScannedBlob {
        name: name.to_string(),
        params: p,
        size,
        checksum: [7u8; 20],
    }
}

fn length_field(text: &[u8]) -> i64 {
    let (_, (_, (_, _, _, length))) = find_memory_def(text, b"FLASH").unwrap();
    length
}

#[test]
fn patch_carves_space_from_flash() {
    let (text, base) = build_link_script(SCRIPT, b"FLASH", 0x200).unwrap();
    let expected: &[u8] = b"MEMORY {\n    BOOT2 : ORIGIN = 0x10000000, LENGTH = 0x100\n    FLASH : ORIGIN = 0x10000100, LENGTH = 0xffd00\n    RAM   : ORIGIN = 0x20000000, LENGTH = 256K\n}\n";
    assert_eq!(text, expected.to_vec());
    assert_eq!(length_field(&text), 1047808);
    assert_eq!(1024 * 1024 - 0x100 - 0x200, 1047808);
    assert_eq!(base, 0x10000100 + 1047808);
}

#[test]
fn patch_keeps_attribute() {
    let script = b"FLASH (rx): ORIGIN = 0x100, LENGTH = 0x1000";
    let (text, base) = build_link_script(script, b"FLASH", 0x10).unwrap();
    assert_eq!(text, b"FLASH (rx): ORIGIN = 0x100, LENGTH = 0xff0".to_vec());
    assert_eq!(base, 0x100 + 0xff0);
}

#[test]
fn patch_with_nothing_reserved_keeps_length() {
    let (text, base) = build_link_script(SCRIPT, b"FLASH", 0).unwrap();
    assert_eq!(length_field(&text), 1024 * 1024 - 0x100);
    assert_eq!(base, 0x10000100 + 1024 * 1024 - 0x100);
    assert_eq!(expr(b"0xfff00"), Ok((&b""[..], 1024 * 1024 - 0x100)));
}

#[test]
fn patch_rejects_too_large_reservation() {
    assert_eq!(
        build_link_script(SCRIPT, b"FLASH", 1024 * 1024),
        Err(BuildError::ReservedSpaceExceedsRegion)
    );
    let (_, base) = build_link_script(SCRIPT, b"FLASH", 1024 * 1024 - 0x100).unwrap();
    assert_eq!(base, 0x10000100);
}

#[test]
fn patch_copies_negative_origin() {
    let (text, base) = build_link_script(b"FLASH: ORIGIN = -16, LENGTH = 32", b"FLASH", 0).unwrap();
    assert_eq!(text, b"FLASH : ORIGIN = -16, LENGTH = 0x20".to_vec());
    assert_eq!(base, 16);
    let (_, (_, (_, _, origin, length))) = find_memory_def(&text, b"FLASH").unwrap();
    assert_eq!((origin, length), (-16, 32));
}

#[test]
fn patch_copies_origin_expression() {
    let script = b"  FLASH(rwx): ORIGIN = 0x1000 + 4K , LENGTH = 8K\nRAM: ORIGIN = 0, LENGTH = 1K\n";
    let (text, base) = build_link_script(script, b"FLASH", 0x100).unwrap();
    assert_eq!(
        text,
        b"  FLASH (rwx): ORIGIN = 0x1000 + 4K, LENGTH = 0x1f00\nRAM: ORIGIN = 0, LENGTH = 1K\n".to_vec()
    );
    assert_eq!(base, 0x2000 + 0x1f00);
    let (_, (_, (_, attr, origin, length))) = find_memory_def(&text, b"FLASH").unwrap();
    assert_eq!(attr, Some(&b"rwx"[..]));
    assert_eq!((origin, length), (0x2000, 0x1f00));
}

#[test]
fn patch_keeps_space_before_name() {
    let (text, _) = build_link_script(b"X  FLASH : ORIGIN = 0, LENGTH = 8", b"FLASH", 2).unwrap();
    assert_eq!(text, b"X  FLASH : ORIGIN = 0, LENGTH = 0x6".to_vec());
    let (_, (_, (_, _, origin, length))) = find_memory_def(&text, b"FLASH").unwrap();
    assert_eq!((origin, length), (0, 6));
}

#[test]
fn manifest_names_are_unique_keys() {
    let blobs = vec![
        scanned("a", 4, params(Some(false), None, None)),
        scanned("b", 4, params(Some(true), None, None)),
        scanned("c", 4, params(Some(false), None, None)),
    ];
    let out = build_outputs(&blobs, false, SCRIPT, b"FLASH", "chip").unwrap();
    let names: Vec<&str> = out.info.info.iter().map(|e| e.0.as_str()).collect();
    assert_eq!(names, vec!["a", "c"]);
    assert_eq!(out.info.info[1].1.start, out.base + 4);
}

#[test]
fn patched_script_reads_back() {
    let (text, _) = build_link_script(SCRIPT, b"FLASH", 0x200).unwrap();
    let (_, (_, (_, _, origin, length))) = find_memory_def(&text, b"FLASH").unwrap();
    assert_eq!((origin, length), (0x10000100, 1047808));
}

#[test]
fn patch_reports_locator_errors() {
    assert_eq!(
        build_link_script(SCRIPT, b"EEPROM", 0),
        Err(BuildError::LinkScript(LinkParseErrorKind::RegionNotFound))
    );
    assert_eq!(
        build_link_script(b"FLASH : ORIGIN = 0\n", b"FLASH", 0),
        Err(BuildError::LinkScript(LinkParseErrorKind::MissingLength))
    );
    assert_eq!(
        build_link_script(b"FLASH : ORIGIN = 0x7fffffffffffffff, LENGTH = 1", b"FLASH", 0),
        Err(BuildError::IntegerOverflow)
    );
}

#[test]
fn layout_packs_loaded_blobs() {
    let blobs = vec![
        scanned("a", 100, params(Some(false), None, None)),
        scanned("b", 50, params(Some(true), None, None)),
        scanned("c", 200, params(Some(false), None, None)),
    ];
    let (placed, total) = layout_blobs(&blobs, false).unwrap();
    assert_eq!(total, 300);
    assert_eq!(placed.len(), 3);
    assert_eq!((placed[0].start, placed[0].size, placed[0].inline), (0, 100, false));
    assert_eq!((placed[1].start, placed[1].inline), (100, true));
    assert_eq!((placed[2].start, placed[2].size, placed[2].inline), (100, 200, false));
    assert_eq!(placed[2].name, "c");
    assert_eq!(placed[2].filename, "data.bin");
    assert_eq!(placed[2].checksum, [7u8; 20]);
}

#[test]
fn layout_inline_precedence() {
    let blobs = vec![
        scanned("x", 10, params(None, None, None)),
        scanned("y", 20, params(None, Some(true), Some(false))),
        scanned("z", 30, params(Some(false), Some(true), Some(true))),
    ];
    let (dev, dev_total) = layout_blobs(&blobs, false).unwrap();
    assert_eq!(
        dev.iter().map(|b| b.inline).collect::<Vec<_>>(),
        vec![false, true, false]
    );
    assert_eq!(dev_total, 40);
    let (rel, rel_total) = layout_blobs(&blobs, true).unwrap();
    assert_eq!(
        rel.iter().map(|b| b.inline).collect::<Vec<_>>(),
        vec![true, false, false]
    );
    assert_eq!(rel_total, 50);
    assert_eq!(rel[2].start, 20);
}

#[test]
fn layout_all_inline_reserves_nothing() {
    let blobs = vec![scanned("x", 10, params(Some(true), None, None))];
    let (_, total) = layout_blobs(&blobs, false).unwrap();
    assert_eq!(total, 0);
}

#[test]
fn layout_without_blobs_fails() {
    assert!(matches!(
        layout_blobs(&Vec::new(), true),
        Err(BuildError::NoBlobsDefined)
    ));
}

#[test]
fn layout_overflow_fails() {
    let too_big = vec![scanned("x", 1 << 32, params(Some(false), None, None))];
    assert!(matches!(
        layout_blobs(&too_big, false),
        Err(BuildError::IntegerOverflow)
    ));
    let sum_too_big = vec![
        scanned("x", 0xffff_ffff, params(Some(false), None, None)),
        scanned("y", 1, params(Some(false), None, None)),
    ];
    assert!(matches!(
        layout_blobs(&sum_too_big, false),
        Err(BuildError::IntegerOverflow)
    ));
}

fn blob(name: &str, start: u32, size: u32, inline: bool) -> Blob {
    Blob {
        name: name.to_string(),
        start,
        size,
        checksum: [1u8; 20],
        filename: "/d/f.bin".to_string(),
        inline,
    }
}

#[test]
fn source_embeds_or_checks_blobs() {
    let blobs = vec![blob("logo", 0, 3, true), blob("font", 16, 4, false)];
    let text = String::from_utf8(build_source(&blobs, 0x100)).unwrap();
    let expected = "\nuse core::slice;\nuse sha1_smol::Sha1;\n\npub fn logo() ->  &'static [u8] {\ninclude_bytes!(\"/d/f.bin\")\n}\npub fn font() ->  &'static [u8] {\n    let blob = unsafe{slice::from_raw_parts(0x110 as *const u8, 4)}\n;\n    let mut m = Sha1::new();\n    let checksum:[u8;20] = [1,1,1,1,1,1,1,1,1,1,1,1,1,1,1,1,1,1,1,1];\n    m.update(blob);\n    if &m.digest().bytes() != &checksum {\n        panic!(\"Checksum check failed for font\");\n    }\n    blob\n}";
    assert_eq!(text, expected);
}

#[test]
fn manifest_lists_loaded_blobs() {
    let blobs = vec![blob("logo", 0, 3, true), blob("font", 16, 4, false)];
    let info = build_blob_info(&blobs, 0x100, "RP2040").unwrap();
    assert_eq!(info.probe.chip, "RP2040");
    assert_eq!(info.info.len(), 1);
    assert_eq!(info.info[0].0, "font");
    assert_eq!(info.info[0].1.start, 0x110);
    assert_eq!(info.info[0].1.size, 4);
    assert_eq!(info.info[0].1.checksum, [1u8; 20]);
    assert_eq!(info.info[0].1.filename, "/d/f.bin");
    assert!(matches!(
        build_blob_info(&blobs, 0xffff_fff0, "c"),
        Err(BuildError::IntegerOverflow)
    ));
}

#[test]
fn whole_build() {
    let blobs = vec![
        scanned("a", 0x100, params(Some(false), None, None)),
        scanned("b", 0x100, params(Some(false), None, None)),
    ];
    let out = build_outputs(&blobs, true, SCRIPT, b"FLASH", "RP2040").unwrap();
    assert_eq!(out.base, 0x10000100 + 1047808);
    assert_eq!(length_field(&out.link_script), 1047808);
    assert_eq!(out.info.info.len(), 2);
    assert_eq!(out.info.info[1].1.start, out.base + 0x100);
    assert!(out.source.starts_with(b"\nuse core::slice;"));
    assert!(matches!(
        build_outputs(&Vec::new(), true, SCRIPT, b"FLASH", "c"),
        Err(BuildError::NoBlobsDefined)
    ));
}

#[test]
fn checksum_matches_known_digest() {
    let mut d = BlobDigest::new();
    d.update(b"ab");
    d.update(b"c");
    assert_eq!(d.size(), 3);
    assert_eq!(d.checksum(), ABC_SHA1);
}

#[test]
fn checksum_ignores_buffer_size() {
    let data: Vec<u8> = (0..5000u32).map(|i| (i * 7 % 251) as u8).collect();
    let a = digest_chunked(&data, 1);
    let b = digest_chunked(&data, 1024);
    let c = digest_chunked(&data, 4999);
    assert_eq!(a, b);
    assert_eq!(b, c);
    assert_eq!(digest_chunked(b"abc", 2), ABC_SHA1);
    assert_ne!(digest_chunked(b"abd", 2), ABC_SHA1);
}
