use blob_loader_core::link_script_parser::{
    expr, find_memory_def, from_dec, from_hex, memory, number, suffixed, terms, LinkParseError,
    LinkParseErrorKind,
};

fn err(kind: LinkParseErrorKind) -> LinkParseError {
    LinkParseError { kind }
}

#[test]
fn test_parse_number() {
    assert_eq!(number(b"89"), Ok((&b""[..], 89)));
    assert_eq!(number(b"0xaa9"), Ok((&b""[..], 0xaa9)));
}

#[test]
fn test_parse_memory() {
    assert_eq!(
        memory(b"ddfshj MEMORY\n{\nFLASH: ORIGIN=0, LENGTH = 2K}\n"),
        Ok((&b"\n"[..], vec![(&b"FLASH"[..], None, 0, 2048)]))
    );
    assert_eq!(
        memory(
            br#"
MEMORY {
    BOOT2 : ORIGIN = 0x10000000, LENGTH = 0x100
    FLASH : ORIGIN = 0x10000100, LENGTH = 1024K - 0x100
    RAM   : ORIGIN = 0x20000000, LENGTH = 256K
}
"#
        ),
        Ok((
            &b"\n"[..],
            vec![
                (&b"BOOT2"[..], None, 0x10000000, 0x100),
                (&b"FLASH"[..], None, 0x10000100, 1024 * 1024 - 0x100),
                (&b"RAM"[..], None, 0x20000000, 256 * 1024)
            ]
        ))
    );
}

#[test]
fn test_terms() {
    assert_eq!(terms(b"3+7-0xa"), Ok((&b""[..], 0)));
    assert_eq!(terms(b"3 +7 - 0xa"), Ok((&b""[..], 0)));
    assert_eq!(terms(b"3 +7 - 0xa"), Ok((&b""[..], 0)));
    assert_eq!(terms(b"-3 +7 - 0xa"), Ok((&b""[..], -6)));
    assert_eq!(terms(b"-3 -(7 - 0xa)"), Ok((&b""[..], 0)));
    assert_eq!(terms(b"-(-(7))"), Ok((&b""[..], 7)));
    assert_eq!(terms(b"-8"), Ok((&b""[..], -8)));
    assert_eq!(terms(b"-8--9"), Ok((&b""[..], 1)));
}

#[test]
fn test_expr() {
    assert_eq!(expr(b"3+7K-0xa"), Ok((&b""[..], 3 + 7 * 1024 - 0xa)));
    assert_eq!(expr(b"0MK"), Ok((&b"K"[..], 0)));
    assert_eq!(expr(b"1MK"), Ok((&b"K"[..], 1024 * 1024)));
}

#[test]
fn expr_exact_value_with_suffix() {
    assert_eq!(expr(b"3+7K-0xa"), Ok((&b""[..], 7161)));
    assert_eq!(expr(b"2M + 0X10"), Ok((&b""[..], 2 * 1048576 + 16)));
    assert_eq!(expr(b"( 1 + 2 ) - -3"), Ok((&b""[..], 6)));
}

#[test]
fn expr_suffix_applies_once() {
    assert_eq!(expr(b"1MK"), Ok((&b"K"[..], 1048576)));
    assert_eq!(expr(b"1KK"), Ok((&b"K"[..], 1024)));
}

#[test]
fn expr_negation_and_grouping() {
    assert_eq!(expr(b"-3 -(7 - 0xa)"), Ok((&b""[..], 0)));
    assert_eq!(expr(b"-(-(7))"), Ok((&b""[..], 7)));
    assert_eq!(expr(b"-8--9"), Ok((&b""[..], 1)));
}

#[test]
fn expr_leaves_dangling_operator_unread() {
    assert_eq!(expr(b"5 + x"), Ok((&b" + x"[..], 5)));
    assert_eq!(expr(b"0xg"), Ok((&b"xg"[..], 0)));
}

#[test]
fn expr_rejects_non_numbers() {
    assert_eq!(expr(b""), Err(err(LinkParseErrorKind::ParseError)));
    assert_eq!(expr(b"x1"), Err(err(LinkParseErrorKind::ParseError)));
    assert_eq!(expr(b"(1"), Err(err(LinkParseErrorKind::ParseError)));
}

#[test]
fn expr_overflow_is_reported() {
    assert_eq!(
        expr(b"0x8000000000000000"),
        Err(err(LinkParseErrorKind::IntegerOverflow))
    );
    assert_eq!(
        expr(b"99999999999999999999"),
        Err(err(LinkParseErrorKind::IntegerOverflow))
    );
    assert_eq!(
        expr(b"9223372036854775807 + 1"),
        Err(err(LinkParseErrorKind::IntegerOverflow))
    );
    assert_eq!(
        expr(b"9007199254740992K"),
        Err(err(LinkParseErrorKind::IntegerOverflow))
    );
    assert_eq!(
        expr(b"9223372036854775807"),
        Ok((&b""[..], 9223372036854775807))
    );
}

#[test]
fn digits_are_read_in_their_base() {
    assert_eq!(from_hex(b"aA9"), Ok(0xaa9));
    assert_eq!(from_dec(b"0089"), Ok(89));
    assert_eq!(from_hex(b""), Err(LinkParseErrorKind::ParseError));
    assert_eq!(from_dec(b"8a"), Err(LinkParseErrorKind::ParseError));
    assert_eq!(from_hex(b"ffffffffffffffff"), Ok(u64::MAX));
    assert_eq!(
        from_hex(b"10000000000000000"),
        Err(LinkParseErrorKind::IntegerOverflow)
    );
    assert_eq!(
        from_dec(b"18446744073709551616"),
        Err(LinkParseErrorKind::IntegerOverflow)
    );
    assert_eq!(from_dec(b"18446744073709551615"), Ok(u64::MAX));
}

const SCRIPT: &[u8] = b"MEMORY {\n    BOOT2 : ORIGIN = 0x10000000, LENGTH = 0x100\n    FLASH (rx): ORIGIN = 0x10000100, LENGTH = 1024K - 0x100\n    RAM   : ORIGIN = 0x20000000, LENGTH = 256K\n}\n";

#[test]
fn locator_skips_other_regions() {
    let (after, (before, (name, attr, origin, length))) =
        find_memory_def(SCRIPT, b"FLASH").unwrap();
    assert_eq!(name, b"FLASH");
    assert_eq!(attr, Some(&b"rx"[..]));
    assert_eq!(origin, 0x10000100);
    assert_eq!(length, 1048320);
    assert_eq!(
        before,
        &b"MEMORY {\n    BOOT2 : ORIGIN = 0x10000000, LENGTH = 0x100\n"[..]
    );
    assert_eq!(
        after,
        &b"\n    RAM   : ORIGIN = 0x20000000, LENGTH = 256K\n}\n"[..]
    );
    let (_, (_, (name, _, origin, length))) = find_memory_def(SCRIPT, b"RAM").unwrap();
    assert_eq!(name, b"RAM");
    assert_eq!((origin, length), (0x20000000, 262144));
}

#[test]
fn locator_reports_missing_region() {
    assert_eq!(
        find_memory_def(SCRIPT, b"EEPROM"),
        Err(err(LinkParseErrorKind::RegionNotFound))
    );
    assert_eq!(
        find_memory_def(b"", b"FLASH"),
        Err(err(LinkParseErrorKind::RegionNotFound))
    );
    assert_eq!(
        find_memory_def(b"FLASH : garbage", b"FLASH"),
        Err(err(LinkParseErrorKind::RegionNotFound))
    );
}

#[test]
fn locator_reports_missing_length() {
    let script = b"RAM : ORIGIN = 0x20000000, LENGTH = 256K\nFLASH : ORIGIN = 0x10000000\n";
    assert_eq!(
        find_memory_def(script, b"FLASH"),
        Err(err(LinkParseErrorKind::MissingLength))
    );
}

#[test]
fn locator_reports_missing_origin() {
    let script = b"FLASH : LENGTH = 2K, SIZE = 3\nRAM : ORIGIN = 0, LENGTH = 1K\n";
    assert_eq!(
        find_memory_def(script, b"FLASH"),
        Err(err(LinkParseErrorKind::MissingOrigin))
    );
}

#[test]
fn locator_ignores_incomplete_other_regions() {
    let script = b"RAM : ORIGIN = 0x20000000\nFLASH : ORIGIN = 0, LENGTH = 1K\n";
    let (_, (_, (name, _, origin, length))) = find_memory_def(script, b"FLASH").unwrap();
    assert_eq!(name, b"FLASH");
    assert_eq!((origin, length), (0, 1024));
}

#[test]
fn locator_reports_overflow_in_region() {
    let script = b"FLASH : ORIGIN = 0, LENGTH = 0x8000000000000000\n";
    assert_eq!(
        find_memory_def(script, b"FLASH"),
        Err(err(LinkParseErrorKind::IntegerOverflow))
    );
}

#[test]
fn memory_block_errors() {
    assert_eq!(
        memory(b"no block here"),
        Err(err(LinkParseErrorKind::ParseError))
    );
    assert_eq!(
        memory(b"MEMORY { FLASH : ORIGIN = 0 }"),
        Err(err(LinkParseErrorKind::MissingLength))
    );
}

#[test]
fn suffix_scales_once() {
    assert_eq!(suffixed(b"3K"), Ok((&b""[..], 3072)));
    assert_eq!(suffixed(b"2MM"), Ok((&b"M"[..], 2097152)));
    assert_eq!(suffixed(b"-1KK"), Ok((&b"K"[..], -1024)));
    assert_eq!(suffixed(b"0x10 K"), Ok((&b" K"[..], 16)));
    assert_eq!(
        suffixed(b"9007199254740992K"),
        Err(err(LinkParseErrorKind::IntegerOverflow))
    );
}

#[test]
fn locator_matches_whole_names_only() {
    assert_eq!(
        find_memory_def(b"XFLASH : ORIGIN = 0, LENGTH = 8", b"FLASH"),
        Err(err(LinkParseErrorKind::RegionNotFound))
    );
    let script = b"XFLASH : ORIGIN = 0, LENGTH = 8\nFLASH : ORIGIN = 0x100, LENGTH = 4K\n";
    let (after, (before, (name, _, origin, length))) = find_memory_def(script, b"FLASH").unwrap();
    assert_eq!(name, b"FLASH");
    assert_eq!((origin, length), (0x100, 4096));
    assert_eq!(before, &b"XFLASH : ORIGIN = 0, LENGTH = 8\n"[..]);
    assert_eq!(after, &b"\n"[..]);
}

#[test]
fn locator_name_tail_does_not_hide_errors() {
    assert_eq!(
        find_memory_def(
            b"XFLASH : ORIGIN = 0, LENGTH = 8\nFLASH : ORIGIN = 0x100\n",
            b"FLASH"
        ),
        Err(err(LinkParseErrorKind::MissingLength))
    );
    assert_eq!(
        find_memory_def(
            b"XFLASH : ORIGIN = 0, LENGTH = 8\nFLASH : LENGTH = 4K\n",
            b"FLASH"
        ),
        Err(err(LinkParseErrorKind::MissingOrigin))
    );
}
