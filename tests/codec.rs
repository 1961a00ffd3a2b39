use gxt::cursor::{read_bytes, read_u32_le, require_magic};
use gxt::key::{decode_key_8bytes, encode_key_8bytes, validate_key};
use gxt::text::{
    decode_utf16z_with_escapes, encode_utf16z_with_escapes, is_hex, parse_braced_hex,
    parse_fixed_4hex, push_u16_le, units_to_string_with_escapes,
};
use gxt::{build_gxt_bytes, parse_gxt_bytes, validate_entries, GxtEntry, GxtError};

fn entry(key: &str, value: &str) -> GxtEntry {
    GxtEntry { key: key.to_string(), value: value.to_string() }
}

fn encode_value(s: &str) -> Result<Vec<u8>, GxtError> {
    let mut out = Vec::new();
    encode_utf16z_with_escapes(s, &mut out).map(|_| out)
}

fn one_record_file(offset: u32, key: &[u8; 8], values: &[u8]) -> Vec<u8> {
    let mut b = b"TKEY".to_vec();
    b.extend_from_slice(&12u32.to_le_bytes());
    b.extend_from_slice(&offset.to_le_bytes());
    b.extend_from_slice(key);
    b.extend_from_slice(b"TDAT");
    b.extend_from_slice(&(values.len() as u32).to_le_bytes());
    b.extend_from_slice(values);
    b
}

#[test]
fn table_round_trip() {
    let entries = vec![
        entry("HELLO", "Hello, world"),
        entry("EMOJI", "smile \u{1F600}"),
        entry("CTRL", "a\\u{0085}b"),
        entry("LONE", "\\u{D800}x"),
        entry("EMPTY", ""),
        entry("SP ACE~", "caf\u{e9}"),
    ];
    let bytes = build_gxt_bytes(&entries).unwrap();
    let back = parse_gxt_bytes(&bytes).unwrap();
    assert_eq!(back, entries);
    assert_eq!(build_gxt_bytes(&back).unwrap(), bytes);
}

#[test]
fn table_layout_is_exact() {
    let entries = vec![entry("A", "x"), entry("BB", "")];
    let bytes = build_gxt_bytes(&entries).unwrap();
    let mut expected = b"TKEY".to_vec();
    expected.extend_from_slice(&[24, 0, 0, 0]);
    expected.extend_from_slice(&[0, 0, 0, 0]);
    expected.extend_from_slice(b"A\0\0\0\0\0\0\0");
    expected.extend_from_slice(&[4, 0, 0, 0]);
    expected.extend_from_slice(b"BB\0\0\0\0\0\0");
    expected.extend_from_slice(b"TDAT");
    expected.extend_from_slice(&[6, 0, 0, 0]);
    expected.extend_from_slice(&[b'x', 0, 0, 0, 0, 0]);
    assert_eq!(bytes, expected);
}

#[test]
fn key_round_trip() {
    for k in ["A", "ABCDEFGH", " ~", "M1_Z"] {
        let slot = encode_key_8bytes(k).unwrap();
        assert_eq!(decode_key_8bytes(&slot).unwrap(), k);
    }
}

#[test]
fn escape_round_trip() {
    let raw: Vec<u8> = [0x41u16, 0x85, 0xD800, 0x42, 0xDC00, 0xD83D, 0xDE00, 0x9F, 0]
        .iter()
        .flat_map(|u| u.to_le_bytes())
        .collect();
    let text = decode_utf16z_with_escapes(&raw, 0).unwrap();
    assert_eq!(text, "A\\u{0085}\\u{D800}B\\u{DC00}\u{1F600}\\u{009F}");
    let bytes = encode_value(&text).unwrap();
    assert_eq!(bytes, raw);
    assert_eq!(decode_utf16z_with_escapes(&bytes, 0).unwrap(), text);
}

#[test]
fn duplicate_key_rejected() {
    let entries = vec![entry("A", "x"), entry("A", "y")];
    assert_eq!(build_gxt_bytes(&entries), Err(GxtError::DuplicateKey { key: "A".to_string() }));
    assert_eq!(validate_entries(&entries), Err(GxtError::DuplicateKey { key: "A".to_string() }));
}

#[test]
fn unaligned_offset_rejected() {
    let b = one_record_file(1, b"A\0\0\0\0\0\0\0", &[0x41, 0, 0, 0]);
    assert_eq!(
        parse_gxt_bytes(&b),
        Err(GxtError::UnalignedValueOffset { key: "A".to_string(), offset: 1 })
    );
}

#[test]
fn surrogate_pair_value() {
    let raw = [0x3D, 0xD8, 0x00, 0xDE, 0x00, 0x00];
    let text = decode_utf16z_with_escapes(&raw, 0).unwrap();
    assert_eq!(text, "\u{1F600}");
    assert_eq!(text.chars().count(), 1);
    assert_eq!(encode_value(&text).unwrap(), raw.to_vec());
}

#[test]
fn reserved_range_escape() {
    let raw = [0x85, 0x00, 0x00, 0x00];
    let text = decode_utf16z_with_escapes(&raw, 0).unwrap();
    assert_eq!(text, "\\u{0085}");
    assert_eq!(encode_value(&text).unwrap(), raw.to_vec());
}

#[test]
fn key_bounds() {
    assert_eq!(validate_key(""), Err(GxtError::InvalidKey { key: String::new() }));
    assert_eq!(
        validate_key("ABCDEFGHI"),
        Err(GxtError::InvalidKey { key: "ABCDEFGHI".to_string() })
    );
    assert_eq!(validate_key("ABCDEFGH"), Ok(()));
    assert!(validate_key("AB\u{7F}").is_err());
    assert!(validate_key("caf\u{e9}").is_err());
    assert!(validate_key("TAB\t").is_err());
}

#[test]
fn minimal_file() {
    let mut b = b"TKEY".to_vec();
    b.extend_from_slice(&[0, 0, 0, 0]);
    b.extend_from_slice(b"TDAT");
    b.extend_from_slice(&[0, 0, 0, 0]);
    assert_eq!(parse_gxt_bytes(&b), Ok(vec![]));
    assert_eq!(build_gxt_bytes(&[]).unwrap(), b);
}

#[test]
fn parse_errors() {
    assert_eq!(parse_gxt_bytes(b"TK"), Err(GxtError::UnexpectedEndOfData));
    assert_eq!(
        parse_gxt_bytes(b"TXEY\0\0\0\0"),
        Err(GxtError::MagicMismatch { at: 0, expected: *b"TKEY", found: *b"TXEY" })
    );
    assert_eq!(parse_gxt_bytes(b"TKEY\x05\0\0\0"), Err(GxtError::InvalidKeyFieldSize { size: 5 }));
    assert_eq!(parse_gxt_bytes(b"TKEY\x0c\0\0\0\0\0\0\0AB"), Err(GxtError::UnexpectedEndOfData));
    let bad_key = one_record_file(0, b"\xFF\0\0\0\0\0\0\0", &[0, 0]);
    assert_eq!(parse_gxt_bytes(&bad_key), Err(GxtError::InvalidKeyEncoding));
    let far = one_record_file(2, b"K\0\0\0\0\0\0\0", &[0, 0]);
    assert_eq!(
        parse_gxt_bytes(&far),
        Err(GxtError::ValueOffsetOutOfRange { key: "K".to_string(), offset: 2 })
    );
    let open = one_record_file(0, b"K\0\0\0\0\0\0\0", &[0x41, 0, 0x42]);
    assert_eq!(parse_gxt_bytes(&open), Err(GxtError::TruncatedValue));
    let mut no_tdat = one_record_file(0, b"K\0\0\0\0\0\0\0", &[0, 0]);
    no_tdat[20] = b'X';
    assert_eq!(
        parse_gxt_bytes(&no_tdat),
        Err(GxtError::MagicMismatch { at: 20, expected: *b"TDAT", found: *b"XDAT" })
    );
    let mut dup = b"TKEY".to_vec();
    dup.extend_from_slice(&24u32.to_le_bytes());
    dup.extend_from_slice(&[0, 0, 0, 0]);
    dup.extend_from_slice(b"K\0\0\0\0\0\0\0");
    dup.extend_from_slice(&[0, 0, 0, 0]);
    dup.extend_from_slice(b"K\0junk\0\0");
    dup.extend_from_slice(b"TDAT\x02\0\0\0\0\0");
    assert_eq!(parse_gxt_bytes(&dup), Err(GxtError::DuplicateKey { key: "K".to_string() }));
}

#[test]
fn parse_keeps_order_and_shared_offsets() {
    let mut b = b"TKEY".to_vec();
    b.extend_from_slice(&24u32.to_le_bytes());
    b.extend_from_slice(&[2, 0, 0, 0]);
    b.extend_from_slice(b"ZED\0\0\0\0\0");
    b.extend_from_slice(&[2, 0, 0, 0]);
    b.extend_from_slice(b"ALPHA\0\0\0");
    b.extend_from_slice(b"TDAT\x06\0\0\0");
    b.extend_from_slice(&[0x61, 0, 0x62, 0, 0, 0]);
    let es = parse_gxt_bytes(&b).unwrap();
    assert_eq!(es, vec![entry("ZED", "b"), entry("ALPHA", "b")]);
}

#[test]
fn build_errors() {
    assert_eq!(
        build_gxt_bytes(&[entry("", "x")]),
        Err(GxtError::InvalidKey { key: String::new() })
    );
    assert_eq!(
        build_gxt_bytes(&[entry("OK", "x"), entry("BAD\u{e9}", "y")]),
        Err(GxtError::InvalidKey { key: "BAD\u{e9}".to_string() })
    );
    assert_eq!(
        build_gxt_bytes(&[entry("A", "\\u{110000}")]),
        Err(GxtError::InvalidEscapeCodepoint { codepoint: 0x110000 })
    );
}

#[test]
fn escape_grammar() {
    let units = |s: &str| -> Vec<u16> {
        let b = encode_value(s).unwrap();
        b.chunks(2).map(|c| u16::from_le_bytes([c[0], c[1]])).collect()
    };
    assert_eq!(units("\\\\"), vec![0x5C, 0]);
    assert_eq!(units("\\x0041"), vec![0x41, 0]);
    assert_eq!(units("\\xd800"), vec![0xD800, 0]);
    assert_eq!(units("\\u00E9z"), vec![0xE9, 0x7A, 0]);
    assert_eq!(units("\\u{41}"), vec![0x41, 0]);
    assert_eq!(units("\\u{1F600}"), vec![0xD83D, 0xDE00, 0]);
    assert_eq!(units("\\u{10FFFF}"), vec![0xDBFF, 0xDFFF, 0]);
    assert_eq!(units("\\q"), vec![0x5C, 0x71, 0]);
    assert_eq!(units("\\u{}"), vec![0x5C, 0x75, 0x7B, 0x7D, 0]);
    assert_eq!(units("\\u{12"), vec![0x5C, 0x75, 0x7B, 0x31, 0x32, 0]);
    assert_eq!(units("\\x12"), vec![0x5C, 0x78, 0x31, 0x32, 0]);
    assert_eq!(units("\\u{100000000}"), vec![0x5C, 0x75, 0x7B, 0x31, 0x30, 0x30, 0x30, 0x30, 0x30, 0x30, 0x30, 0x30, 0x7D, 0]);
    assert_eq!(units("\\"), vec![0x5C, 0]);
    assert_eq!(units("\u{e9}\u{1F600}"), vec![0xE9, 0xD83D, 0xDE00, 0]);
    assert_eq!(
        encode_value("\\u{FFFFFFFF}"),
        Err(GxtError::InvalidEscapeCodepoint { codepoint: 0xFFFF_FFFF })
    );
    let mut out = vec![7u8];
    assert_eq!(encode_utf16z_with_escapes("ab", &mut out), Ok(6));
    assert_eq!(out, vec![7, 0x61, 0, 0x62, 0, 0, 0]);
    let mut kept = vec![7u8];
    assert!(encode_utf16z_with_escapes("a\\u{110000}", &mut kept).is_err());
    assert_eq!(kept, vec![7]);
}

#[test]
fn decoder_renders_units() {
    assert_eq!(units_to_string_with_escapes(&[0x48, 0x69]), "Hi");
    assert_eq!(units_to_string_with_escapes(&[0xE9, 0x4E2D]), "\u{e9}\u{4e2d}");
    assert_eq!(units_to_string_with_escapes(&[0xDC00, 0xD800]), "\\u{DC00}\\u{D800}");
    assert_eq!(units_to_string_with_escapes(&[0x80, 0xA0]), "\\u{0080}\u{a0}");
    assert_eq!(units_to_string_with_escapes(&[0xDBFF, 0xDFFF]), "\u{10FFFF}");
    assert_eq!(units_to_string_with_escapes(&[]), "");
    assert_eq!(decode_utf16z_with_escapes(&[0x41, 0x00], 0), Err(GxtError::TruncatedValue));
    assert_eq!(decode_utf16z_with_escapes(&[0, 0, 0x41, 0, 0, 0], 2).unwrap(), "A");
}

#[test]
fn hex_helpers() {
    assert!(is_hex('0') && is_hex('f') && is_hex('F') && is_hex('9'));
    assert!(!is_hex('g') && !is_hex('}') && !is_hex('+'));
    assert_eq!(parse_fixed_4hex(&['0', '0', '4', '1']), Some(0x41));
    assert_eq!(parse_fixed_4hex(&['F', 'f', 'f', 'F']), Some(0xFFFF));
    assert_eq!(parse_fixed_4hex(&['0', '0', '4']), None);
    assert_eq!(parse_fixed_4hex(&['0', 'x', '4', '1']), None);
    assert_eq!(parse_braced_hex(&['1', 'F', '}', 'z']), Some((0x1F, 3)));
    assert_eq!(parse_braced_hex(&['}']), None);
    assert_eq!(parse_braced_hex(&['1', '2']), None);
    assert_eq!(parse_braced_hex(&['1', 'g', '}']), None);
    assert_eq!(parse_braced_hex(&['F', 'F', 'F', 'F', 'F', 'F', 'F', 'F', '}']), Some((0xFFFF_FFFF, 9)));
    assert_eq!(parse_braced_hex(&['1', '0', '0', '0', '0', '0', '0', '0', '0', '}']), None);
    assert_eq!(parse_braced_hex(&['0', '0', '0', '0', '0', '0', '0', '0', '0', '1', '}']), Some((1, 11)));
}

#[test]
fn key_slots() {
    assert_eq!(encode_key_8bytes("AB").unwrap(), *b"AB\0\0\0\0\0\0");
    assert_eq!(encode_key_8bytes("ABCDEFGH").unwrap(), *b"ABCDEFGH");
    assert!(encode_key_8bytes("").is_err());
    assert_eq!(decode_key_8bytes(b"AB\0CD\0\0\0").unwrap(), "AB");
    assert_eq!(decode_key_8bytes(b"\0\0\0\0\0\0\0\0").unwrap(), "");
    assert_eq!(decode_key_8bytes(b"caf\xc3\xa9\0\0\0").unwrap(), "caf\u{e9}");
    assert_eq!(decode_key_8bytes(b"\xc3\0\0\0\0\0\0\0"), Err(GxtError::InvalidKeyEncoding));
}

#[test]
fn cursor_reads() {
    let b = [0x78, 0x56, 0x34, 0x12, b'T', b'K', b'E', b'Y'];
    let mut cur = 0usize;
    assert_eq!(read_u32_le(&b, &mut cur), Ok(0x1234_5678));
    assert_eq!(cur, 4);
    assert_eq!(require_magic(&b, &mut cur, b"TKEY"), Ok(()));
    assert_eq!(cur, 8);
    assert_eq!(read_bytes(&b, &mut cur, 1), Err(GxtError::UnexpectedEndOfData));
    assert_eq!(cur, 8);
    let mut at = 2usize;
    assert_eq!(read_bytes(&b, &mut at, 3).unwrap(), &[0x34, 0x12, b'T']);
    assert_eq!(at, 5);
    let mut out = Vec::new();
    push_u16_le(&mut out, 0xABCD);
    assert_eq!(out, vec![0xCD, 0xAB]);
}
