use streamchat::hextool::{
    bytes_to_ascii, bytes_to_read, bytes_to_spaced_hex, format_dump_line, is_printable_ascii,
    parse_hex_string_to_bytes, parse_u64_dec_or_hex,
};
use streamchat::text::is_whitespace;

#[test]
fn whitespace_is_the_unicode_property() {
    for u in 0u32..=0x10FFFF {
        if let Some(c) = char::from_u32(u) {
            assert_eq!(is_whitespace(c), c.is_whitespace(), "U+{u:04X}");
        }
    }
}

#[test]
fn printable_ascii_bounds() {
    assert!(!is_printable_ascii(0x1f));
    assert!(is_printable_ascii(0x20));
    assert!(is_printable_ascii(b'A'));
    assert!(is_printable_ascii(0x7e));
    assert!(!is_printable_ascii(0x7f));
    assert!(!is_printable_ascii(0xff));
    assert!(!is_printable_ascii(0));
}

#[test]
fn spaced_hex_is_lower_case_with_single_spaces() {
    assert_eq!(bytes_to_spaced_hex(&[]), "");
    assert_eq!(bytes_to_spaced_hex(&[0]), "00");
    assert_eq!(bytes_to_spaced_hex(&[0xde, 0xad, 0xbe, 0xef]), "de ad be ef");
    assert_eq!(bytes_to_spaced_hex(b"Hello"), "48 65 6c 6c 6f");
    assert_eq!(bytes_to_spaced_hex(&[0x0a, 0xff, 0x10]), "0a ff 10");
}

#[test]
fn ascii_column_dots_unprintable() {
    assert_eq!(bytes_to_ascii(&[]), "");
    assert_eq!(bytes_to_ascii(b"Hello World"), "Hello World");
    assert_eq!(bytes_to_ascii(&[0x00, b'a', 0x7f, b'~', b' ', 0xff, 0x1f]), ".a.~ ..");
}

#[test]
fn numbers_decimal_and_hex() {
    assert_eq!(parse_u64_dec_or_hex("0"), Ok(0));
    assert_eq!(parse_u64_dec_or_hex("42"), Ok(42));
    assert_eq!(parse_u64_dec_or_hex("  42\n"), Ok(42));
    assert_eq!(parse_u64_dec_or_hex("+42"), Ok(42));
    assert_eq!(parse_u64_dec_or_hex("0007"), Ok(7));
    assert_eq!(parse_u64_dec_or_hex("0x10"), Ok(16));
    assert_eq!(parse_u64_dec_or_hex("0XfF"), Ok(255));
    assert_eq!(parse_u64_dec_or_hex("0x+f"), Ok(15));
    assert_eq!(parse_u64_dec_or_hex("18446744073709551615"), Ok(u64::MAX));
    assert_eq!(parse_u64_dec_or_hex("0xffffffffffffffff"), Ok(u64::MAX));
    assert_eq!(parse_u64_dec_or_hex("0x0000000000000000000001"), Ok(1));
}

#[test]
fn numbers_rejected() {
    let invalid = |raw: &str| Err(format!("invalid number '{raw}' (expected decimal or 0x hex)"));
    assert_eq!(parse_u64_dec_or_hex(""), Err("empty decimal value".to_string()));
    assert_eq!(parse_u64_dec_or_hex("   "), Err("empty decimal value".to_string()));
    assert_eq!(parse_u64_dec_or_hex("0x"), Err("empty hex value".to_string()));
    assert_eq!(parse_u64_dec_or_hex(" 0X "), Err("empty hex value".to_string()));
    assert_eq!(parse_u64_dec_or_hex("12a"), invalid("12a"));
    assert_eq!(parse_u64_dec_or_hex(" 12a "), invalid(" 12a "));
    assert_eq!(parse_u64_dec_or_hex("-1"), invalid("-1"));
    assert_eq!(parse_u64_dec_or_hex("+"), invalid("+"));
    assert_eq!(parse_u64_dec_or_hex("1 2"), invalid("1 2"));
    assert_eq!(parse_u64_dec_or_hex("0xg"), invalid("0xg"));
    assert_eq!(parse_u64_dec_or_hex("0x-1"), invalid("0x-1"));
    assert_eq!(parse_u64_dec_or_hex("18446744073709551616"), invalid("18446744073709551616"));
    assert_eq!(parse_u64_dec_or_hex("0x10000000000000000"), invalid("0x10000000000000000"));
    assert_eq!(parse_u64_dec_or_hex("ff"), invalid("ff"));
    assert_eq!(parse_u64_dec_or_hex("1_000"), invalid("1_000"));
}

#[test]
fn numbers_agree_with_std() {
    for raw in ["0", "1", "+1", "++1", "-0", "0x1f", "0X1F", "x1", "0x", "99999999999999999999",
        "\t7\t", "٣", "0x٣", "1e3", "0b1", " 0x ff"]
    {
        let s = raw.trim();
        let expected = if let Some(hex) = s.strip_prefix("0x").or_else(|| s.strip_prefix("0X")) {
            if hex.is_empty() { None } else { u64::from_str_radix(hex, 16).ok() }
        } else if s.is_empty() {
            None
        } else {
            s.parse::<u64>().ok()
        };
        assert_eq!(parse_u64_dec_or_hex(raw).ok(), expected, "{raw:?}");
    }
}

#[test]
fn hex_strings_to_bytes() {
    assert_eq!(parse_hex_string_to_bytes("48656c6c6f"), Ok(b"Hello".to_vec()));
    assert_eq!(parse_hex_string_to_bytes("0x48 65 6C 6c 6F"), Ok(b"Hello".to_vec()));
    assert_eq!(parse_hex_string_to_bytes("  0XDE_AD_BE_EF\n"), Ok(vec![0xde, 0xad, 0xbe, 0xef]));
    assert_eq!(parse_hex_string_to_bytes("d e\ta\nd\rb\x0cee f"), Ok(vec![0xde, 0xad, 0xbe, 0xef]));
    assert_eq!(parse_hex_string_to_bytes("00"), Ok(vec![0]));
    assert_eq!(parse_hex_string_to_bytes("0x0x"), Err("invalid hex digit".to_string()));
}

#[test]
fn hex_strings_rejected() {
    let empty = Err("hex string is empty".to_string());
    let odd = Err("hex string must have an even number of digits".to_string());
    let digit = Err("invalid hex digit".to_string());
    assert_eq!(parse_hex_string_to_bytes(""), empty);
    assert_eq!(parse_hex_string_to_bytes("  0x  "), empty);
    assert_eq!(parse_hex_string_to_bytes("_ _"), empty);
    assert_eq!(parse_hex_string_to_bytes("abc"), odd);
    assert_eq!(parse_hex_string_to_bytes("0xa"), odd);
    assert_eq!(parse_hex_string_to_bytes("zz"), digit);
    assert_eq!(parse_hex_string_to_bytes("0g"), digit);
    assert_eq!(parse_hex_string_to_bytes("g0"), digit);
    assert_eq!(parse_hex_string_to_bytes("+1"), digit);
    assert_eq!(parse_hex_string_to_bytes("a\x0bb"), odd);
    assert_eq!(parse_hex_string_to_bytes("aa\x0bb"), digit);
    // Characters outside ASCII count by their bytes.
    assert_eq!(parse_hex_string_to_bytes("é"), digit);
    assert_eq!(parse_hex_string_to_bytes("éa"), odd);
    assert_eq!(parse_hex_string_to_bytes("€"), odd);
    assert_eq!(parse_hex_string_to_bytes("€a"), digit);
    assert_eq!(parse_hex_string_to_bytes("a€"), digit);
    assert_eq!(parse_hex_string_to_bytes("😀"), digit);
    assert_eq!(parse_hex_string_to_bytes("ab\u{a0}cd"), digit);
}

#[test]
fn read_span_clamps_to_the_file() {
    assert_eq!(bytes_to_read(100, 0, None), Some(100));
    assert_eq!(bytes_to_read(100, 40, None), Some(60));
    assert_eq!(bytes_to_read(100, 40, Some(16)), Some(16));
    assert_eq!(bytes_to_read(100, 40, Some(60)), Some(60));
    assert_eq!(bytes_to_read(100, 40, Some(61)), Some(60));
    assert_eq!(bytes_to_read(100, 100, Some(5)), Some(0));
    assert_eq!(bytes_to_read(100, 101, Some(5)), None);
    assert_eq!(bytes_to_read(0, 0, None), Some(0));
}

#[test]
fn dump_line_layout() {
    assert_eq!(
        format_dump_line(0, b"Hello World"),
        "00000000: 48 65 6c 6c 6f 20 57 6f 72 6c 64 |Hello World|"
    );
    assert_eq!(format_dump_line(0x10, &[0, 0xff]), "00000010: 00 ff |..|");
    assert_eq!(format_dump_line(0xdead_beef, &[b'a']), "deadbeef: 61 |a|");
    assert_eq!(format_dump_line(0x1_0000_0000, &[b'a']), "100000000: 61 |a|");
    assert_eq!(
        format_dump_line(u64::MAX, &[]),
        format!("{:08x}: {} |{}|", u64::MAX, "", "")
    );
}
