//! Reading numbers and byte strings written in hexadecimal, and writing
//! bytes out as a hex dump.

use crate::text::{
    after_hex_prefix, all_digits, chars_of, digit_of, digit_value, hex_number, parse_unsigned,
    parsed_unsigned, push_hex_padded, push_spaced_hex, skip_hex_prefix, spaced_hex, trim_range,
    trimmed, zero_padded,
};
use vstd::prelude::*;
use vstd::string::StringExecFns;

verus! {

/// Number of bytes that one line of a dump shows.
pub const DUMP_WIDTH: u64 = 16;

/// Whether `b` is a printable ASCII character: a space, a tilde, or
/// anything between them.
pub open spec fn printable(b: u8) -> bool {
    0x20 <= b <= 0x7e
}

/// The text column of a dump: printable bytes as they are, a dot for the rest.
pub open spec fn ascii_column(bytes: Seq<u8>) -> Seq<char> {
    Seq::new(
        bytes.len(),
        |i: int|
            if printable(bytes[i]) {
                bytes[i] as char
            } else {
                '.'
            },
    )
}

/// The message for a number that could not be read.
pub open spec fn invalid_number_message(raw: Seq<char>) -> Seq<char> {
    "invalid number '"@ + raw + "' (expected decimal or 0x hex)"@
}

/// What `raw` denotes as a number: decimal, or hexadecimal behind `0x`.
/// White space around it is ignored.
pub open spec fn number_of(raw: Seq<char>) -> Result<u64, Seq<char>> {
    let s = trimmed(raw);
    match after_hex_prefix(s) {
        Some(hex) => if hex.len() == 0 {
            Err("empty hex value"@)
        } else {
            match parsed_unsigned(hex, 16, u64::MAX as nat) {
                Some(v) => Ok(v as u64),
                None => Err(invalid_number_message(raw)),
            }
        },
        None => if s.len() == 0 {
            Err("empty decimal value"@)
        } else {
            match parsed_unsigned(s, 10, u64::MAX as nat) {
                Some(v) => Ok(v as u64),
                None => Err(invalid_number_message(raw)),
            }
        },
    }
}

/// Whether `c` may stand between hex digits: ASCII white space or an underscore.
pub open spec fn is_filler(c: char) -> bool {
    c == ' ' || c == '\t' || c == '\n' || c == '\x0C' || c == '\r' || c == '_'
}

/// `s` without its filler characters.
pub open spec fn without_filler(s: Seq<char>) -> Seq<char>
    decreases s.len(),
{
    if s.len() == 0 {
        s
    } else if is_filler(s.last()) {
        without_filler(s.drop_last())
    } else {
        without_filler(s.drop_last()).push(s.last())
    }
}

/// Number of bytes that `c` takes in UTF-8.
pub open spec fn utf8_width(c: char) -> nat {
    let u = c as u32;
    if u < 0x80 {
        1
    } else if u < 0x800 {
        2
    } else if u < 0x1_0000 {
        3
    } else {
        4
    }
}

/// Number of bytes that `s` takes in UTF-8.
pub open spec fn utf8_len(s: Seq<char>) -> nat
    decreases s.len(),
{
    if s.len() == 0 {
        0
    } else {
        utf8_len(s.drop_last()) + utf8_width(s.last())
    }
}

/// The characters of `input` that are read as hex digits: what is left
/// when the white space around it, a `0x` prefix and all filler are gone.
pub open spec fn hex_payload(input: Seq<char>) -> Seq<char> {
    let t = trimmed(input);
    without_filler(
        match after_hex_prefix(t) {
            Some(rest) => rest,
            None => t,
        },
    )
}

/// The byte that two hex digits spell.
pub open spec fn byte_of(high: char, low: char) -> u8 {
    (digit_value(high, 16).unwrap() * 16 + digit_value(low, 16).unwrap()) as u8
}

/// The bytes that an even number of hex digits spell, two digits per byte.
pub open spec fn bytes_of_digits(digits: Seq<char>) -> Seq<u8> {
    Seq::new(digits.len() / 2, |i: int| byte_of(digits[2 * i], digits[2 * i + 1]))
}

/// What `input` denotes as a string of bytes. The length that must be even
/// is the length in bytes, so a character outside ASCII counts for as many
/// digits as it has bytes in UTF-8.
pub open spec fn hex_bytes_of(input: Seq<char>) -> Result<Seq<u8>, Seq<char>> {
    let payload = hex_payload(input);
    if payload.len() == 0 {
        Err("hex string is empty"@)
    } else if utf8_len(payload) % 2 != 0 {
        Err("hex string must have an even number of digits"@)
    } else if !all_digits(payload, 16) {
        Err("invalid hex digit"@)
    } else {
        Ok(bytes_of_digits(payload))
    }
}

/// One line of a dump: the offset in eight hex digits, the bytes in hex,
/// and the bytes as text between bars.
pub open spec fn dump_line_text(offset: u64, bytes: Seq<u8>) -> Seq<char> {
    zero_padded(hex_number(offset as nat, false), 8) + ": "@ + spaced_hex(bytes, false) + " |"@
        + ascii_column(bytes) + "|"@
}

/// How many bytes a read at `offset` of at most `size` bytes covers in a
/// file of `len` bytes, if the offset is not behind its end.
pub open spec fn read_span(len: u64, offset: u64, size: Option<u64>) -> Option<u64> {
    if offset > len {
        None
    } else {
        match size {
            Some(n) if n < len - offset => Some(n),
            _ => Some((len - offset) as u64),
        }
    }
}

/// Whether `b` is a printable ASCII character.
pub fn is_printable_ascii(b: u8) -> (r: bool)
    ensures
        r == printable(b),
{
    0x20 <= b && b <= 0x7e
}

/// The bytes in lower-case hex, two digits each, separated by single spaces.
pub fn bytes_to_spaced_hex(bytes: &[u8]) -> (out: String)
    ensures
        out@ == spaced_hex(bytes@, false),
{
    let mut out = String::new();
    push_spaced_hex(&mut out, bytes, false);
    assert(Seq::<char>::empty() + spaced_hex(bytes@, false) =~= spaced_hex(bytes@, false));
    out
}

/// The bytes as text: printable ASCII as it is, a dot for everything else.
pub fn bytes_to_ascii(bytes: &[u8]) -> (out: String)
    ensures
        out@ == ascii_column(bytes@),
{
    let mut out = String::new();
    let mut i: usize = 0;
    while i < bytes.len()
        invariant
            i <= bytes@.len(),
            out@ == ascii_column(bytes@).take(i as int),
        decreases bytes@.len() - i,
    {
        let b = bytes[i];
        if is_printable_ascii(b) {
            out.push(b as char);
        } else {
            out.push('.');
        }
        assert(ascii_column(bytes@).take(i + 1) =~= ascii_column(bytes@).take(i as int).push(
            ascii_column(bytes@)[i as int],
        ));
        i += 1;
    }
    assert(ascii_column(bytes@).take(bytes@.len() as int) =~= ascii_column(bytes@));
    out
}

fn invalid_number(raw: &str) -> (e: String)
    ensures
        e@ == invalid_number_message(raw@),
{
    let mut e = String::from_str("invalid number '");
    e.append(raw);
    e.append("' (expected decimal or 0x hex)");
    e
}

/// Reads a number written in decimal, or in hexadecimal behind `0x` or `0X`.
pub fn parse_u64_dec_or_hex(raw: &str) -> (r: Result<u64, String>)
    ensures
        match r {
            Ok(v) => number_of(raw@) == Ok::<u64, Seq<char>>(v),
            Err(e) => number_of(raw@) == Err::<u64, Seq<char>>(e@),
        },
{
    let chars = chars_of(raw);
    let (a, b) = trim_range(&chars, 0, chars.len());
    assert(chars@.subrange(0, chars@.len() as int) =~= chars@);
    match skip_hex_prefix(&chars, a, b) {
        Some(start) => {
            if start == b {
                return Err(String::from_str("empty hex value"));
            }
            match parse_unsigned(&chars, start, b, 16, u64::MAX) {
                Some(v) => Ok(v),
                None => Err(invalid_number(raw)),
            }
        },
        None => {
            if a == b {
                return Err(String::from_str("empty decimal value"));
            }
            match parse_unsigned(&chars, a, b, 10, u64::MAX) {
                Some(v) => Ok(v),
                None => Err(invalid_number(raw)),
            }
        },
    }
}

/// Reads a string of hex digits as bytes. White space and underscores may
/// stand anywhere between the digits, and `0x` may stand in front.
pub fn parse_hex_string_to_bytes(input: &str) -> (r: Result<Vec<u8>, String>)
    ensures
        match r {
            Ok(v) => hex_bytes_of(input@) == Ok::<Seq<u8>, Seq<char>>(v@),
            Err(e) => hex_bytes_of(input@) == Err::<Seq<u8>, Seq<char>>(e@),
        },
{
    let chars = chars_of(input);
    let (a, b) = trim_range(&chars, 0, chars.len());
    assert(chars@.subrange(0, chars@.len() as int) =~= chars@);
    let start = match skip_hex_prefix(&chars, a, b) {
        Some(start) => start,
        None => a,
    };
    let ghost body = chars@.subrange(start as int, b as int);
    let mut kept: Vec<char> = Vec::new();
    let mut odd: bool = false;
    let mut i = start;
    while i < b
        invariant
            start <= i <= b <= chars@.len(),
            body == chars@.subrange(start as int, b as int),
            kept@ == without_filler(body.take(i - start)),
            odd == (utf8_len(kept@) % 2 != 0),
        decreases b - i,
    {
        let c = chars[i];
        let ghost before = body.take(i - start);
        assert(body.take(i - start + 1).drop_last() =~= before);
        if !(c == ' ' || c == '\t' || c == '\n' || c == '\x0C' || c == '\r' || c == '_') {
            let u = c as u32;
            let ghost old_kept = kept@;
            kept.push(c);
            assert(kept@.drop_last() =~= old_kept);
            if u < 0x80 || (0x800 <= u && u < 0x1_0000) {
                odd = !odd;
            }
        }
        i += 1;
    }
    assert(body.take(b - start) =~= body);
    assert(kept@ == hex_payload(input@));
    if kept.len() == 0 {
        return Err(String::from_str("hex string is empty"));
    }
    if odd {
        return Err(String::from_str("hex string must have an even number of digits"));
    }
    let mut out: Vec<u8> = Vec::new();
    let mut j: usize = 0;
    while j + 1 < kept.len()
        invariant
            j % 2 == 0,
            j <= kept@.len(),
            kept@ == hex_payload(input@),
            kept@.len() > 0,
            utf8_len(kept@) % 2 == 0,
            all_digits(kept@.take(j as int), 16),
            out@.len() == j / 2,
            forall|k: int| 0 <= k < out@.len() ==> out@[k] == bytes_of_digits(kept@)[k],
        decreases kept@.len() - j,
    {
        let hi = match digit_of(kept[j], 16) {
            Some(v) => v,
            None => {
                assert(digit_value(kept@[j as int], 16) is None);
                return Err(String::from_str("invalid hex digit"));
            },
        };
        let lo = match digit_of(kept[j + 1], 16) {
            Some(v) => v,
            None => {
                assert(digit_value(kept@[j + 1], 16) is None);
                return Err(String::from_str("invalid hex digit"));
            },
        };
        out.push((hi * 16 + lo) as u8);
        proof {
            assert forall|k: int| 0 <= k < j + 2 implies (#[trigger] digit_value(
                kept@.take(j + 2)[k],
                16,
            )) is Some by {
                if k < j {
                    assert(kept@.take(j as int)[k] == kept@[k]);
                }
            }
        }
        j += 2;
    }
    if j < kept.len() {
        // An odd number of characters in an even number of bytes: one of
        // them is outside ASCII and so is no digit.
        if digit_of(kept[j], 16).is_some() {
            proof {
                assert forall|k: int| 0 <= k < kept@.len() implies (#[trigger] digit_value(
                    kept@[k],
                    16,
                )) is Some by {
                    if k < j {
                        assert(kept@.take(j as int)[k] == kept@[k]);
                    }
                }
                lemma_digits_are_one_byte_each(kept@);
            }
            assert(false);
        }
        assert(digit_value(kept@[j as int], 16) is None);
        return Err(String::from_str("invalid hex digit"));
    }
    assert(kept@.take(j as int) =~= kept@);
    assert(out@ =~= bytes_of_digits(kept@));
    Ok(out)
}

/// A string of digits takes one byte per digit.
proof fn lemma_digits_are_one_byte_each(s: Seq<char>)
    requires
        all_digits(s, 16),
    ensures
        utf8_len(s) == s.len(),
    decreases s.len(),
{
    if s.len() > 0 {
        assert forall|i: int| 0 <= i < s.drop_last().len() implies (#[trigger] digit_value(
            s.drop_last()[i],
            16,
        )) is Some by {
            assert(s.drop_last()[i] == s[i]);
        }
        lemma_digits_are_one_byte_each(s.drop_last());
        assert(digit_value(s[s.len() - 1], 16) is Some);
    }
}

/// How many bytes to read at `offset` when at most `size` are asked for,
/// or `None` when the offset lies behind the end of the file.
pub fn bytes_to_read(len: u64, offset: u64, size: Option<u64>) -> (r: Option<u64>)
    ensures
        r == read_span(len, offset, size),
{
    if offset > len {
        return None;
    }
    let available = len - offset;
    match size {
        Some(n) => if n < available {
            Some(n)
        } else {
            Some(available)
        },
        None => Some(available),
    }
}

/// One line of a dump for the bytes found at `offset`.
pub fn format_dump_line(offset: u64, bytes: &[u8]) -> (out: String)
    ensures
        out@ == dump_line_text(offset, bytes@),
{
    let mut out = String::new();
    push_hex_padded(&mut out, offset, 8, false);
    out.append(": ");
    push_spaced_hex(&mut out, bytes, false);
    out.append(" |");
    let ascii = bytes_to_ascii(bytes);
    out.append(ascii.as_str());
    out.append("|");
    assert(out@ =~= dump_line_text(offset, bytes@));
    out
}

} // verus!
