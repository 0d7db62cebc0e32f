//! Characters, trimming, and numbers written out as text.

use vstd::prelude::*;

verus! {

/// Appends one character, as `String::push` is documented to do.
pub assume_specification[ String::push ](s: &mut String, c: char)
    ensures
        final(s)@ == old(s)@.push(c),
;

/// Whether `c` is white space in the sense of Unicode's `White_Space` property.
pub open spec fn is_space(c: char) -> bool {
    let u = c as u32;
    ||| 0x09 <= u <= 0x0D
    ||| u == 0x20
    ||| u == 0x85
    ||| u == 0xA0
    ||| u == 0x1680
    ||| 0x2000 <= u <= 0x200A
    ||| u == 0x2028
    ||| u == 0x2029
    ||| u == 0x202F
    ||| u == 0x205F
    ||| u == 0x3000
}

/// The number of leading white-space characters of `s`.
pub open spec fn leading_space(s: Seq<char>) -> nat
    decreases s.len(),
{
    if s.len() > 0 && is_space(s[0]) {
        1 + leading_space(s.skip(1))
    } else {
        0
    }
}

/// The number of trailing white-space characters of `s`.
pub open spec fn trailing_space(s: Seq<char>) -> nat
    decreases s.len(),
{
    if s.len() > 0 && is_space(s.last()) {
        1 + trailing_space(s.drop_last())
    } else {
        0
    }
}

/// `s` without its leading and trailing white space.
pub open spec fn trimmed(s: Seq<char>) -> Seq<char> {
    let rest = s.skip(leading_space(s) as int);
    rest.take(rest.len() - trailing_space(rest))
}

/// The value of `c` as a digit in base `radix`, if it is one. Letters count
/// from ten, in either case.
pub open spec fn digit_value(c: char, radix: nat) -> Option<nat> {
    let u = c as u32;
    let v: int = if 0x30 <= u <= 0x39 {
        u - 0x30
    } else if 0x61 <= u <= 0x7A {
        u - 0x61 + 10
    } else if 0x41 <= u <= 0x5A {
        u - 0x41 + 10
    } else {
        -1
    };
    if 0 <= v < radix {
        Some(v as nat)
    } else {
        None
    }
}

/// Whether every character of `s` is a digit in base `radix`.
pub open spec fn all_digits(s: Seq<char>, radix: nat) -> bool {
    forall|i: int| 0 <= i < s.len() ==> (#[trigger] digit_value(s[i], radix)) is Some
}

/// The number that the digits of `s` spell in base `radix`.
pub open spec fn digits_value(s: Seq<char>, radix: nat) -> nat
    decreases s.len(),
{
    if s.len() == 0 {
        0
    } else {
        digits_value(s.drop_last(), radix) * radix + match digit_value(s.last(), radix) {
            Some(v) => v,
            None => 0,
        }
    }
}

/// What `s` without an optional leading plus sign is.
pub open spec fn unsigned_body(s: Seq<char>) -> Seq<char> {
    if s.len() > 0 && s[0] == '+' {
        s.skip(1)
    } else {
        s
    }
}

/// The number that `s` denotes in base `radix`, if it is an optional plus
/// sign followed by at least one digit and nothing else, and the number is
/// at most `max`.
pub open spec fn parsed_unsigned(s: Seq<char>, radix: nat, max: nat) -> Option<nat> {
    let body = unsigned_body(s);
    if body.len() > 0 && all_digits(body, radix) && digits_value(body, radix) <= max {
        Some(digits_value(body, radix))
    } else {
        None
    }
}

/// The decimal digits of `n`, without leading zeros.
pub open spec fn decimal(n: nat) -> Seq<char>
    decreases n,
{
    if n < 10 {
        seq![(0x30 + n) as char]
    } else {
        decimal(n / 10).push((0x30 + n % 10) as char)
    }
}

/// The characters of `s`, in order.
pub fn chars_of(s: &str) -> (v: Vec<char>)
    ensures
        v@ == s@,
{
    let mut v: Vec<char> = Vec::new();
    for c in it: s.chars()
        invariant
            it.seq() == s@,
            v@ == s@.take(it.index() as int),
    {
        v.push(c);
        assert(s@.take(it.index() + 1) =~= s@.take(it.index() as int).push(c));
    }
    assert(s@.take(s@.len() as int) =~= s@);
    v
}

/// Appends the characters `chars[from..to]` to `out`.
pub fn push_chars(out: &mut String, chars: &[char], from: usize, to: usize)
    requires
        from <= to <= chars@.len(),
    ensures
        final(out)@ == old(out)@ + chars@.subrange(from as int, to as int),
{
    let mut i = from;
    while i < to
        invariant
            from <= i <= to <= chars@.len(),
            out@ == old(out)@ + chars@.subrange(from as int, i as int),
        decreases to - i,
    {
        out.push(chars[i]);
        assert(chars@.subrange(from as int, i + 1) =~= chars@.subrange(from as int, i as int).push(
            chars@[i as int],
        ));
        i += 1;
    }
    assert(chars@.subrange(from as int, from as int) =~= Seq::<char>::empty());
}

/// Whether `c` is white space in the sense of Unicode's `White_Space` property.
pub fn is_whitespace(c: char) -> (b: bool)
    ensures
        b == is_space(c),
{
    let u = c as u32;
    (0x09 <= u && u <= 0x0D) || u == 0x20 || u == 0x85 || u == 0xA0 || u == 0x1680 || (0x2000 <= u
        && u <= 0x200A) || u == 0x2028 || u == 0x2029 || u == 0x202F || u == 0x205F || u == 0x3000
}

/// The bounds of `chars[from..to]` without its leading and trailing white space.
pub fn trim_range(chars: &[char], from: usize, to: usize) -> (r: (usize, usize))
    requires
        from <= to <= chars@.len(),
    ensures
        from <= r.0 <= r.1 <= to,
        chars@.subrange(r.0 as int, r.1 as int) == trimmed(chars@.subrange(from as int, to as int)),
{
    let ghost whole = chars@.subrange(from as int, to as int);
    let mut a = from;
    while a < to && is_whitespace(chars[a])
        invariant
            from <= a <= to <= chars@.len(),
            whole == chars@.subrange(from as int, to as int),
            leading_space(whole) == (a - from) + leading_space(chars@.subrange(a as int, to as int)),
        decreases to - a,
    {
        assert(chars@.subrange(a as int, to as int).skip(1) =~= chars@.subrange(a + 1, to as int));
        a += 1;
    }
    let ghost rest = chars@.subrange(a as int, to as int);
    assert(leading_space(rest) == 0);
    assert(whole.skip((a - from) as int) =~= rest);
    let mut b = to;
    while b > a && is_whitespace(chars[b - 1])
        invariant
            a <= b <= to <= chars@.len(),
            rest == chars@.subrange(a as int, to as int),
            trailing_space(rest) == (to - b) + trailing_space(chars@.subrange(a as int, b as int)),
        decreases b - a,
    {
        assert(chars@.subrange(a as int, b as int).drop_last() =~= chars@.subrange(
            a as int,
            b - 1,
        ));
        b -= 1;
    }
    assert(trailing_space(chars@.subrange(a as int, b as int)) == 0);
    assert(rest.take(rest.len() - (to - b)) =~= chars@.subrange(a as int, b as int));
    (a, b)
}

/// The value of `c` as a digit in base `radix`, if it is one.
pub fn digit_of(c: char, radix: u32) -> (r: Option<u32>)
    requires
        radix <= 36,
    ensures
        match r {
            Some(v) => digit_value(c, radix as nat) == Some(v as nat) && v < radix,
            None => digit_value(c, radix as nat) is None,
        },
{
    let u = c as u32;
    let v: u32 = if 0x30 <= u && u <= 0x39 {
        u - 0x30
    } else if 0x61 <= u && u <= 0x7A {
        u - 0x61 + 10
    } else if 0x41 <= u && u <= 0x5A {
        u - 0x41 + 10
    } else {
        return None;
    };
    if v < radix {
        Some(v)
    } else {
        None
    }
}

/// More digits never spell a smaller number.
pub proof fn lemma_digits_value_grows(s: Seq<char>, k: int, radix: nat)
    requires
        0 <= k <= s.len(),
        radix > 0,
    ensures
        digits_value(s.take(k), radix) <= digits_value(s, radix),
    decreases s.len() - k,
{
    if k < s.len() {
        lemma_digits_value_grows(s.drop_last(), k, radix);
        assert(s.drop_last().take(k) =~= s.take(k));
        assert(digits_value(s.drop_last(), radix) * radix >= digits_value(s.drop_last(), radix))
            by (nonlinear_arith)
            requires
                radix > 0,
        ;
    } else {
        assert(s.take(k) =~= s);
    }
}

/// Reads `chars[from..to]` as a number in base `radix` that is at most `max`.
pub fn parse_unsigned(chars: &[char], from: usize, to: usize, radix: u32, max: u64) -> (r: Option<
    u64,
>)
    requires
        from <= to <= chars@.len(),
        2 <= radix <= 36,
    ensures
        match r {
            Some(v) => parsed_unsigned(
                chars@.subrange(from as int, to as int),
                radix as nat,
                max as nat,
            ) == Some(v as nat),
            None => parsed_unsigned(
                chars@.subrange(from as int, to as int),
                radix as nat,
                max as nat,
            ) is None,
        },
{
    let ghost whole = chars@.subrange(from as int, to as int);
    let start = if from < to && chars[from] == '+' {
        from + 1
    } else {
        from
    };
    let ghost body = chars@.subrange(start as int, to as int);
    assert(body =~= unsigned_body(whole));
    if start == to {
        return None;
    }
    let mut acc: u64 = 0;
    let mut i = start;
    while i < to
        invariant
            start <= i <= to <= chars@.len(),
            2 <= radix <= 36,
            body == chars@.subrange(start as int, to as int),
            body == unsigned_body(chars@.subrange(from as int, to as int)),
            body.len() > 0,
            all_digits(body.take(i - start), radix as nat),
            acc == digits_value(body.take(i - start), radix as nat),
            acc <= max,
        decreases to - i,
    {
        let ghost prefix = body.take(i - start + 1);
        assert(prefix.drop_last() =~= body.take(i - start));
        assert(prefix.last() == chars@[i as int]);
        match digit_of(chars[i], radix) {
            None => {
                assert(digit_value(body[i - start], radix as nat) is None);
                return None;
            },
            Some(d) => {
                assert(all_digits(prefix, radix as nat)) by {
                    assert forall|j: int| 0 <= j < prefix.len() implies (#[trigger] digit_value(
                        prefix[j],
                        radix as nat,
                    )) is Some by {
                        if j < prefix.len() - 1 {
                            assert(prefix[j] == body.take(i - start)[j]);
                        }
                    }
                }
                assert(acc * radix <= u64::MAX * 36) by (nonlinear_arith)
                    requires
                        acc <= u64::MAX,
                        radix <= 36,
                ;
                let wide: u128 = (acc as u128) * (radix as u128) + (d as u128);
                assert(wide == digits_value(prefix, radix as nat));
                if wide > max as u128 {
                    proof {
                        lemma_digits_value_grows(body, i - start + 1, radix as nat);
                    }
                    return None;
                }
                acc = wide as u64;
            },
        }
        i += 1;
    }
    assert(body.take(to - start) =~= body);
    Some(acc)
}

/// Appends the decimal digits of `n` to `out`.
pub fn push_decimal(out: &mut String, n: u64)
    ensures
        final(out)@ == old(out)@ + decimal(n as nat),
{
    let mut digits: Vec<char> = Vec::new();
    let mut rest = n;
    // The digits come out least significant first.
    while rest >= 10
        invariant
            old(out)@ == out@,
            decimal(n as nat) == decimal(rest as nat) + digits@.reverse(),
        decreases rest,
    {
        let d = (rest % 10) as u8;
        let ghost before = digits@;
        digits.push((0x30 + d) as char);
        proof {
            assert(digits@.reverse() =~= seq![(0x30 + d) as char] + before.reverse());
            assert(decimal(rest as nat) == decimal((rest / 10) as nat).push((0x30 + d) as char));
            assert(decimal((rest / 10) as nat).push((0x30 + d) as char) + before.reverse()
                =~= decimal((rest / 10) as nat) + digits@.reverse());
        }
        rest = rest / 10;
    }
    let ghost low = digits@;
    digits.push((0x30 + rest as u8) as char);
    proof {
        assert(digits@.reverse() =~= seq![(0x30 + rest as u8) as char] + low.reverse());
        assert(decimal(rest as nat) =~= seq![(0x30 + rest as u8) as char]);
        assert(decimal(n as nat) =~= digits@.reverse());
    }
    let mut i = digits.len();
    while i > 0
        invariant
            i <= digits@.len(),
            out@ == old(out)@ + digits@.reverse().take(digits@.len() - i),
        decreases i,
    {
        i -= 1;
        out.push(digits[i]);
        assert(digits@.reverse().take(digits@.len() - i) =~= digits@.reverse().take(
            digits@.len() - i - 1,
        ).push(digits@[i as int]));
    }
    assert(digits@.reverse().take(digits@.len() as int) =~= digits@.reverse());
}

/// The character for a value below sixteen: `0`-`9`, then `a`-`f` or `A`-`F`.
pub open spec fn hex_char(v: nat, upper: bool) -> char {
    if v < 10 {
        (0x30 + v) as char
    } else if upper {
        (0x41 + v - 10) as char
    } else {
        (0x61 + v - 10) as char
    }
}

/// The two hexadecimal digits of `b`, high digit first.
pub open spec fn hex_pair(b: u8, upper: bool) -> Seq<char> {
    seq![hex_char((b / 16) as nat, upper), hex_char((b % 16) as nat, upper)]
}

/// The bytes of `bytes` as two hexadecimal digits each, with one space
/// between neighbours and none at either end.
pub open spec fn spaced_hex(bytes: Seq<u8>, upper: bool) -> Seq<char>
    decreases bytes.len(),
{
    if bytes.len() == 0 {
        Seq::empty()
    } else if bytes.len() == 1 {
        hex_pair(bytes[0], upper)
    } else {
        spaced_hex(bytes.drop_last(), upper) + seq![' '] + hex_pair(bytes.last(), upper)
    }
}

/// `n` in hexadecimal, without leading zeros.
pub open spec fn hex_number(n: nat, upper: bool) -> Seq<char>
    decreases n,
{
    if n < 16 {
        seq![hex_char(n, upper)]
    } else {
        hex_number(n / 16, upper).push(hex_char(n % 16, upper))
    }
}

/// `s` with zeros put in front until it is `width` characters long.
pub open spec fn zero_padded(s: Seq<char>, width: nat) -> Seq<char> {
    if s.len() >= width {
        s
    } else {
        Seq::new((width - s.len()) as nat, |i: int| '0') + s
    }
}

/// The character for a value below sixteen.
pub fn hex_digit_char(v: u8, upper: bool) -> (c: char)
    requires
        v < 16,
    ensures
        c == hex_char(v as nat, upper),
{
    if v < 10 {
        (0x30 + v) as char
    } else if upper {
        (0x41 + v - 10) as char
    } else {
        (0x61 + v - 10) as char
    }
}

/// Appends the two hexadecimal digits of `b` to `out`.
pub fn push_hex_pair(out: &mut String, b: u8, upper: bool)
    ensures
        final(out)@ == old(out)@ + hex_pair(b, upper),
{
    out.push(hex_digit_char(b / 16, upper));
    out.push(hex_digit_char(b % 16, upper));
    assert(out@ =~= old(out)@ + hex_pair(b, upper));
}

/// Appends the bytes of `bytes` to `out`, two hexadecimal digits each,
/// with one space between neighbours.
pub fn push_spaced_hex(out: &mut String, bytes: &[u8], upper: bool)
    ensures
        final(out)@ == old(out)@ + spaced_hex(bytes@, upper),
{
    let mut i: usize = 0;
    while i < bytes.len()
        invariant
            i <= bytes@.len(),
            out@ == old(out)@ + spaced_hex(bytes@.take(i as int), upper),
        decreases bytes@.len() - i,
    {
        let ghost before = bytes@.take(i as int);
        let ghost after = bytes@.take(i + 1);
        assert(after.drop_last() =~= before);
        if i != 0 {
            out.push(' ');
        }
        push_hex_pair(out, bytes[i], upper);
        proof {
            if i == 0 {
                assert(spaced_hex(before, upper) =~= Seq::<char>::empty());
                assert(out@ =~= old(out)@ + spaced_hex(after, upper));
            } else {
                assert(out@ =~= old(out)@ + (spaced_hex(before, upper) + seq![' '] + hex_pair(
                    bytes@[i as int],
                    upper,
                )));
            }
        }
        i += 1;
    }
    assert(bytes@.take(bytes@.len() as int) =~= bytes@);
}

/// Appends `n` in hexadecimal, padded with zeros to at least `width` digits.
pub fn push_hex_padded(out: &mut String, n: u64, width: usize, upper: bool)
    ensures
        final(out)@ == old(out)@ + zero_padded(hex_number(n as nat, upper), width as nat),
{
    let mut digits: Vec<char> = Vec::new();
    let mut rest = n;
    while rest >= 16
        invariant
            old(out)@ == out@,
            hex_number(n as nat, upper) == hex_number(rest as nat, upper) + digits@.reverse(),
        decreases rest,
    {
        let d = (rest % 16) as u8;
        let ghost before = digits@;
        digits.push(hex_digit_char(d, upper));
        proof {
            assert(digits@.reverse() =~= seq![hex_char(d as nat, upper)] + before.reverse());
            assert(hex_number((rest / 16) as nat, upper).push(hex_char(d as nat, upper)) + before.reverse()
                =~= hex_number((rest / 16) as nat, upper) + digits@.reverse());
        }
        rest = rest / 16;
    }
    let ghost low = digits@;
    digits.push(hex_digit_char(rest as u8, upper));
    proof {
        assert(digits@.reverse() =~= seq![hex_char(rest as nat, upper)] + low.reverse());
        assert(hex_number(n as nat, upper) =~= digits@.reverse());
    }
    let ghost text = digits@.reverse();
    let mut pad: usize = digits.len();
    while pad < width
        invariant
            digits@.len() <= pad,
            pad <= width || pad == digits@.len(),
            out@ == old(out)@ + Seq::new((pad - digits@.len()) as nat, |i: int| '0'),
        decreases width - pad,
    {
        out.push('0');
        assert(Seq::new((pad + 1 - digits@.len()) as nat, |i: int| '0') =~= Seq::new(
            (pad - digits@.len()) as nat,
            |i: int| '0',
        ).push('0'));
        pad += 1;
    }
    let ghost padded = out@;
    let mut i = digits.len();
    while i > 0
        invariant
            i <= digits@.len(),
            out@ == padded + digits@.reverse().take(digits@.len() - i),
        decreases i,
    {
        i -= 1;
        out.push(digits[i]);
        assert(digits@.reverse().take(digits@.len() - i) =~= digits@.reverse().take(
            digits@.len() - i - 1,
        ).push(digits@[i as int]));
    }
    assert(digits@.reverse().take(digits@.len() as int) =~= digits@.reverse());
    assert(out@ =~= old(out)@ + zero_padded(text, width as nat));
}

/// What follows a leading `0x` or `0X` of `s`, if it has one.
pub open spec fn after_hex_prefix(s: Seq<char>) -> Option<Seq<char>> {
    if s.len() >= 2 && s[0] == '0' && (s[1] == 'x' || s[1] == 'X') {
        Some(s.skip(2))
    } else {
        None
    }
}

/// Where the digits start in `chars[from..to]`: behind a `0x` prefix, if
/// there is one.
pub fn skip_hex_prefix(chars: &[char], from: usize, to: usize) -> (r: Option<usize>)
    requires
        from <= to <= chars@.len(),
    ensures
        match r {
            Some(start) => from + 2 == start <= to && after_hex_prefix(
                chars@.subrange(from as int, to as int),
            ) == Some(chars@.subrange(start as int, to as int)),
            None => after_hex_prefix(chars@.subrange(from as int, to as int)) is None,
        },
{
    if to - from >= 2 && chars[from] == '0' && (chars[from + 1] == 'x' || chars[from + 1] == 'X') {
        assert(chars@.subrange(from as int, to as int).skip(2) =~= chars@.subrange(
            from + 2,
            to as int,
        ));
        Some(from + 2)
    } else {
        None
    }
}

/// Where a text is cut into pieces.
#[derive(Clone, Copy, Debug, PartialEq, Eq, Structural)]
pub enum Breaks {
    /// At every line feed.
    Lines,
    /// At every white-space character.
    Spaces,
    /// At every character that is neither a letter nor a digit.
    NonWords,
}

/// Whether `c` is a letter or a digit in the sense of Unicode, as
/// `char::is_alphanumeric` tells it.
pub uninterp spec fn alphanumeric(c: char) -> bool;

/// Whether `c` ends a piece.
pub open spec fn is_break(c: char, breaks: Breaks) -> bool {
    match breaks {
        Breaks::Lines => c == '\n',
        Breaks::Spaces => is_space(c),
        Breaks::NonWords => !alphanumeric(c),
    }
}

/// The pieces into which the breaks cut `s`. Two breaks in a row, or one at
/// either end, give an empty piece.
pub open spec fn pieces(s: Seq<char>, breaks: Breaks) -> Seq<Seq<char>>
    decreases s.len(),
{
    if s.len() == 0 {
        seq![Seq::empty()]
    } else {
        let before = pieces(s.drop_last(), breaks);
        if is_break(s.last(), breaks) {
            before.push(Seq::empty())
        } else {
            before.drop_last().push(before.last().push(s.last()))
        }
    }
}

/// Characters that are no breaks lengthen the last piece.
pub proof fn lemma_pieces_grow(s: Seq<char>, from: int, to: int, breaks: Breaks)
    requires
        0 <= from <= to <= s.len(),
        forall|k: int| from <= k < to ==> !is_break(s[k], breaks),
    ensures
        pieces(s.take(to), breaks).len() == pieces(s.take(from), breaks).len(),
        pieces(s.take(to), breaks).drop_last() == pieces(s.take(from), breaks).drop_last(),
        pieces(s.take(to), breaks).last() == pieces(s.take(from), breaks).last() + s.subrange(
            from,
            to,
        ),
        pieces(s.take(from), breaks).len() > 0,
    decreases to - from,
{
    lemma_pieces_nonempty(s.take(from), breaks);
    if from == to {
        assert(s.subrange(from, to) =~= Seq::<char>::empty());
        assert(pieces(s.take(from), breaks).last() + Seq::<char>::empty() =~= pieces(
            s.take(from),
            breaks,
        ).last());
    } else {
        lemma_pieces_grow(s, from, to - 1, breaks);
        assert(s.take(to).drop_last() =~= s.take(to - 1));
        assert(s.take(to).last() == s[to - 1]);
        let before = pieces(s.take(to - 1), breaks);
        let after = pieces(s.take(to), breaks);
        assert(after == before.drop_last().push(before.last().push(s[to - 1])));
        assert(after.drop_last() =~= before.drop_last());
        assert(s.subrange(from, to) =~= s.subrange(from, to - 1).push(s[to - 1]));
        assert(after.last() =~= pieces(s.take(from), breaks).last() + s.subrange(from, to));
    }
}

/// There is always at least one piece.
pub proof fn lemma_pieces_nonempty(s: Seq<char>, breaks: Breaks)
    ensures
        pieces(s, breaks).len() > 0,
    decreases s.len(),
{
    if s.len() > 0 {
        lemma_pieces_nonempty(s.drop_last(), breaks);
    }
}

/// The first break of `chars[from..to]`, or `to` if it holds none.
pub fn next_break(chars: &[char], from: usize, to: usize, breaks: Breaks) -> (r: usize)
    requires
        from <= to <= chars@.len(),
    ensures
        from <= r <= to,
        forall|k: int| from <= k < r ==> !is_break(chars@[k], breaks),
        r < to ==> is_break(chars@[r as int], breaks),
{
    let mut i = from;
    while i < to
        invariant
            from <= i <= to <= chars@.len(),
            forall|k: int| from <= k < i ==> !is_break(chars@[k], breaks),
        decreases to - i,
    {
        let c = chars[i];
        let hit = match breaks {
            Breaks::Lines => c == '\n',
            Breaks::Spaces => is_whitespace(c),
            Breaks::NonWords => !is_alphanumeric(c),
        };
        if hit {
            return i;
        }
        i += 1;
    }
    i
}

/// Whether `c` is a letter or a digit, by `char::is_alphanumeric`. The
/// contract gives the answer a name and claims no more of it.
#[verifier::external_body]
pub(crate) fn is_alphanumeric(c: char) -> (b: bool)
    ensures
        b == alphanumeric(c),
{
    c.is_alphanumeric()
}

} // verus!
