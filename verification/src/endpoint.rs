//! The address that a connector is given on the command line.

use crate::text::{
    chars_of, decimal, parse_unsigned, parsed_unsigned, push_chars, push_decimal, trim_range,
    trimmed,
};
use vstd::prelude::*;
use vstd::string::StringExecFns;

verus! {

/// The number of characters of `s` behind its last `c`, or the length of
/// `s` if it holds none.
pub open spec fn tail_after(s: Seq<char>, c: char) -> nat
    decreases s.len(),
{
    if s.len() > 0 && s.last() != c {
        1 + tail_after(s.drop_last(), c)
    } else {
        0
    }
}

/// The message for an address that is refused for `reason`.
pub open spec fn invalid_address(s: Seq<char>, reason: Seq<char>) -> Seq<char> {
    "invalid address '"@ + s + "' ("@ + reason + ")"@
}

/// What `raw` denotes as an endpoint: a host and a port between 1 and
/// 65535, split at the last colon. White space around the whole and around
/// the host is dropped, and the port is written back in plain decimal.
pub open spec fn endpoint_of(raw: Seq<char>) -> Result<Seq<char>, Seq<char>> {
    let s = trimmed(raw);
    let tail = tail_after(s, ':');
    if tail >= s.len() {
        Err(invalid_address(s, "expected host:port"@))
    } else {
        let host = trimmed(s.take(s.len() - tail - 1));
        let port = s.skip(s.len() - tail);
        if host.len() == 0 {
            Err(invalid_address(s, "empty host"@))
        } else {
            match parsed_unsigned(port, 10, 65535) {
                None => Err(invalid_address(s, "invalid port"@)),
                Some(p) => if p == 0 {
                    Err(invalid_address(s, "port out of range"@))
                } else {
                    Ok(host + ":"@ + decimal(p))
                },
            }
        }
    }
}

fn refuse(chars: &[char], from: usize, to: usize, reason: &str) -> (e: String)
    requires
        from <= to <= chars@.len(),
    ensures
        e@ == invalid_address(chars@.subrange(from as int, to as int), reason@),
{
    let mut e = String::from_str("invalid address '");
    push_chars(&mut e, chars, from, to);
    e.append("' (");
    e.append(reason);
    e.append(")");
    e
}

/// Reads an address of the form `host:port` and gives it back in the form
/// in which it is resolved.
pub fn parse_endpoint(s: &str) -> (r: Result<String, String>)
    ensures
        match r {
            Ok(endpoint) => endpoint_of(s@) == Ok::<Seq<char>, Seq<char>>(endpoint@),
            Err(e) => endpoint_of(s@) == Err::<Seq<char>, Seq<char>>(e@),
        },
{
    let chars = chars_of(s);
    let (a, b) = trim_range(&chars, 0, chars.len());
    assert(chars@.subrange(0, chars@.len() as int) =~= chars@);
    let ghost t = chars@.subrange(a as int, b as int);
    let mut colon = b;
    while colon > a && chars[colon - 1] != ':'
        invariant
            a <= colon <= b <= chars@.len(),
            tail_after(chars@.subrange(a as int, b as int), ':') == (b - colon) + tail_after(
                chars@.subrange(a as int, colon as int),
                ':',
            ),
        decreases colon - a,
    {
        assert(chars@.subrange(a as int, colon as int).drop_last() =~= chars@.subrange(
            a as int,
            colon - 1,
        ));
        colon -= 1;
    }
    if colon == a {
        return Err(refuse(&chars, a, b, "expected host:port"));
    }
    // `colon` stands just behind the last colon.
    assert(tail_after(t, ':') == b - colon);
    assert(t.take(t.len() - (b - colon) - 1) =~= chars@.subrange(a as int, colon - 1));
    assert(t.skip(t.len() - (b - colon)) =~= chars@.subrange(colon as int, b as int));
    let (ha, hb) = trim_range(&chars, a, colon - 1);
    if ha == hb {
        return Err(refuse(&chars, a, b, "empty host"));
    }
    let port = match parse_unsigned(&chars, colon, b, 10, 65535) {
        Some(p) => p,
        None => {
            return Err(refuse(&chars, a, b, "invalid port"));
        },
    };
    if port == 0 {
        return Err(refuse(&chars, a, b, "port out of range"));
    }
    let mut out = String::new();
    push_chars(&mut out, &chars, ha, hb);
    out.append(":");
    push_decimal(&mut out, port);
    assert(out@ =~= chars@.subrange(ha as int, hb as int) + ":"@ + decimal(port as nat));
    Ok(out)
}

} // verus!
