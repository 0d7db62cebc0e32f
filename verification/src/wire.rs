//! Big-endian encoding of the fixed-width integers that travel on the wire.

use vstd::prelude::*;

verus! {

/// The number that `bytes` spells when read as big-endian base-256 digits.
pub open spec fn be_value(bytes: Seq<u8>) -> nat
    decreases bytes.len(),
{
    if bytes.len() == 0 {
        0
    } else {
        be_value(bytes.drop_last()) * 256 + bytes.last() as nat
    }
}

/// The `width` low base-256 digits of `value`, most significant first.
pub open spec fn be_bytes(value: nat, width: nat) -> Seq<u8>
    decreases width,
{
    if width == 0 {
        Seq::empty()
    } else {
        be_bytes(value / 256, (width - 1) as nat).push((value % 256) as u8)
    }
}

/// 256 raised to `width`: the number of values that `width` bytes can spell.
pub open spec fn span(width: nat) -> nat
    decreases width,
{
    if width == 0 {
        1
    } else {
        256 * span((width - 1) as nat)
    }
}

/// Reading back what was written gives the value again, as long as it fits.
pub proof fn lemma_be_value_of_be_bytes(value: nat, width: nat)
    requires
        value < span(width),
    ensures
        be_bytes(value, width).len() == width,
        be_value(be_bytes(value, width)) == value,
    decreases width,
{
    if width > 0 {
        let rest = be_bytes(value / 256, (width - 1) as nat);
        lemma_be_value_of_be_bytes(value / 256, (width - 1) as nat);
        assert(be_bytes(value, width).drop_last() =~= rest);
    }
}

/// Writing what was read gives the same bytes again.
pub proof fn lemma_be_bytes_of_be_value(bytes: Seq<u8>)
    ensures
        be_value(bytes) < span(bytes.len()),
        be_bytes(be_value(bytes), bytes.len()) == bytes,
    decreases bytes.len(),
{
    if bytes.len() > 0 {
        lemma_be_bytes_of_be_value(bytes.drop_last());
        let head = be_value(bytes.drop_last());
        let value = be_value(bytes);
        assert(value / 256 == head);
        assert(value % 256 == bytes.last() as nat);
        assert(be_bytes(value, bytes.len()) =~= bytes);
    }
}

/// The eight bytes that carry `x`, most significant first.
pub fn u64_to_be(x: u64) -> (out: [u8; 8])
    ensures
        out@ == be_bytes(x as nat, 8),
        be_value(out@) == x,
{
    let b7: u8 = (x % 256) as u8;
    let x6: u64 = x / 256;
    let b6: u8 = (x6 % 256) as u8;
    let x5: u64 = x6 / 256;
    let b5: u8 = (x5 % 256) as u8;
    let x4: u64 = x5 / 256;
    let b4: u8 = (x4 % 256) as u8;
    let x3: u64 = x4 / 256;
    let b3: u8 = (x3 % 256) as u8;
    let x2: u64 = x3 / 256;
    let b2: u8 = (x2 % 256) as u8;
    let x1: u64 = x2 / 256;
    let b1: u8 = (x1 % 256) as u8;
    let x0: u64 = x1 / 256;
    let b0: u8 = (x0 % 256) as u8;
    let out = [b0, b1, b2, b3, b4, b5, b6, b7];
    proof {
        reveal_with_fuel(be_bytes, 9);
        reveal_with_fuel(span, 9);
        assert(out@ =~= be_bytes(x as nat, 8));
        lemma_be_value_of_be_bytes(x as nat, 8);
    }
    out
}

/// The number that eight big-endian bytes carry.
pub fn u64_from_be(bytes: &[u8; 8]) -> (x: u64)
    ensures
        x == be_value(bytes@),
        bytes@ == be_bytes(x as nat, 8),
{
    let mut acc: u64 = 0;
    let mut i: usize = 0;
    while i < 8
        invariant
            i <= 8,
            acc == be_value(bytes@.take(i as int)),
            acc < span(i as nat),
        decreases 8 - i,
    {
        proof {
            reveal_with_fuel(span, 9);
            assert(bytes@.take(i + 1).drop_last() =~= bytes@.take(i as int));
        }
        acc = acc * 256 + bytes[i] as u64;
        i += 1;
    }
    proof {
        assert(bytes@.take(8) =~= bytes@);
        lemma_be_bytes_of_be_value(bytes@);
    }
    acc
}

/// The four bytes that carry `x`, most significant first.
pub fn u32_to_be(x: u32) -> (out: [u8; 4])
    ensures
        out@ == be_bytes(x as nat, 4),
        be_value(out@) == x,
{
    let b3: u8 = (x % 256) as u8;
    let x2: u32 = x / 256;
    let b2: u8 = (x2 % 256) as u8;
    let x1: u32 = x2 / 256;
    let b1: u8 = (x1 % 256) as u8;
    let x0: u32 = x1 / 256;
    let b0: u8 = (x0 % 256) as u8;
    let out = [b0, b1, b2, b3];
    proof {
        reveal_with_fuel(be_bytes, 5);
        reveal_with_fuel(span, 5);
        assert(out@ =~= be_bytes(x as nat, 4));
        lemma_be_value_of_be_bytes(x as nat, 4);
    }
    out
}

/// The number that four big-endian bytes carry.
pub fn u32_from_be(bytes: &[u8; 4]) -> (x: u32)
    ensures
        x == be_value(bytes@),
        bytes@ == be_bytes(x as nat, 4),
{
    let mut acc: u32 = 0;
    let mut i: usize = 0;
    while i < 4
        invariant
            i <= 4,
            acc == be_value(bytes@.take(i as int)),
            acc < span(i as nat),
        decreases 4 - i,
    {
        proof {
            reveal_with_fuel(span, 5);
            assert(bytes@.take(i + 1).drop_last() =~= bytes@.take(i as int));
        }
        acc = acc * 256 + bytes[i] as u32;
        i += 1;
    }
    proof {
        assert(bytes@.take(4) =~= bytes@);
        lemma_be_bytes_of_be_value(bytes@);
    }
    acc
}

} // verus!
