//! Length-prefixed frames whose payload is masked with a keystream.
//!
//! A frame is a four-byte big-endian length followed by that many bytes of
//! ciphertext. Each direction of a session has a generator of its own, and
//! the generator moves on by one step for every payload byte.

use crate::keystream::{folded, state_after, stream, Keystream};
use crate::wire::{be_bytes, be_value, lemma_be_value_of_be_bytes, span, u32_from_be, u32_to_be};
use vstd::slice::slice_subrange;
use vstd::string::StringExecFns;
use vstd::prelude::*;

verus! {

/// The largest payload, in bytes, that a frame may carry.
pub const MAX_MSG_LEN: u32 = 1_048_576;

/// Length of the frame header in bytes.
pub const HEADER_LEN: usize = 4;

/// Why a frame could not be built or read.
#[derive(Clone, Copy, Debug, PartialEq, Eq, Structural)]
pub enum CodecError {
    /// The length of the local payload does not fit in 32 bits.
    MessageTooLong,
    /// The local payload is longer than a frame may carry.
    MessageTooLarge,
    /// The peer announced a payload longer than a frame may carry.
    FrameTooLarge,
    /// The bytes end before the header or the announced payload is complete.
    Truncated,
}

/// `data` with every byte xored with the byte at the same place of the
/// stream that a generator in `state` gives out.
pub open spec fn masked(data: Seq<u8>, state: u32) -> Seq<u8> {
    Seq::new(data.len(), |i: int| data[i] ^ stream(state, data.len())[i])
}

/// The frame that carries `plain` when the sending generator is in `state`.
pub open spec fn framed(plain: Seq<u8>, state: u32) -> Seq<u8> {
    be_bytes(plain.len(), 4) + masked(plain, state)
}

/// Why a payload of `len` bytes cannot be sent, if it cannot.
pub open spec fn encode_fault(len: nat) -> Option<CodecError> {
    if len > u32::MAX {
        Some(CodecError::MessageTooLong)
    } else if len > MAX_MSG_LEN {
        Some(CodecError::MessageTooLarge)
    } else {
        None
    }
}

/// The payload length that the first four bytes of `bytes` announce.
pub open spec fn announced(bytes: Seq<u8>) -> nat {
    be_value(bytes.take(4))
}

/// What reading one frame from the front of `bytes` comes to.
pub open spec fn frame_fault(bytes: Seq<u8>) -> Option<CodecError> {
    if bytes.len() < 4 {
        Some(CodecError::Truncated)
    } else if announced(bytes) > MAX_MSG_LEN {
        Some(CodecError::FrameTooLarge)
    } else if bytes.len() < 4 + announced(bytes) {
        Some(CodecError::Truncated)
    } else {
        None
    }
}

/// What building the frame for `plain` comes to when the sending
/// generator is in `state`.
pub open spec fn encoded(plain: Seq<u8>, state: u32) -> Result<Seq<u8>, CodecError> {
    match encode_fault(plain.len()) {
        Some(e) => Err(e),
        None => Ok(framed(plain, state)),
    }
}

/// What reading one frame from the front of `bytes` comes to when the
/// receiving generator is in `state`.
pub open spec fn decoded(bytes: Seq<u8>, state: u32) -> Result<Seq<u8>, CodecError> {
    match frame_fault(bytes) {
        Some(e) => Err(e),
        None => Ok(masked(bytes.subrange(4, 4 + announced(bytes) as int), state)),
    }
}

/// The state in which a generator is left by `outcome`, having been in
/// `state`: advanced by one step for every byte of payload, and not at all
/// where there was an error.
pub open spec fn state_left(state: u32, outcome: Result<Seq<u8>, CodecError>, payload: nat) -> u32 {
    match outcome {
        Ok(_) => state_after(state, payload),
        Err(_) => state,
    }
}

impl CodecError {
    /// The error in words.
    pub open spec fn text(self) -> Seq<char> {
        match self {
            CodecError::MessageTooLong => "message too long"@,
            CodecError::MessageTooLarge => "message too large"@,
            CodecError::FrameTooLarge => "incoming message too large"@,
            CodecError::Truncated => "frame ends early"@,
        }
    }

    /// The error in words.
    pub fn message(&self) -> (s: String)
        ensures
            s@ == self.text(),
    {
        match self {
            CodecError::MessageTooLong => String::from_str("message too long"),
            CodecError::MessageTooLarge => String::from_str("message too large"),
            CodecError::FrameTooLarge => String::from_str("incoming message too large"),
            CodecError::Truncated => String::from_str("frame ends early"),
        }
    }
}

/// Masks `data` with the next bytes of `ks`. Applied to plaintext it
/// encrypts, applied to ciphertext it decrypts.
pub fn apply_keystream(ks: &mut Keystream, data: &[u8]) -> (out: Vec<u8>)
    ensures
        out@ == masked(data@, old(ks)@),
        final(ks)@ == state_after(old(ks)@, data@.len()),
{
    let n = data.len();
    let mut out: Vec<u8> = Vec::with_capacity(n);
    let mut i: usize = 0;
    while i < n
        invariant
            n == data@.len(),
            i <= n,
            out@.len() == i,
            ks@ == state_after(old(ks)@, i as nat),
            forall|j: int| 0 <= j < i ==> out@[j] == masked(data@, old(ks)@)[j],
        decreases n - i,
    {
        let k = ks.next_byte();
        out.push(data[i] ^ k);
        i += 1;
    }
    assert(out@ =~= masked(data@, old(ks)@));
    out
}

/// Builds the frame for `plain`, advancing `ks` by one step per byte.
///
/// A payload above the limit is refused before the generator is touched.
pub fn encode(ks: &mut Keystream, plain: &[u8]) -> (r: Result<Vec<u8>, CodecError>)
    ensures
        match r {
            Ok(frame) => encoded(plain@, old(ks)@) == Ok::<Seq<u8>, CodecError>(frame@),
            Err(e) => encoded(plain@, old(ks)@) == Err::<Seq<u8>, CodecError>(e),
        },
        final(ks)@ == state_left(old(ks)@, encoded(plain@, old(ks)@), plain@.len()),
{
    if plain.len() > u32::MAX as usize {
        return Err(CodecError::MessageTooLong);
    }
    let len: u32 = plain.len() as u32;
    if len > MAX_MSG_LEN {
        return Err(CodecError::MessageTooLarge);
    }
    let header = u32_to_be(len);
    let cipher = apply_keystream(ks, plain);
    let mut frame: Vec<u8> = Vec::with_capacity(HEADER_LEN + plain.len());
    let mut i: usize = 0;
    while i < 4
        invariant
            i <= 4,
            frame@ == header@.take(i as int),
        decreases 4 - i,
    {
        frame.push(header[i]);
        assert(header@.take(i + 1) =~= header@.take(i as int).push(header@[i as int]));
        i += 1;
    }
    assert(header@.take(4) =~= header@);
    let mut j: usize = 0;
    while j < cipher.len()
        invariant
            j <= cipher@.len(),
            frame@ == header@ + cipher@.take(j as int),
        decreases cipher@.len() - j,
    {
        frame.push(cipher[j]);
        assert(header@ + cipher@.take(j + 1) =~= (header@ + cipher@.take(j as int)).push(
            cipher@[j as int],
        ));
        j += 1;
    }
    assert(cipher@.take(cipher@.len() as int) =~= cipher@);
    Ok(frame)
}

/// Reads the payload length from a frame header.
///
/// A length above the limit is refused here, from the four header bytes
/// alone, so that no buffer of the announced size is ever asked for.
pub fn frame_len(header: &[u8; 4]) -> (r: Result<usize, CodecError>)
    ensures
        be_value(header@) > MAX_MSG_LEN ==> r == Err::<usize, CodecError>(
            CodecError::FrameTooLarge,
        ),
        be_value(header@) <= MAX_MSG_LEN ==> r == Ok::<usize, CodecError>(
            be_value(header@) as usize,
        ),
{
    let len = u32_from_be(header);
    if len > MAX_MSG_LEN {
        Err(CodecError::FrameTooLarge)
    } else {
        Ok(len as usize)
    }
}

/// Reads one frame from the front of `bytes` and recovers its payload,
/// advancing `ks` by one step per payload byte. Bytes behind the frame are
/// left alone, and the generator is left alone when the frame is refused.
pub fn decode(ks: &mut Keystream, bytes: &[u8]) -> (r: Result<Vec<u8>, CodecError>)
    ensures
        match r {
            Ok(plain) => decoded(bytes@, old(ks)@) == Ok::<Seq<u8>, CodecError>(plain@),
            Err(e) => decoded(bytes@, old(ks)@) == Err::<Seq<u8>, CodecError>(e),
        },
        final(ks)@ == state_left(old(ks)@, decoded(bytes@, old(ks)@), announced(bytes@)),
{
    if bytes.len() < HEADER_LEN {
        return Err(CodecError::Truncated);
    }
    let header: [u8; 4] = [bytes[0], bytes[1], bytes[2], bytes[3]];
    assert(header@ =~= bytes@.take(4));
    let len = match frame_len(&header) {
        Ok(len) => len,
        Err(e) => {
            return Err(e);
        },
    };
    if bytes.len() - HEADER_LEN < len {
        return Err(CodecError::Truncated);
    }
    let body = slice_subrange(bytes, HEADER_LEN, HEADER_LEN + len);
    Ok(apply_keystream(ks, body))
}

/// Masking twice with the same stream gives the data back.
pub proof fn lemma_mask_is_involution(data: Seq<u8>, state: u32)
    ensures
        masked(masked(data, state), state) == data,
{
    let once = masked(data, state);
    let twice = masked(once, state);
    assert forall|i: int| 0 <= i < data.len() implies twice[i] == data[i] by {
        let d = data[i];
        let k = stream(state, data.len())[i];
        assert((d ^ k) ^ k == d) by (bit_vector);
    }
    assert(twice =~= data);
}

/// Encrypt-then-decrypt round trip: a payload within the limit is framed,
/// and the frame is read back as that payload by a generator in the state
/// in which the sending one was. Both generators are left in the same
/// state, so that the next frame of the direction round-trips as well.
pub proof fn lemma_round_trip(plain: Seq<u8>, state: u32)
    requires
        plain.len() <= MAX_MSG_LEN,
    ensures
        encoded(plain, state) == Ok::<Seq<u8>, CodecError>(framed(plain, state)),
        decoded(framed(plain, state), state) == Ok::<Seq<u8>, CodecError>(plain),
        state_left(state, decoded(framed(plain, state), state), announced(framed(plain, state)))
            == state_left(state, encoded(plain, state), plain.len()),
{
    let frame = framed(plain, state);
    let header = be_bytes(plain.len(), 4);
    reveal_with_fuel(span, 5);
    lemma_be_value_of_be_bytes(plain.len(), 4);
    assert(frame.take(4) =~= header);
    assert(frame.subrange(4, 4 + plain.len() as int) =~= masked(plain, state));
    lemma_mask_is_involution(plain, state);
}

/// The round trip for two generators made from one seed.
pub proof fn lemma_round_trip_from_seed(seed: u64, plain: Seq<u8>)
    requires
        plain.len() <= MAX_MSG_LEN,
    ensures
        decoded(framed(plain, folded(seed)), folded(seed)) == Ok::<Seq<u8>, CodecError>(plain),
{
    lemma_round_trip(plain, folded(seed));
}

} // verus!
