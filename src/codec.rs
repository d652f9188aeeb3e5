//! Fixed-width frames: a UTF-8 message padded with zero bytes to `FRAME_SIZE`.
use vstd::prelude::*;
use vstd::utf8::{
    decode_utf8, encode_scalar, encode_utf8, has_width_1_encoding, has_width_2_encoding,
    has_width_3_encoding, is_scalar, valid_utf8,
};

verus! {

/// Width in bytes of every frame on the wire.
pub const FRAME_SIZE: usize = 32;

/// Why a message could not be turned into a frame or back.
#[derive(Debug, Clone, Copy, PartialEq, Eq, Structural)]
pub enum CodecError {
    /// The message's UTF-8 encoding is longer than a frame.
    FrameTooLarge,
    /// The bytes before the first zero byte are not well-formed UTF-8.
    InvalidEncoding,
}

/// The frame that carries `payload`: the bytes, then zeros up to `FRAME_SIZE`.
pub open spec fn padded(payload: Seq<u8>) -> Seq<u8> {
    payload + Seq::new((FRAME_SIZE - payload.len()) as nat, |_i: int| 0u8)
}

/// The frame for a message, or `None` when its encoding does not fit.
pub open spec fn encoded_frame(msg: Seq<char>) -> Option<Seq<u8>> {
    if encode_utf8(msg).len() <= FRAME_SIZE {
        Some(padded(encode_utf8(msg)))
    } else {
        None
    }
}

/// Number of bytes before the first zero byte (all of them if there is none).
pub open spec fn payload_len(frame: Seq<u8>) -> nat
    decreases frame.len(),
{
    if frame.len() == 0 || frame[0] == 0 {
        0
    } else {
        1 + payload_len(frame.drop_first())
    }
}

/// The bytes of a frame that precede its first zero byte.
pub open spec fn payload(frame: Seq<u8>) -> Seq<u8> {
    frame.take(payload_len(frame) as int)
}

/// The text a frame carries, or `None` when its payload is not UTF-8.
pub open spec fn decoded_text(frame: Seq<u8>) -> Option<Seq<char>> {
    if valid_utf8(payload(frame)) {
        Some(decode_utf8(payload(frame)))
    } else {
        None
    }
}

/// `n` is the position of the first zero byte of `frame`, or its length.
pub proof fn lemma_payload_len_is_first_zero(frame: Seq<u8>, n: int)
    requires
        0 <= n <= frame.len(),
        forall|j: int| 0 <= j < n ==> frame[j] != 0,
        n == frame.len() || frame[n] == 0,
    ensures
        payload_len(frame) == n,
    decreases n,
{
    if n > 0 {
        let rest = frame.drop_first();
        assert forall|j: int| 0 <= j < n - 1 implies rest[j] != 0 by {
            assert(rest[j] == frame[j + 1]);
        }
        if n < frame.len() {
            assert(rest[n - 1] == frame[n]);
        }
        lemma_payload_len_is_first_zero(rest, n - 1);
    }
}

/// The payload ends at the first zero byte: it is no longer than the frame
/// and holds no zero byte.
pub proof fn lemma_payload_has_no_zero_byte(frame: Seq<u8>)
    ensures
        payload_len(frame) <= frame.len(),
        forall|j: int| 0 <= j < payload_len(frame) ==> frame[j] != 0,
    decreases frame.len(),
{
    if frame.len() > 0 && frame[0] != 0 {
        let rest = frame.drop_first();
        lemma_payload_has_no_zero_byte(rest);
        assert forall|j: int| 0 <= j < payload_len(frame) implies frame[j] != 0 by {
            if j > 0 {
                assert(frame[j] == rest[j - 1]);
            }
        }
    }
}

/// Relies on `String::from_utf8`: it succeeds exactly when the bytes are
/// well-formed UTF-8, and the string it returns holds those very bytes.
#[verifier::external_body]
fn string_from_utf8(bytes: Vec<u8>) -> (r: Option<String>)
    ensures
        match r {
            Some(s) => valid_utf8(bytes@) && encode_utf8(s@) == bytes@,
            None => !valid_utf8(bytes@),
        },
{
    String::from_utf8(bytes).ok()
}

/// Encodes `msg` as one frame: its UTF-8 bytes followed by zero bytes.
pub fn encode(msg: &str) -> (r: Result<Vec<u8>, CodecError>)
    ensures
        match r {
            Ok(frame) => encoded_frame(msg@) == Some(frame@),
            Err(e) => encoded_frame(msg@) is None && e == CodecError::FrameTooLarge,
        },
{
    let bytes = msg.as_bytes();
    if bytes.len() > FRAME_SIZE {
        return Err(CodecError::FrameTooLarge);
    }
    let ghost want = padded(bytes@);
    let mut frame: Vec<u8> = Vec::with_capacity(FRAME_SIZE);
    let mut i: usize = 0;
    while i < FRAME_SIZE
        invariant
            bytes@ == encode_utf8(msg@),
            bytes@.len() <= FRAME_SIZE,
            want == padded(bytes@),
            i <= FRAME_SIZE,
            frame@ == want.take(i as int),
        decreases FRAME_SIZE - i,
    {
        if i < bytes.len() {
            frame.push(bytes[i]);
        } else {
            frame.push(0u8);
        }
        assert(frame@ =~= want.take(i + 1));
        i += 1;
    }
    assert(frame@ =~= want);
    Ok(frame)
}

/// Decodes a frame: the bytes before its first zero byte, read as UTF-8.
pub fn decode(frame: &[u8]) -> (r: Result<String, CodecError>)
    ensures
        match r {
            Ok(s) => decoded_text(frame@) == Some(s@),
            Err(e) => decoded_text(frame@) is None && e == CodecError::InvalidEncoding,
        },
{
    let mut n: usize = 0;
    while n < frame.len() && frame[n] != 0
        invariant
            n <= frame@.len(),
            forall|j: int| 0 <= j < n ==> frame@[j] != 0,
        decreases frame.len() - n,
    {
        n += 1;
    }
    proof {
        lemma_payload_len_is_first_zero(frame@, n as int);
    }
    let mut bytes: Vec<u8> = Vec::with_capacity(n);
    let mut i: usize = 0;
    while i < n
        invariant
            n <= frame@.len(),
            i <= n,
            bytes@ == frame@.take(i as int),
        decreases n - i,
    {
        bytes.push(frame[i]);
        assert(bytes@ =~= frame@.take(i + 1));
        i += 1;
    }
    assert(bytes@ =~= payload(frame@));
    match string_from_utf8(bytes) {
        Some(s) => {
            proof {
                vstd::utf8::encode_utf8_decode_utf8(s@);
            }
            Ok(s)
        },
        None => Err(CodecError::InvalidEncoding),
    }
}

/// No byte of a scalar's UTF-8 encoding is zero unless the scalar is zero.
proof fn lemma_scalar_bytes_nonzero(c: u32)
    requires
        is_scalar(c),
        c != 0,
    ensures
        forall|j: int| 0 <= j < encode_scalar(c).len() ==> encode_scalar(c)[j] != 0,
{
    assert(0x80u8 | (c & 0x3F) as u8 != 0) by (bit_vector);
    assert(0x80u8 | ((c >> 6) & 0x3F) as u8 != 0) by (bit_vector);
    assert(0x80u8 | ((c >> 12) & 0x3F) as u8 != 0) by (bit_vector);
    if has_width_1_encoding(c) {
        assert((c & 0x7F) as u8 != 0) by (bit_vector)
            requires
                c <= 0x7F,
                c != 0,
        ;
    } else if has_width_2_encoding(c) {
        assert(0xC0u8 | ((c >> 6) & 0x1F) as u8 != 0) by (bit_vector);
    } else if has_width_3_encoding(c) {
        assert(0xE0u8 | ((c >> 12) & 0x0F) as u8 != 0) by (bit_vector);
    } else {
        assert(0xF0u8 | ((c >> 18) & 0x7) as u8 != 0) by (bit_vector);
    }
}

/// A message without the NUL character encodes to UTF-8 bytes none of which is zero.
pub proof fn lemma_encoding_has_no_zero_byte(msg: Seq<char>)
    requires
        !msg.contains('\0'),
    ensures
        forall|j: int| 0 <= j < encode_utf8(msg).len() ==> encode_utf8(msg)[j] != 0,
    decreases msg.len(),
{
    if msg.len() > 0 {
        let rest = msg.drop_first();
        assert(!rest.contains('\0')) by {
            if rest.contains('\0') {
                let k = choose|k: int| 0 <= k < rest.len() && rest[k] == '\0';
                assert(msg[k + 1] == '\0');
            }
        }
        lemma_encoding_has_no_zero_byte(rest);
        let c = msg[0] as u32;
        vstd::utf8::char_is_scalar(msg[0]);
        assert(msg[0] != '\0');
        assert(c != 0) by {
            vstd::utf8::char_u32_cast(msg[0], c);
        }
        lemma_scalar_bytes_nonzero(c);
        let head = encode_scalar(c);
        let tail = encode_utf8(rest);
        assert(encode_utf8(msg) == head + tail);
        assert forall|j: int| 0 <= j < encode_utf8(msg).len() implies encode_utf8(msg)[j] != 0 by {
            if j >= head.len() {
                assert(encode_utf8(msg)[j] == tail[j - head.len()]);
            }
        }
    }
}

/// Round trip: a message that fits in a frame and holds no NUL character is
/// decoded from its frame exactly as it was. (A NUL character would end the
/// payload early, since decoding stops at the first zero byte.)
pub proof fn lemma_round_trip(msg: Seq<char>)
    requires
        encode_utf8(msg).len() <= FRAME_SIZE,
        !msg.contains('\0'),
    ensures
        encoded_frame(msg) is Some,
        decoded_text(encoded_frame(msg)->Some_0) == Some(msg),
{
    let bytes = encode_utf8(msg);
    let frame = padded(bytes);
    lemma_encoding_has_no_zero_byte(msg);
    assert forall|j: int| 0 <= j < bytes.len() implies frame[j] != 0 by {
        assert(frame[j] == bytes[j]);
    }
    lemma_payload_len_is_first_zero(frame, bytes.len() as int);
    assert(payload(frame) =~= bytes);
    vstd::utf8::encode_utf8_valid_utf8(msg);
    vstd::utf8::encode_utf8_decode_utf8(msg);
}

/// Relaying keeps the text: a message decoded from a frame fits in a frame
/// again, and the frame it is encoded to decodes to that same message.
pub proof fn lemma_relayed_text_preserved(frame: Seq<u8>)
    requires
        frame.len() <= FRAME_SIZE,
        decoded_text(frame) is Some,
    ensures
        encoded_frame(decoded_text(frame)->Some_0) is Some,
        decoded_text(encoded_frame(decoded_text(frame)->Some_0)->Some_0) == decoded_text(frame),
{
    let bytes = payload(frame);
    let msg = decode_utf8(bytes);
    lemma_payload_has_no_zero_byte(frame);
    vstd::utf8::decode_utf8_encode_utf8(bytes);
    assert(encode_utf8(msg) == bytes);
    let out = padded(bytes);
    assert forall|j: int| 0 <= j < bytes.len() implies out[j] != 0 by {
        assert(out[j] == bytes[j]);
        assert(bytes[j] == frame[j]);
    }
    lemma_payload_len_is_first_zero(out, bytes.len() as int);
    assert(payload(out) =~= bytes);
}

/// Overflow rejection: a message whose UTF-8 encoding is longer than a frame
/// has no frame.
pub proof fn lemma_oversized_rejected(msg: Seq<char>)
    requires
        encode_utf8(msg).len() > FRAME_SIZE,
    ensures
        encoded_frame(msg) is None,
{
}

/// Encoding is deterministic: two frames produced for the same message are
/// byte for byte the same, and always exactly `FRAME_SIZE` bytes long.
pub proof fn lemma_encoding_deterministic(msg: Seq<char>, a: Seq<u8>, b: Seq<u8>)
    requires
        encoded_frame(msg) == Some(a),
        encoded_frame(msg) == Some(b),
    ensures
        a == b,
        a.len() == FRAME_SIZE,
{
}

} // verus!
