//! Fixed-size wire frames: UTF-8 text, zero-padded to `FRAME_SIZE` bytes.

use vstd::prelude::*;
use vstd::utf8::*;
use std::string::FromUtf8Error;

verus! {

/// Number of bytes in every frame on the wire.
pub const FRAME_SIZE: usize = 32;

/// Why a text could not be framed, or a frame could not be read as text.
#[derive(Clone, Copy, Debug, PartialEq, Eq, Structural)]
pub enum FrameError {
    /// The UTF-8 encoding of the text is longer than `FRAME_SIZE` bytes.
    FrameTooLarge,
    /// The bytes before the first zero byte of the frame are not UTF-8.
    InvalidEncoding,
}

/// One message on the wire.
#[derive(Clone, Copy, Debug, PartialEq, Eq)]
pub struct Frame {
    pub bytes: [u8; FRAME_SIZE],
}

impl View for Frame {
    type V = Seq<u8>;

    open spec fn view(&self) -> Seq<u8> {
        self.bytes@
    }
}

/// `text` followed by as many zero bytes as it takes to fill a frame.
pub open spec fn padded(text: Seq<u8>) -> Seq<u8> {
    text + Seq::new((FRAME_SIZE - text.len()) as nat, |i: int| 0u8)
}

/// How many bytes stand before the first zero byte of `bytes`; all of them
/// when no byte is zero.
pub open spec fn text_len(bytes: Seq<u8>) -> nat
    decreases bytes.len(),
{
    if bytes.len() == 0 || bytes[0] == 0 {
        0
    } else {
        1 + text_len(bytes.drop_first())
    }
}

/// The bytes of `bytes` that stand before its first zero byte.
pub open spec fn payload(bytes: Seq<u8>) -> Seq<u8> {
    bytes.take(text_len(bytes) as int)
}

/// Whether the UTF-8 encoding of `text` fits one frame.
pub open spec fn fits(text: Seq<char>) -> bool {
    encode_utf8(text).len() <= FRAME_SIZE
}

/// What `encode` makes of a text: the frame's bytes, or the refusal.
pub open spec fn encoded(text: Seq<char>) -> Result<Seq<u8>, FrameError> {
    if fits(text) {
        Ok(padded(encode_utf8(text)))
    } else {
        Err(FrameError::FrameTooLarge)
    }
}

/// What `decode` makes of the bytes of a frame: the text that the payload
/// encodes, or the refusal.
pub open spec fn decoded(frame: Seq<u8>) -> Result<Seq<char>, FrameError> {
    if valid_utf8(payload(frame)) {
        Ok(decode_utf8(payload(frame)))
    } else {
        Err(FrameError::InvalidEncoding)
    }
}

/// The error of `String::from_utf8`, carried through unread.
#[verifier::external_type_specification]
#[verifier::external_body]
pub struct ExFromUtf8Error(FromUtf8Error);

/// `String::from_utf8` accepts exactly the byte vectors that are well-formed
/// UTF-8, and the string it returns has the given bytes as its encoding.
pub assume_specification[ String::from_utf8 ](vec: Vec<u8>) -> (r: Result<String, FromUtf8Error>)
    ensures
        r is Ok <==> valid_utf8(vec@),
        r matches Ok(s) ==> encode_utf8(s@) == vec@,
;

/// The frame that holds `text` and zero bytes behind it.
pub(crate) fn fill(text: &[u8]) -> (frame: Frame)
    requires
        text@.len() <= FRAME_SIZE,
    ensures
        frame@ == padded(text@),
{
    let mut bytes = [0u8; FRAME_SIZE];
    let mut i: usize = 0;
    while i < text.len()
        invariant
            i <= text@.len() <= FRAME_SIZE,
            forall|k: int| 0 <= k < i ==> bytes@[k] == text@[k],
            forall|k: int| i <= k < FRAME_SIZE ==> bytes@[k] == 0u8,
        decreases text@.len() - i,
    {
        bytes[i] = text[i];
        i = i + 1;
    }
    assert(bytes@ =~= padded(text@));
    Frame { bytes }
}

/// Frames `text`: its UTF-8 bytes, then zero bytes up to `FRAME_SIZE`. A
/// text of more than `FRAME_SIZE` bytes is refused.
pub fn encode(text: &str) -> (r: Result<Frame, FrameError>)
    ensures
        r is Ok <==> fits(text@),
        r matches Ok(frame) ==> encoded(text@) == Ok::<Seq<u8>, FrameError>(frame@),
        r matches Err(e) ==> encoded(text@) == Err::<Seq<u8>, FrameError>(e),
{
    let bytes = text.as_bytes();
    if bytes.len() > FRAME_SIZE {
        return Err(FrameError::FrameTooLarge);
    }
    Ok(fill(bytes))
}

/// `text_len` is the one position that ends a zero-free prefix at a zero
/// byte or at the end of the sequence.
pub proof fn lemma_text_len_unique(bytes: Seq<u8>, n: int)
    requires
        0 <= n <= bytes.len(),
        forall|k: int| 0 <= k < n ==> bytes[k] != 0,
        n == bytes.len() || bytes[n] == 0,
    ensures
        text_len(bytes) == n,
    decreases bytes.len(),
{
    if n > 0 {
        let rest = bytes.drop_first();
        assert forall|k: int| 0 <= k < n - 1 implies rest[k] != 0 by {
            assert(rest[k] == bytes[k + 1]);
        }
        lemma_text_len_unique(rest, n - 1);
    }
}

/// The payload is a zero-free prefix, and a zero byte follows it unless it
/// is the whole sequence.
pub proof fn lemma_text_len_bounds(bytes: Seq<u8>)
    ensures
        text_len(bytes) <= bytes.len(),
        forall|k: int| 0 <= k < text_len(bytes) ==> bytes[k] != 0,
        text_len(bytes) == bytes.len() || bytes[text_len(bytes) as int] == 0,
    decreases bytes.len(),
{
    if bytes.len() != 0 && bytes[0] != 0 {
        let rest = bytes.drop_first();
        lemma_text_len_bounds(rest);
        assert forall|k: int| 0 <= k < text_len(bytes) implies bytes[k] != 0 by {
            if k > 0 {
                assert(rest[k - 1] == bytes[k]);
            }
        }
    }
}

/// Reads the text of `frame`: the bytes before its first zero byte, or all
/// of them when none is zero, taken as UTF-8. Bytes that are not UTF-8 are
/// refused.
pub fn decode(frame: &Frame) -> (r: Result<String, FrameError>)
    ensures
        r is Ok <==> valid_utf8(payload(frame@)),
        r matches Ok(text) ==> decoded(frame@) == Ok::<Seq<char>, FrameError>(text@),
        r matches Err(e) ==> decoded(frame@) == Err::<Seq<char>, FrameError>(e),
{
    let mut text: Vec<u8> = Vec::new();
    let mut i: usize = 0;
    while i < FRAME_SIZE && frame.bytes[i] != 0
        invariant
            i <= FRAME_SIZE,
            text@ == frame@.take(i as int),
            forall|k: int| 0 <= k < i ==> frame@[k] != 0,
        decreases FRAME_SIZE - i,
    {
        text.push(frame.bytes[i]);
        i = i + 1;
    }
    proof {
        lemma_text_len_unique(frame@, i as int);
    }
    match String::from_utf8(text) {
        Ok(s) => {
            proof {
                encode_utf8_decode_utf8(s@);
            }
            Ok(s)
        },
        Err(_) => Err(FrameError::InvalidEncoding),
    }
}

proof fn lemma_scalar_bytes(c: u32)
    by (bit_vector)
    ensures
        has_width_1_encoding(c) ==> (leading_byte_width_1(c) == 0 <==> c == 0),
        leading_byte_width_2(c) != 0,
        leading_byte_width_3(c) != 0,
        leading_byte_width_4(c) != 0,
        last_continuation_byte(c) != 0,
        second_last_continuation_byte(c) != 0,
        third_last_continuation_byte(c) != 0,
{
}

/// The encoding of a text holds a zero byte exactly when the text holds the
/// character `'\0'`.
pub proof fn lemma_zero_byte_is_nul(text: Seq<char>)
    ensures
        encode_utf8(text).contains(0u8) <==> text.contains('\0'),
    decreases text.len(),
{
    if text.len() > 0 {
        let head = encode_scalar(text[0] as u32);
        let rest = text.drop_first();
        let tail = encode_utf8(rest);
        lemma_scalar_bytes(text[0] as u32);
        lemma_zero_byte_is_nul(rest);
        assert(head.contains(0u8) <==> text[0] == '\0') by {
            let c = text[0] as u32;
            char_is_scalar(text[0]);
            char_u32_cast(text[0], c);
            char_u32_cast('\0', 0u32);
            if head.contains(0u8) {
                let k = choose|k: int| 0 <= k < head.len() && head[k] == 0u8;
                assert(has_width_1_encoding(c) && k == 0);
            }
            if text[0] == '\0' {
                assert(head[0] == 0u8);
            }
        }
        if encode_utf8(text).contains(0u8) {
            let k = choose|k: int| 0 <= k < (head + tail).len() && (head + tail)[k] == 0u8;
            if k < head.len() {
                assert(head[k] == 0u8);
                assert(text.contains(text[0]));
            } else {
                assert(tail[k - head.len()] == 0u8);
                let j = choose|j: int| 0 <= j < rest.len() && rest[j] == '\0';
                assert(text[j + 1] == '\0');
            }
        }
        if text.contains('\0') {
            let j = choose|j: int| 0 <= j < text.len() && text[j] == '\0';
            if j == 0 {
                assert((head + tail)[0] == 0u8);
            } else {
                assert(rest[j - 1] == '\0');
                let k = choose|k: int| 0 <= k < tail.len() && tail[k] == 0u8;
                assert((head + tail)[head.len() + k] == 0u8);
            }
        }
    }
}

/// A text that fits a frame and whose encoding holds no zero byte comes back
/// unchanged from decoding its frame.
pub proof fn lemma_round_trip(text: Seq<char>)
    requires
        fits(text),
        !encode_utf8(text).contains(0u8),
    ensures
        encoded(text) == Ok::<Seq<u8>, FrameError>(padded(encode_utf8(text))),
        decoded(padded(encode_utf8(text))) == Ok::<Seq<char>, FrameError>(text),
{
    let bytes = encode_utf8(text);
    let frame = padded(bytes);
    assert forall|k: int| 0 <= k < bytes.len() implies frame[k] != 0 by {
        assert(bytes.contains(bytes[k]));
    }
    lemma_text_len_unique(frame, bytes.len() as int);
    assert(payload(frame) =~= bytes);
    encode_utf8_valid_utf8(text);
    encode_utf8_decode_utf8(text);
}

/// The text of a frame that decodes can be framed again, and the new frame
/// decodes to the same text.
pub proof fn lemma_decoded_text_round_trips(frame: Seq<u8>)
    requires
        frame.len() == FRAME_SIZE,
        valid_utf8(payload(frame)),
    ensures
        fits(decode_utf8(payload(frame))),
        !encode_utf8(decode_utf8(payload(frame))).contains(0u8),
        decoded(padded(encode_utf8(decode_utf8(payload(frame))))) == decoded(frame),
{
    lemma_text_len_bounds(frame);
    decode_utf8_encode_utf8(payload(frame));
    lemma_round_trip(decode_utf8(payload(frame)));
}

} // verus!
