//! The wire format: every message travels as a frame of exactly
//! `MAX_MSG_LENGTH` bytes, its UTF-8 text followed by zero bytes.
use vstd::prelude::*;
use vstd::string::StrSliceExecFns;
use vstd::utf8::{decode_utf8, encode_utf8, encode_utf8_decode_utf8, encode_utf8_valid_utf8, valid_utf8};

verus! {

/// Size in bytes of every frame, in both directions.
pub const MAX_MSG_LENGTH: usize = 32;

/// The frame that carries `bytes`: the first `MAX_MSG_LENGTH` of them, then
/// zero bytes up to that length.
pub open spec fn frame_of(bytes: Seq<u8>) -> Seq<u8> {
    Seq::new(MAX_MSG_LENGTH as nat, |i: int| if i < bytes.len() { bytes[i] } else { 0u8 })
}

/// The bytes of `f` before its first zero byte. In a well-formed frame a zero
/// byte always ends the payload, which is therefore shorter than the frame.
pub open spec fn payload(f: Seq<u8>) -> Seq<u8>
    decreases f.len(),
{
    if f.len() == 0 || f[0] == 0 {
        Seq::empty()
    } else {
        seq![f[0]] + payload(f.drop_first())
    }
}

/// The text that `f` carries: present exactly when `f` has the frame size,
/// holds a zero byte that ends its payload, and that payload is well-formed
/// UTF-8. A decoded message therefore has at most `MAX_MSG_LENGTH - 1` bytes.
pub open spec fn frame_text(f: Seq<u8>) -> Option<Seq<char>> {
    if f.len() == MAX_MSG_LENGTH && payload(f).len() < MAX_MSG_LENGTH && valid_utf8(payload(f)) {
        Some(decode_utf8(payload(f)))
    } else {
        None
    }
}

/// Why a frame could not be decoded.
#[derive(PartialEq, Eq, Structural, Debug, Clone, Copy)]
pub enum FrameError {
    /// The buffer is not exactly `MAX_MSG_LENGTH` bytes long.
    WrongLength,
    /// The frame holds no zero byte, so its payload has no end.
    Unterminated,
    /// The payload is not well-formed UTF-8.
    NotText,
}

/// The payload of `f` is its first `k` bytes when those are nonzero and the
/// next one, if any, is zero.
proof fn lemma_payload_is_prefix(f: Seq<u8>, k: int)
    requires
        0 <= k <= f.len(),
        forall|j: int| 0 <= j < k ==> f[j] != 0,
        k == f.len() || f[k] == 0,
    ensures
        payload(f) == f.take(k),
    decreases k,
{
    if k > 0 {
        let rest = f.drop_first();
        assert forall|j: int| 0 <= j < k - 1 implies rest[j] != 0 by {
            assert(rest[j] == f[j + 1]);
        }
        lemma_payload_is_prefix(rest, k - 1);
        assert(f.take(k) =~= seq![f[0]] + rest.take(k - 1));
    } else {
        assert(f.take(0) =~= Seq::<u8>::empty());
    }
}

/// Encoding then decoding gives back any text whose UTF-8 bytes hold no zero
/// byte and number fewer than `MAX_MSG_LENGTH`.
pub proof fn lemma_frame_round_trip(text: Seq<char>)
    requires
        encode_utf8(text).len() < MAX_MSG_LENGTH,
        !encode_utf8(text).contains(0u8),
    ensures
        frame_of(encode_utf8(text)).len() == MAX_MSG_LENGTH,
        frame_text(frame_of(encode_utf8(text))) == Some(text),
{
    let b = encode_utf8(text);
    let f = frame_of(b);
    assert forall|j: int| 0 <= j < b.len() implies f[j] != 0 by {
        if f[j] == 0 {
            assert(b[j] == 0u8);
            assert(b.contains(0u8));
        }
    }
    lemma_payload_is_prefix(f, b.len() as int);
    assert(f.take(b.len() as int) =~= b);
    encode_utf8_valid_utf8(text);
    encode_utf8_decode_utf8(text);
}

/// A frame always has `MAX_MSG_LENGTH` bytes: longer text is cut at byte
/// index `MAX_MSG_LENGTH`, shorter text is followed by zero bytes.
pub proof fn lemma_frame_truncates(text: Seq<char>)
    ensures
        frame_of(encode_utf8(text)).len() == MAX_MSG_LENGTH,
        encode_utf8(text).len() >= MAX_MSG_LENGTH ==> frame_of(encode_utf8(text))
            == encode_utf8(text).take(MAX_MSG_LENGTH as int),
        encode_utf8(text).len() < MAX_MSG_LENGTH ==> frame_of(encode_utf8(text))
            == encode_utf8(text) + Seq::new(
            (MAX_MSG_LENGTH - encode_utf8(text).len()) as nat,
            |i: int| 0u8,
        ),
{
    let b = encode_utf8(text);
    if b.len() >= MAX_MSG_LENGTH {
        assert(frame_of(b) =~= b.take(MAX_MSG_LENGTH as int));
    } else {
        assert(frame_of(b) =~= b + Seq::new((MAX_MSG_LENGTH - b.len()) as nat, |i: int| 0u8));
    }
}

/// Builds the frame for `text`: its UTF-8 bytes, cut or padded with zero
/// bytes to `MAX_MSG_LENGTH`.
pub fn encode_frame(text: &str) -> (r: Vec<u8>)
    ensures
        r@ == frame_of(encode_utf8(text@)),
{
    let mut buf = text.as_bytes_vec();
    buf.resize(MAX_MSG_LENGTH, 0u8);
    assert(buf@ =~= frame_of(encode_utf8(text@)));
    buf
}

/// The number of bytes of `f` before its first zero byte.
pub fn payload_len(f: &[u8]) -> (k: usize)
    ensures
        k <= f@.len(),
        payload(f@) == f@.take(k as int),
        forall|j: int| 0 <= j < k ==> f@[j] != 0,
        k < f@.len() ==> f@[k as int] == 0,
{
    let mut k: usize = 0;
    while k < f.len() && f[k] != 0
        invariant
            k <= f@.len(),
            forall|j: int| 0 <= j < k ==> f@[j] != 0,
        decreases f@.len() - k,
    {
        k = k + 1;
    }
    proof {
        lemma_payload_is_prefix(f@, k as int);
    }
    k
}

/// Relies on `String::from_utf8`: `Ok` exactly when the bytes are well-formed
/// UTF-8, and then the string holds those very bytes.
#[verifier::external_body]
fn string_from_utf8(bytes: Vec<u8>) -> (r: Option<String>)
    ensures
        r is Some <==> valid_utf8(bytes@),
        r matches Some(s) ==> encode_utf8(s@) == bytes@,
{
    String::from_utf8(bytes).ok()
}

/// Decodes a frame into the text it carries.
pub fn decode_frame(f: &[u8]) -> (r: Result<String, FrameError>)
    ensures
        r is Err && r->Err_0 == FrameError::WrongLength <==> f@.len() != MAX_MSG_LENGTH,
        r is Err && r->Err_0 == FrameError::Unterminated <==> f@.len() == MAX_MSG_LENGTH
            && !f@.contains(0u8),
        r is Err && r->Err_0 == FrameError::NotText <==> f@.len() == MAX_MSG_LENGTH
            && f@.contains(0u8) && !valid_utf8(payload(f@)),
        r is Ok <==> frame_text(f@) is Some,
        r matches Ok(s) ==> frame_text(f@) == Some(s@) && encode_utf8(s@).len() < MAX_MSG_LENGTH,
{
    if f.len() != MAX_MSG_LENGTH {
        return Err(FrameError::WrongLength);
    }
    let k = payload_len(f);
    if k == f.len() {
        assert(!f@.contains(0u8));
        return Err(FrameError::Unterminated);
    }
    assert(f@.contains(0u8)) by {
        assert(f@[k as int] == 0);
    }
    let mut bytes: Vec<u8> = Vec::new();
    let mut i: usize = 0;
    while i < k
        invariant
            k <= f@.len(),
            i <= k,
            bytes@ == f@.take(i as int),
        decreases k - i,
    {
        bytes.push(f[i]);
        i = i + 1;
        assert(bytes@ =~= f@.take(i as int));
    }
    match string_from_utf8(bytes) {
        Some(s) => {
            proof {
                encode_utf8_decode_utf8(s@);
            }
            Ok(s)
        },
        None => Err(FrameError::NotText),
    }
}

} // verus!
