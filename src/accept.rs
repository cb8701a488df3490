use vstd::prelude::*;
use vstd::string::*;
use vstd::utf8::*;

use crate::encoding::{
    base64_decode, base64_encode, is_base64_text, lemma_base64_round_trip, lemma_base64_text,
    lemma_base64_text_is_ascii,
};

verus! {

/// The fixed GUID that the WebSocket protocol appends to every handshake key.
pub const HANDSHAKE_GUID: &'static str = "258EAFA5-E914-47DA-95CA-C5AB0DC85B11";

/// The bytes of `HANDSHAKE_GUID`.
pub open spec fn guid_bytes() -> Seq<u8> {
    HANDSHAKE_GUID.spec_bytes()
}

/// The 20-byte SHA-1 digest of `data`.
pub uninterp spec fn sha1_of(data: Seq<u8>) -> Seq<u8>;

/// The bytes that are hashed for a key: the key followed by the GUID.
pub open spec fn handshake_bytes(key: Seq<u8>) -> Seq<u8> {
    key + guid_bytes()
}

/// The accept value for the key bytes `key`: the base64 text of the SHA-1
/// digest of the key followed by the GUID.
pub open spec fn accept_value(key: Seq<u8>) -> Seq<char> {
    base64_encode(sha1_of(handshake_bytes(key)))
}

/// The bytes of text that holds only ASCII characters, one byte per character.
pub open spec fn ascii_bytes(s: Seq<char>) -> Seq<u8> {
    s.map_values(|c: char| c as u8)
}

/// Relies on `sha1::Sha1::digest` (the `digest::Digest` trait): it returns the
/// SHA-1 digest of `data`, which depends on `data` alone and has 20 bytes.
#[verifier::external_body]
fn sha1_digest(data: &[u8]) -> (r: Vec<u8>)
    ensures
        r@ == sha1_of(data@),
        r@.len() == 20,
{
    <sha1::Sha1 as sha1::Digest>::digest(data).to_vec()
}

/// Relies on `base64::encode`: standard alphabet, `=` padding, no line
/// breaks. It panics only where the length of the text overflows `usize`.
#[verifier::external_body]
fn encode_base64(data: &[u8]) -> (r: String)
    requires
        data@.len() / 3 * 4 + 4 <= usize::MAX,
    ensures
        r@ == base64_encode(data@),
{
    base64::encode(data)
}

/// The bytes to hash for `key`: the key followed by the GUID.
pub fn handshake_input(key: &[u8]) -> (r: Vec<u8>)
    ensures
        r@ == handshake_bytes(key@),
{
    let guid = HANDSHAKE_GUID.as_bytes();
    let mut out: Vec<u8> = Vec::new();
    let mut i: usize = 0;
    while i < key.len()
        invariant
            i <= key@.len(),
            out@ == key@.subrange(0, i as int),
        decreases key@.len() - i,
    {
        out.push(key[i]);
        i = i + 1;
    }
    assert(out@ =~= key@);
    let mut j: usize = 0;
    while j < guid.len()
        invariant
            j <= guid@.len(),
            guid@ == guid_bytes(),
            out@ == key@ + guid@.subrange(0, j as int),
        decreases guid@.len() - j,
    {
        out.push(guid[j]);
        j = j + 1;
        assert(out@ =~= key@ + guid@.subrange(0, j as int));
    }
    assert(guid@.subrange(0, j as int) =~= guid@);
    out
}

/// The accept value for a given digest: its base64 text, which decodes back
/// to the digest.
pub fn accept_from_digest(digest: &[u8]) -> (r: String)
    requires
        digest@.len() / 3 * 4 + 4 <= usize::MAX,
    ensures
        r@ == base64_encode(digest@),
        r@.len() == 4 * ((digest@.len() + 2) / 3),
        is_base64_text(r@),
        base64_decode(r@) == digest@,
{
    let r = encode_base64(digest);
    proof {
        lemma_base64_text(digest@);
        lemma_base64_round_trip(digest@);
    }
    r
}

/// The accept value for the key bytes `key`.
pub fn accept_from_bytes(key: &[u8]) -> (r: String)
    ensures
        r@ == accept_value(key@),
        r@.len() == 28,
        is_base64_text(r@),
        base64_decode(r@) == sha1_of(handshake_bytes(key@)),
        base64_decode(r@).len() == 20,
{
    let input = handshake_input(key);
    let digest = sha1_digest(input.as_slice());
    accept_from_digest(digest.as_slice())
}

/// The `Sec-WebSocket-Accept` value for the handshake key `key`: the base64
/// text of the SHA-1 digest of the key's bytes followed by the GUID.
pub fn sec_websocket_accept(key: &str) -> (r: String)
    ensures
        r@ == accept_value(key.spec_bytes()),
        r@.len() == 28,
        is_base64_text(r@),
        base64_decode(r@) == sha1_of(handshake_bytes(key.spec_bytes())),
        base64_decode(r@).len() == 20,
{
    accept_from_bytes(key.as_bytes())
}

/// Fills `dest` with the accept value for the 24 key bytes in `key`, one byte
/// per character, with no terminator.
pub fn accept_into(key: &[u8; 24], dest: &mut [u8; 28])
    ensures
        final(dest)@ == ascii_bytes(accept_value(key@)),
{
    let value = accept_from_bytes(key.as_slice());
    let text = value.as_str();
    let bytes = text.as_bytes();
    proof {
        lemma_base64_text_is_ascii(value@);
        is_ascii_chars_encode_utf8(value@);
    }
    let mut i: usize = 0;
    while i < 28
        invariant
            i <= 28,
            bytes@ == encode_utf8(value@),
            value@.len() == 28,
            bytes@.len() == 28,
            forall|k: int| 0 <= k < 28 ==> #[trigger] bytes@[k] == value@[k] as u8,
            dest@.len() == 28,
            forall|k: int| 0 <= k < i ==> #[trigger] dest@[k] == bytes@[k],
        decreases 28 - i,
    {
        dest.set(i, bytes[i]);
        i = i + 1;
    }
    assert(dest@ =~= ascii_bytes(value@));
}

/// The accept value depends on the key alone: two keys with the same bytes
/// get the same value.
pub proof fn lemma_accept_deterministic(a: &str, b: &str)
    requires
        a@ == b@,
    ensures
        accept_value(a.spec_bytes()) == accept_value(b.spec_bytes()),
{
}

/// For any key, the bytes that `accept_into` writes for the key's bytes are
/// the bytes of the text that `sec_websocket_accept` returns for the key.
pub proof fn lemma_buffer_matches_text(key: &str, buf: [u8; 24])
    requires
        buf@ == key.spec_bytes(),
    ensures
        ascii_bytes(accept_value(buf@)) == encode_utf8(accept_value(key.spec_bytes())),
{
    let v = accept_value(buf@);
    lemma_base64_text(sha1_of(handshake_bytes(buf@)));
    lemma_base64_text_is_ascii(v);
    is_ascii_chars_encode_utf8(v);
    assert(ascii_bytes(v) =~= encode_utf8(v));
}

} // verus!
