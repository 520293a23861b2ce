//! The opening handshake: the accept token that answers a client's key.

use vstd::prelude::*;
use vstd::string::StringSliceAdditionalSpecFns;
use vstd::utf8::encode_utf8;
use sha1::{Digest, Sha1};
use crate::text::lemma_encode_utf8_concat;
use crate::ws::base64::{base64_encode, hash_to_base64};

verus! {

/// The fixed identifier that is appended to the client's key.
pub const GUID: &'static str = "258EAFA5-E914-47DA-95CA-C5AB0DC85B11";

/// Messages of 2^61 bytes or more are beyond what SHA-1 is defined for.
pub const SHA1_LIMIT: u64 = 0x2000_0000_0000_0000;

/// The SHA-1 hash of `data`, as the `sha1` crate computes it. The function is
/// not written out here; it is known only through the calls that compute it.
pub uninterp spec fn sha1_hash(data: Seq<u8>) -> Seq<u8>;

/// Runs `sha1::Sha1` over `data`: `new`, one `update` with all the bytes,
/// `finalize`. The contract names the 20 bytes that come back; that they are
/// the SHA-1 hash of `data` rests on the `sha1` crate and is not proved here.
/// Inputs from 2^61 bytes on are left out: the crate counts their bits in 64
/// bits.
#[verifier::external_body]
fn sha1_digest(data: &[u8]) -> (digest: [u8; 20])
    requires
        data@.len() < SHA1_LIMIT,
    ensures
        digest@ == sha1_hash(data@),
{
    let mut hasher = Sha1::new();
    hasher.update(data);
    hasher.finalize().into()
}

/// The accept token for a client's key: the key followed by the fixed
/// identifier, the SHA-1 hash of the UTF-8 bytes of that, in base64.
pub open spec fn handshake_token(key: Seq<char>) -> Seq<char> {
    base64_encode(sha1_hash(encode_utf8(key + GUID@)))
}

/// Computes the accept token for a client's key. The token has 28
/// characters.
pub fn accept_token(key: &str) -> (r: String)
    requires
        encode_utf8(key@).len() + 36 < SHA1_LIMIT,
    ensures
        r@ == handshake_token(key@),
        r@.len() == 28,
{
    let mut concat: Vec<u8> = Vec::new();
    concat.extend_from_slice(key.as_bytes());
    concat.extend_from_slice(GUID.as_bytes());
    proof {
        reveal_strlit("258EAFA5-E914-47DA-95CA-C5AB0DC85B11");
        vstd::string::is_ascii_spec_bytes(GUID);
        lemma_encode_utf8_concat(key@, GUID@);
        assert(concat@ =~= encode_utf8(key@) + encode_utf8(GUID@));
    }
    let hash: [u8; 20] = sha1_digest(concat.as_slice());
    hash_to_base64(hash.as_slice())
}

} // verus!
