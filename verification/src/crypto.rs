//! Crypto envelope: authenticated encryption of one fragment's payload,
//! keyed by a pre-shared 32-byte key and a 12-byte nonce derived
//! deterministically from the message identifier and fragment index.
//! Decryption failure means "reject this fragment", never a fatal error.

use vstd::prelude::*;
use crate::codec::u32_to_le;
use chacha20poly1305::aead::{Aead, KeyInit};
use sha2::Digest;

verus! {

/// Length of the pre-shared key in bytes.
pub const KEY_LEN: usize = 32;

/// Length of the AEAD nonce in bytes.
pub const NONCE_LEN: usize = 12;

/// Bytes the authentication tag adds to a ciphertext.
pub const TAG_OVERHEAD: usize = 16;

/// Largest plaintext the envelope accepts; far above any fragment payload,
/// far below the cipher's own message limit.
pub const MAX_PLAINTEXT_LEN: usize = 1024;

/// The nonce for one fragment: the four little-endian bytes of `msg_id`,
/// then `seq_no`, then seven zero bytes. Distinct `(msg_id, seq_no)` pairs
/// give distinct nonces, so a nonce never repeats under one key as long as
/// message identifiers are not reused.
pub open spec fn spec_nonce(msg_id: u32, seq_no: u8) -> Seq<u8> {
    u32_to_le(msg_id) + seq![seq_no, 0u8, 0u8, 0u8, 0u8, 0u8, 0u8, 0u8]
}

/// The ciphertext that the AEAD cipher produces for a key, nonce and
/// plaintext; a pure function of the three.
pub uninterp spec fn sealed_box(key: Seq<u8>, nonce: Seq<u8>, cipher_text: Seq<u8>) -> Seq<u8>;

/// What AEAD decryption returns for a key, nonce and ciphertext: the
/// plaintext if the ciphertext authenticates under that key and nonce,
/// `None` otherwise; a pure function of the three.
pub uninterp spec fn opened_box(key: Seq<u8>, nonce: Seq<u8>, cipher_text: Seq<u8>) -> Option<
    Seq<u8>,
>;

/// The SHA-256 digest of a text, as 32 bytes; a pure function of the text.
pub uninterp spec fn sha256_of_text(s: Seq<char>) -> Seq<u8>;

/// Relies on chacha20poly1305::ChaCha20Poly1305 through aead::Aead::encrypt:
/// the ciphertext is a function of key, nonce and plaintext alone, carries a
/// 16-byte authentication tag after the encrypted bytes, and decrypting it
/// with the same key and nonce returns the plaintext. The cipher refuses
/// only messages of at least 2^32 blocks, far above `MAX_PLAINTEXT_LEN`.
#[verifier::external_body]
fn aead_seal(key: &[u8], nonce: &[u8], plain: &[u8]) -> (r: Option<Vec<u8>>)
    requires
        key@.len() == KEY_LEN,
        nonce@.len() == NONCE_LEN,
        plain@.len() <= MAX_PLAINTEXT_LEN,
    ensures
        r matches Some(c) ==> c@ == sealed_box(key@, nonce@, plain@) && c@.len() == plain@.len()
            + TAG_OVERHEAD && opened_box(key@, nonce@, c@) == Some(plain@),
        r is Some,
{
    let cipher = chacha20poly1305::ChaCha20Poly1305::new(chacha20poly1305::Key::from_slice(key));
    cipher.encrypt(chacha20poly1305::Nonce::from_slice(nonce), plain).ok()
}

/// Relies on chacha20poly1305::ChaCha20Poly1305 through aead::Aead::decrypt:
/// the result is a function of key, nonce and ciphertext alone; a ciphertext
/// that does not authenticate under the key and nonce is rejected.
#[verifier::external_body]
fn aead_open(key: &[u8], nonce: &[u8], cipher_text: &[u8]) -> (r: Option<Vec<u8>>)
    requires
        key@.len() == KEY_LEN,
        nonce@.len() == NONCE_LEN,
    ensures
        match r {
            Some(p) => opened_box(key@, nonce@, cipher_text@) == Some(p@),
            None => opened_box(key@, nonce@, cipher_text@) is None,
        },
{
    let cipher = chacha20poly1305::ChaCha20Poly1305::new(chacha20poly1305::Key::from_slice(key));
    cipher.decrypt(chacha20poly1305::Nonce::from_slice(nonce), cipher_text).ok()
}

/// Relies on sha2::Sha256::digest: a 32-byte digest that is a function of
/// the input bytes alone.
#[verifier::external_body]
fn sha256_digest_text(s: &str) -> (r: Vec<u8>)
    ensures
        r@ == sha256_of_text(s@),
        r@.len() == 32,
{
    sha2::Sha256::digest(s.as_bytes()).to_vec()
}

/// The 12 nonce bytes for a fragment.
pub fn nonce_bytes(msg_id: u32, seq_no: u8) -> (r: Vec<u8>)
    ensures
        r@ == spec_nonce(msg_id, seq_no),
        r@.len() == NONCE_LEN,
{
    let mut b: Vec<u8> = Vec::new();
    b.push(#[verifier::truncate] ((msg_id & 0xff) as u8));
    b.push(#[verifier::truncate] (((msg_id >> 8) & 0xff) as u8));
    b.push(#[verifier::truncate] (((msg_id >> 16) & 0xff) as u8));
    b.push(#[verifier::truncate] (((msg_id >> 24) & 0xff) as u8));
    b.push(seq_no);
    let mut k: usize = 0;
    while k < 7
        invariant
            k <= 7,
            b@ == spec_nonce(msg_id, seq_no).take(5 + k),
        decreases 7 - k,
    {
        b.push(0);
        proof {
            assert(b@ =~= spec_nonce(msg_id, seq_no).take(5 + k + 1));
        }
        k = k + 1;
    }
    proof {
        assert(b@ =~= spec_nonce(msg_id, seq_no));
    }
    b
}

/// Encrypt one fragment's payload under the pre-shared key and the nonce
/// derived from `(msg_id, seq_no)`. Always succeeds for payloads within
/// `MAX_PLAINTEXT_LEN`; decrypting the result with the same key, message
/// identifier and fragment index returns the payload.
pub fn encrypt(key: &[u8], msg_id: u32, seq_no: u8, payload: &[u8]) -> (r: Vec<u8>)
    requires
        key@.len() == KEY_LEN,
        payload@.len() <= MAX_PLAINTEXT_LEN,
    ensures
        r@ == sealed_box(key@, spec_nonce(msg_id, seq_no), payload@),
        r@.len() == payload@.len() + TAG_OVERHEAD,
        opened_box(key@, spec_nonce(msg_id, seq_no), r@) == Some(payload@),
{
    let nonce = nonce_bytes(msg_id, seq_no);
    match aead_seal(key, nonce.as_slice(), payload) {
        Some(c) => c,
        None => {
            proof {
                assert(false);
            }
            Vec::new()
        },
    }
}

/// Decrypt one fragment's payload. Returns `None` when the ciphertext does
/// not authenticate under this key and nonce (wrong key, tampering, or
/// corruption); the caller drops such a fragment silently.
pub fn decrypt(key: &[u8], msg_id: u32, seq_no: u8, payload: &[u8]) -> (r: Option<Vec<u8>>)
    requires
        key@.len() == KEY_LEN,
    ensures
        match r {
            Some(p) => opened_box(key@, spec_nonce(msg_id, seq_no), payload@) == Some(p@),
            None => opened_box(key@, spec_nonce(msg_id, seq_no), payload@) is None,
        },
{
    let nonce = nonce_bytes(msg_id, seq_no);
    aead_open(key, nonce.as_slice(), payload)
}

/// Derive the pre-shared key from a passphrase: its SHA-256 digest.
pub fn derive_key(passphrase: &str) -> (r: Vec<u8>)
    ensures
        r@ == sha256_of_text(passphrase@),
        r@.len() == KEY_LEN,
{
    sha256_digest_text(passphrase)
}

/// The topic byte a room name selects: the first byte of the room name's
/// SHA-256 digest.
pub fn topic_from_room(room: &str) -> (r: u8)
    ensures
        r == sha256_of_text(room@)[0],
{
    let d = sha256_digest_text(room);
    d[0]
}

/// Nonce uniqueness: two fragments get the same nonce exactly when they
/// carry the same message identifier and fragment index, so no nonce is
/// ever reused under one key across distinct fragments.
pub proof fn lemma_nonce_unique(id1: u32, s1: u8, id2: u32, s2: u8)
    ensures
        spec_nonce(id1, s1) == spec_nonce(id2, s2) <==> (id1 == id2 && s1 == s2),
{
    if spec_nonce(id1, s1) == spec_nonce(id2, s2) {
        assert((id1 & 0xff) as u8 == (id2 & 0xff) as u8 && ((id1 >> 8) & 0xff) as u8 == ((id2
            >> 8) & 0xff) as u8 && ((id1 >> 16) & 0xff) as u8 == ((id2 >> 16) & 0xff) as u8 && ((
        id1 >> 24) & 0xff) as u8 == ((id2 >> 24) & 0xff) as u8) by {
            assert(spec_nonce(id1, s1)[0] == spec_nonce(id2, s2)[0]);
            assert(spec_nonce(id1, s1)[1] == spec_nonce(id2, s2)[1]);
            assert(spec_nonce(id1, s1)[2] == spec_nonce(id2, s2)[2]);
            assert(spec_nonce(id1, s1)[3] == spec_nonce(id2, s2)[3]);
        }
        assert(id1 == id2) by (bit_vector)
            requires
                (id1 & 0xff) as u8 == (id2 & 0xff) as u8,
                ((id1 >> 8) & 0xff) as u8 == ((id2 >> 8) & 0xff) as u8,
                ((id1 >> 16) & 0xff) as u8 == ((id2 >> 16) & 0xff) as u8,
                ((id1 >> 24) & 0xff) as u8 == ((id2 >> 24) & 0xff) as u8,
        ;
        assert(s1 == spec_nonce(id1, s1)[4] && s2 == spec_nonce(id2, s2)[4]);
    }
    if id1 == id2 && s1 == s2 {
        assert(spec_nonce(id1, s1) =~= spec_nonce(id2, s2));
    }
}

} // verus!
