//! Key exchange over X25519 and per-block AES-256 encryption, with every
//! input and output carried in a small length-delimited binary envelope.
//!
//! The four operations at the boundary are `generate_key`,
//! `generate_shared`, `encrypt` and `decrypt`. Each takes envelopes, works on
//! the bytes inside, and hands back an envelope, or `None` on failure.
use vstd::prelude::*;

pub mod crypto;
pub mod neurotransmitter;
pub mod primitives;

use crate::crypto::{
    KeyPair, decrypt_message, decryption, encrypt_message, encryption, pad, BLOCK_SIZE,
    bytes_option,
};
use crate::neurotransmitter::{
    AsymmetricKey, SerializedStuff, blob_len, decode_blob, decode_key, encode_blob, encode_key,
    lemma_blob_len_monotone, lemma_blob_round_trip, or_empty,
};
use crate::primitives::{BASEPOINT, clamped, x25519_of};

verus! {

/// What `generate_shared` returns: the envelope of the shared secret, where
/// the identity record and the peer's envelope decode and both hold 32 bytes.
pub open spec fn shared_of(pair: Seq<u8>, peer: Seq<u8>) -> Option<Seq<u8>> {
    match (decode_key(pair), decode_blob(peer)) {
        (Some(k), Some(p)) => if or_empty(k.0).len() == 32 && p.len() == 32 {
            Some(encode_blob(x25519_of(clamped(or_empty(k.0)), p)))
        } else {
            None
        },
        _ => None,
    }
}

/// What `encrypt` returns: the envelope of the ciphertext, where both
/// envelopes decode, the key is 32 bytes and the result fits in memory.
pub open spec fn encrypt_of(key: Seq<u8>, message: Seq<u8>) -> Option<Seq<u8>> {
    match (decode_blob(key), decode_blob(message)) {
        (Some(k), Some(m)) => match encryption(k, m) {
            Ok(c) => if blob_len(pad(m, BLOCK_SIZE as nat).len()) <= usize::MAX {
                Some(encode_blob(c))
            } else {
                None
            },
            Err(_) => None,
        },
        _ => None,
    }
}

/// What `decrypt` returns: the envelope of the plaintext, where both
/// envelopes decode and decryption succeeds.
pub open spec fn decrypt_of(key: Seq<u8>, encrypted: Seq<u8>) -> Option<Seq<u8>> {
    match (decode_blob(key), decode_blob(encrypted)) {
        (Some(k), Some(c)) => match decryption(k, c) {
            Ok(m) => if encode_blob(m).len() <= usize::MAX { Some(encode_blob(m)) } else { None },
            Err(_) => None,
        },
        _ => None,
    }
}

/// An envelope whose ciphertext is not a whole number of blocks decrypts to
/// nothing, whatever the key.
pub proof fn lemma_decrypt_misaligned(raw_key: Seq<u8>, c: Seq<u8>)
    requires
        c.len() % 16 != 0,
        c.len() <= usize::MAX,
    ensures
        decrypt_of(raw_key, encode_blob(c)) is None,
{
    lemma_blob_round_trip(c);
    crate::crypto::lemma_misaligned_rejected(or_empty(decode_blob(raw_key)), c);
}

/// An identity written as a record and read back is the same identity: both
/// fields come back, and loading the clamped secret again leaves it as it is.
pub proof fn lemma_identity_round_trip(secret: Seq<u8>, pubkey: Seq<u8>)
    requires
        secret.len() == 32,
        pubkey.len() == 32,
        clamped(secret) == secret,
    ensures
        decode_key(encode_key((Some(secret), Some(pubkey)))) == Some(
            (Some(secret), Some(pubkey)),
        ),
        clamped(or_empty(Some(secret))) == secret,
{
    crate::neurotransmitter::lemma_key_round_trip((Some(secret), Some(pubkey)));
}

/// The envelope holding `data`, or `None` where it would not fit in memory.
pub fn serialize_data(data: &[u8]) -> (r: Option<Vec<u8>>)
    ensures
        bytes_option(r) == (if encode_blob(data@).len() <= usize::MAX {
            Some(encode_blob(data@))
        } else {
            None
        }),
{
    let stuff = crate::crypto::bytes_to_stuff(data);
    stuff.write_to_bytes()
}

/// The bytes inside an envelope; `None` where it is malformed.
pub fn deserialize_data(data: &[u8]) -> (r: Option<Vec<u8>>)
    ensures
        bytes_option(r) == decode_blob(data@),
{
    match SerializedStuff::parse_from_bytes(data) {
        Some(mut stuff) => Some(stuff.take_content()),
        None => None,
    }
}

/// A new identity, as an identity record: a random clamped secret and its
/// public point.
pub fn generate_key() -> (r: Vec<u8>)
    ensures
        exists|s: Seq<u8>|
            s.len() == 32 && clamped(s) == s && x25519_of(s, BASEPOINT@).len() == 32 && r@
                == encode_key((Some(s), Some(x25519_of(s, BASEPOINT@)))),
        r@.len() == 72,
{
    let key = KeyPair::new();
    let proto = key.to_proto();
    assert(encode_key(proto@).len() == 72);
    match proto.write_to_bytes() {
        Some(v) => v,
        None => Vec::new(),
    }
}

/// The envelope of the secret shared between the identity in `raw_pair` and
/// the peer whose public point is in the envelope `raw_pubkey`. The record's
/// own public key is not used.
pub fn generate_shared(raw_pair: &[u8], raw_pubkey: &[u8]) -> (r: Option<Vec<u8>>)
    ensures
        bytes_option(r) == shared_of(raw_pair@, raw_pubkey@),
{
    let mut shared = match AsymmetricKey::parse_from_bytes(raw_pair) {
        Some(k) => k,
        None => return None,
    };
    let pubkey_stuff = match SerializedStuff::parse_from_bytes(raw_pubkey) {
        Some(p) => p,
        None => return None,
    };
    shared.set_public_key(pubkey_stuff);
    let pair = match KeyPair::from_proto(&shared) {
        Some(p) => p,
        None => return None,
    };
    let secret = pair.get_shared();
    assert(encode_blob(secret@).len() == 34);
    serialize_data(secret.as_slice())
}

/// Encrypts the plaintext in the envelope `raw_message` under the key in the
/// envelope `raw_key`. What comes back decrypts under the same key to the
/// plaintext's envelope.
pub fn encrypt(raw_key: &[u8], raw_message: &[u8]) -> (r: Option<Vec<u8>>)
    ensures
        bytes_option(r) == encrypt_of(raw_key@, raw_message@),
        r matches Some(e) ==> decrypt_of(raw_key@, e@) == Some(
            encode_blob(decode_blob(raw_message@).unwrap()),
        ),
        r matches Some(e) ==> decode_blob(e@) matches Some(c) && c.len() % 16 == 0 && c.len()
            > decode_blob(raw_message@).unwrap().len(),
{
    let key = match deserialize_data(raw_key) {
        Some(k) => k,
        None => return None,
    };
    let message = match deserialize_data(raw_message) {
        Some(m) => m,
        None => return None,
    };
    let pc: usize = BLOCK_SIZE - message.len() % BLOCK_SIZE;
    if message.len() > usize::MAX - pc {
        return None;
    }
    let raw_enc = match encrypt_message(key.as_slice(), message.as_slice()) {
        Ok(c) => c,
        Err(_) => return None,
    };
    proof {
        lemma_blob_round_trip(raw_enc@);
        if encode_blob(raw_enc@).len() <= usize::MAX {
            lemma_blob_round_trip(message@);
            lemma_blob_len_monotone(message@.len(), raw_enc@.len());
        }
    }
    serialize_data(raw_enc.as_slice())
}

/// Decrypts the ciphertext in the envelope `raw_encrypted` under the key in
/// the envelope `raw_key`, and hands back the plaintext's envelope.
pub fn decrypt(raw_key: &[u8], raw_encrypted: &[u8]) -> (r: Option<Vec<u8>>)
    ensures
        bytes_option(r) == decrypt_of(raw_key@, raw_encrypted@),
{
    let key = match deserialize_data(raw_key) {
        Some(k) => k,
        None => return None,
    };
    let encrypted = match deserialize_data(raw_encrypted) {
        Some(c) => c,
        None => return None,
    };
    let raw_mess = match decrypt_message(key.as_slice(), encrypted.as_slice()) {
        Ok(m) => m,
        Err(_) => return None,
    };
    serialize_data(raw_mess.as_slice())
}

} // verus!
