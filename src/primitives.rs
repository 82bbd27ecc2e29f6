//! The calls into the outside cryptographic crates: AES-256 on one block,
//! the X25519 function, scalar clamping, and the operating system's random
//! source.
use aes::cipher::generic_array::GenericArray;
use aes::{BlockDecrypt, BlockEncrypt, NewBlockCipher};
use rand_core::RngCore;
use vstd::prelude::*;

verus! {

/// AES-256 encryption of one 16-byte block under a 32-byte key.
pub uninterp spec fn aes256_encrypt_of(key: Seq<u8>, block: Seq<u8>) -> Seq<u8>;

/// AES-256 decryption of one 16-byte block under a 32-byte key.
pub uninterp spec fn aes256_decrypt_of(key: Seq<u8>, block: Seq<u8>) -> Seq<u8>;

/// The X25519 function of RFC 7748: the scalar `k` (clamped first) times the
/// curve point with u-coordinate `u`.
pub uninterp spec fn x25519_of(k: Seq<u8>, u: Seq<u8>) -> Seq<u8>;

/// The clamping that X25519 applies to a secret scalar: the three low bits
/// cleared, the top bit cleared, the bit below it set.
pub open spec fn clamped(b: Seq<u8>) -> Seq<u8> {
    b.update(0, b[0] & 248u8).update(31, (b[31] & 127u8) | 64u8)
}

/// The u-coordinate of the X25519 base point.
pub const BASEPOINT: [u8; 32] = [
    9, 0, 0, 0, 0, 0, 0, 0, 0, 0, 0, 0, 0, 0, 0, 0, 0, 0, 0, 0, 0, 0, 0, 0, 0, 0, 0, 0, 0, 0, 0, 0,
];

/// Relies on aes::Aes256 with BlockEncrypt::encrypt_block: AES-256 applied to
/// one block; being a permutation, it is undone by decrypt_block under the
/// same key.
#[verifier::external_body]
#[allow(deprecated)]
pub(crate) fn aes256_encrypt_block(key: &[u8], block: &[u8]) -> (r: Vec<u8>)
    requires
        key@.len() == 32,
        block@.len() == 16,
    ensures
        r@ == aes256_encrypt_of(key@, block@),
        r@.len() == 16,
        aes256_decrypt_of(key@, r@) == block@,
{
    let cipher = aes::Aes256::new(GenericArray::from_slice(key));
    let mut b = aes::Block::clone_from_slice(block);
    cipher.encrypt_block(&mut b);
    b.to_vec()
}

/// Relies on aes::Aes256 with BlockDecrypt::decrypt_block: the inverse of
/// AES-256 on one block, undone by encrypt_block under the same key.
#[verifier::external_body]
#[allow(deprecated)]
pub(crate) fn aes256_decrypt_block(key: &[u8], block: &[u8]) -> (r: Vec<u8>)
    requires
        key@.len() == 32,
        block@.len() == 16,
    ensures
        r@ == aes256_decrypt_of(key@, block@),
        r@.len() == 16,
        aes256_encrypt_of(key@, r@) == block@,
{
    let cipher = aes::Aes256::new(GenericArray::from_slice(key));
    let mut b = aes::Block::clone_from_slice(block);
    cipher.decrypt_block(&mut b);
    b.to_vec()
}

/// Relies on x25519_dalek::x25519, the bare RFC 7748 function on byte arrays.
#[verifier::external_body]
pub(crate) fn x25519(k: [u8; 32], u: [u8; 32]) -> (r: [u8; 32])
    ensures
        r@ == x25519_of(k@, u@),
{
    x25519_dalek::x25519(k, u)
}

/// Relies on x25519_dalek::StaticSecret: `From<[u8; 32]>` clamps the bytes
/// and `to_bytes` hands them back as clamped.
#[verifier::external_body]
pub(crate) fn clamp_secret(bytes: [u8; 32]) -> (r: [u8; 32])
    ensures
        r@ == clamped(bytes@),
{
    x25519_dalek::StaticSecret::from(bytes).to_bytes()
}

/// Relies on rand_core::OsRng with RngCore::fill_bytes: 32 bytes from the
/// operating system's random source, of which nothing is known. It panics
/// where that source fails, which this library treats as fatal.
#[verifier::external_body]
pub(crate) fn random_bytes() -> (r: [u8; 32]) {
    let mut b = [0u8; 32];
    rand_core::OsRng.fill_bytes(&mut b);
    b
}

} // verus!
