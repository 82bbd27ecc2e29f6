//! The padding scheme, the per-block cipher driver and the Diffie-Hellman
//! key pair.
use crate::neurotransmitter::{AsymmetricKey, SerializedStuff, or_empty};
use crate::primitives::{
    BASEPOINT, aes256_decrypt_block, aes256_decrypt_of, aes256_encrypt_block, aes256_encrypt_of,
    clamp_secret, clamped, random_bytes, x25519, x25519_of,
};
use vstd::prelude::*;

verus! {

/// The cipher's block size in bytes.
pub const BLOCK_SIZE: usize = 16;

/// The ways an operation of this library can fail.
#[derive(Debug, PartialEq, Eq, Clone, Copy)]
pub enum CryptoError {
    /// A malformed envelope, or a key or point field of the wrong length.
    DecodeError,
    /// A symmetric key that is not 32 bytes long.
    KeyLengthError,
    /// A ciphertext whose length is not a multiple of the block size.
    LengthError,
    /// A pad count of zero or longer than the padded text.
    PaddingError,
}

/// `m` followed by `k` bytes of value `k`, where `k` brings the length to
/// the next multiple of `size` (a whole block where it is already one).
pub open spec fn pad(m: Seq<u8>, size: nat) -> Seq<u8> {
    let k = (size - m.len() % size) as nat;
    m + Seq::new(k, |i: int| k as u8)
}

/// `p` without its last `k` bytes, where `k` is the value of its last byte;
/// `None` where `p` is empty, `k` is zero or `k` exceeds the length of `p`.
pub open spec fn unpad(p: Seq<u8>) -> Option<Seq<u8>> {
    if p.len() == 0 {
        None
    } else {
        let k = p.last() as int;
        if k == 0 || k > p.len() {
            None
        } else {
            Some(p.subrange(0, p.len() - k))
        }
    }
}

/// Pads `message` to a multiple of `size`; see `pad`.
pub fn pad_message(message: &[u8], size: usize) -> (r: Vec<u8>)
    requires
        0 < size < 256,
        pad(message@, size as nat).len() <= usize::MAX,
    ensures
        r@ == pad(message@, size as nat),
{
    let pc: usize = size - message.len() % size;
    let mut result: Vec<u8> = Vec::new();
    let mut i: usize = 0;
    while i < message.len()
        invariant
            i <= message@.len(),
            result@ == message@.subrange(0, i as int),
        decreases message@.len() - i,
    {
        assert(message@.subrange(0, i + 1) == message@.subrange(0, i as int).push(message@[i as int]));
        result.push(message[i]);
        i = i + 1;
    }
    let mut j: usize = 0;
    while j < pc
        invariant
            j <= pc,
            pc == size - message@.len() % (size as nat),
            pc < 256,
            result@ == message@ + Seq::new(j as nat, |t: int| pc as u8),
        decreases pc - j,
    {
        assert(message@ + Seq::new((j + 1) as nat, |t: int| pc as u8) =~= (message@ + Seq::new(
            j as nat,
            |t: int| pc as u8,
        )).push(pc as u8));
        result.push(pc as u8);
        j = j + 1;
    }
    result
}

/// Removes the padding from `message`; see `unpad`.
pub fn unpad_message(message: &[u8]) -> (r: Option<Vec<u8>>)
    ensures
        bytes_option(r) == unpad(message@),
{
    if message.len() == 0 {
        return None;
    }
    let pc = message[message.len() - 1] as usize;
    if pc == 0 || pc > message.len() {
        return None;
    }
    let end = message.len() - pc;
    let mut result: Vec<u8> = Vec::new();
    let mut i: usize = 0;
    while i < end
        invariant
            end <= message@.len(),
            i <= end,
            result@ == message@.subrange(0, i as int),
        decreases end - i,
    {
        assert(message@.subrange(0, i + 1) == message@.subrange(0, i as int).push(message@[i as int]));
        result.push(message[i]);
        i = i + 1;
    }
    Some(result)
}

/// Padding is always removable: unpadding a padded message gives it back.
pub proof fn lemma_unpad_pad(m: Seq<u8>, size: nat)
    requires
        0 < size < 256,
    ensures
        unpad(pad(m, size)) == Some(m),
{
    let p = pad(m, size);
    let k = (size - m.len() % size) as nat;
    assert(p[p.len() - 1] == k as u8);
    assert(p.subrange(0, p.len() - k) =~= m);
}


/// The block of index `t` in `d`: bytes `16 * t` to `16 * t + 16`.
pub open spec fn block_of(d: Seq<u8>, t: int) -> Seq<u8> {
    d.subrange(16 * t, 16 * t + 16)
}

/// Each whole 16-byte block of `d` encrypted on its own, in order.
pub open spec fn encrypt_blocks(key: Seq<u8>, d: Seq<u8>) -> Seq<u8>
    decreases d.len(),
{
    if d.len() < 16 {
        Seq::empty()
    } else {
        aes256_encrypt_of(key, d.subrange(0, 16)) + encrypt_blocks(key, d.subrange(16, d.len() as int))
    }
}

/// Each whole 16-byte block of `d` decrypted on its own, in order.
pub open spec fn decrypt_blocks(key: Seq<u8>, d: Seq<u8>) -> Seq<u8>
    decreases d.len(),
{
    if d.len() < 16 {
        Seq::empty()
    } else {
        aes256_decrypt_of(key, d.subrange(0, 16)) + decrypt_blocks(key, d.subrange(16, d.len() as int))
    }
}

/// The bytes of an optional result, as a sequence.
pub open spec fn bytes_option(r: Option<Vec<u8>>) -> Option<Seq<u8>> {
    match r {
        Some(v) => Some(v@),
        None => None,
    }
}

/// The bytes of a result, as a sequence.
pub open spec fn bytes_result(r: Result<Vec<u8>, CryptoError>) -> Result<Seq<u8>, CryptoError> {
    match r {
        Ok(v) => Ok(v@),
        Err(e) => Err(e),
    }
}

/// What encrypting `m` under `key` gives: the padded message, block by block.
pub open spec fn encryption(key: Seq<u8>, m: Seq<u8>) -> Result<Seq<u8>, CryptoError> {
    if key.len() != 32 {
        Err(CryptoError::KeyLengthError)
    } else {
        Ok(encrypt_blocks(key, pad(m, BLOCK_SIZE as nat)))
    }
}

/// What decrypting `c` under `key` gives: each block decrypted, then the
/// padding removed.
pub open spec fn decryption(key: Seq<u8>, c: Seq<u8>) -> Result<Seq<u8>, CryptoError> {
    if c.len() % 16 != 0 {
        Err(CryptoError::LengthError)
    } else if key.len() != 32 {
        Err(CryptoError::KeyLengthError)
    } else {
        match unpad(decrypt_blocks(key, c)) {
            Some(m) => Ok(m),
            None => Err(CryptoError::PaddingError),
        }
    }
}

proof fn lemma_decrypt_blocks_append(key: Seq<u8>, a: Seq<u8>, b: Seq<u8>)
    requires
        a.len() % 16 == 0,
    ensures
        decrypt_blocks(key, a + b) == decrypt_blocks(key, a) + decrypt_blocks(key, b),
    decreases a.len(),
{
    if a.len() == 0 {
        assert(a + b =~= b);
        assert(decrypt_blocks(key, a) == Seq::<u8>::empty());
        assert(Seq::<u8>::empty() + decrypt_blocks(key, b) =~= decrypt_blocks(key, b));
    } else {
        let rest = a.subrange(16, a.len() as int);
        assert((a + b).subrange(0, 16) =~= a.subrange(0, 16));
        assert((a + b).subrange(16, (a + b).len() as int) =~= rest + b);
        lemma_decrypt_blocks_append(key, rest, b);
        assert(decrypt_blocks(key, a + b) =~= decrypt_blocks(key, a) + decrypt_blocks(key, b));
    }
}

/// Copies `d[i..i + 16]`.
fn block_at(d: &[u8], i: usize) -> (r: Vec<u8>)
    requires
        i + 16 <= d@.len(),
    ensures
        r@ == d@.subrange(i as int, i + 16),
{
    let n = d.len();
    assert(n == d@.len());
    let mut r: Vec<u8> = Vec::new();
    let mut j: usize = 0;
    while j < 16
        invariant
            i + 16 <= d@.len(),
            d@.len() == n,
            j <= 16,
            r@ == d@.subrange(i as int, i + j),
        decreases 16 - j,
    {
        assert(d@.subrange(i as int, i + j + 1) == d@.subrange(i as int, i + j).push(d@[i + j]));
        r.push(d[i + j]);
        j = j + 1;
    }
    r
}

/// Pads `message` and encrypts each block on its own under `key`. No
/// chaining and no nonce: equal blocks give equal ciphertext blocks. The
/// result always decrypts back to `message`.
pub fn encrypt_message(key: &[u8], message: &[u8]) -> (r: Result<Vec<u8>, CryptoError>)
    requires
        pad(message@, BLOCK_SIZE as nat).len() <= usize::MAX,
    ensures
        bytes_result(r) == encryption(key@, message@),
        r matches Ok(c) ==> decryption(key@, c@) == Ok::<Seq<u8>, CryptoError>(message@),
        r matches Ok(c) ==> c@.len() % 16 == 0 && c@.len() > message@.len(),
        r matches Ok(c) ==> c@.len() == pad(message@, BLOCK_SIZE as nat).len(),
        r matches Ok(c) ==> forall|t: int|
            0 <= t < c@.len() / 16 ==> #[trigger] block_of(c@, t) == aes256_encrypt_of(
                key@,
                block_of(pad(message@, BLOCK_SIZE as nat), t),
            ),
{
    if key.len() != 32 {
        return Err(CryptoError::KeyLengthError);
    }
    let padded = pad_message(message, BLOCK_SIZE);
    let ghost p = padded@;
    assert(p.subrange(0, p.len() as int) =~= p);
    let mut out: Vec<u8> = Vec::new();
    let mut i: usize = 0;
    let ghost mut nb: int = 0;
    while i < padded.len()
        invariant
            p == padded@,
            p.len() % 16 == 0,
            key@.len() == 32,
            i <= p.len(),
            i % 16 == 0,
            i == 16 * nb,
            out@.len() == i,
            forall|t: int|
                0 <= t < nb ==> #[trigger] block_of(out@, t) == aes256_encrypt_of(
                    key@,
                    block_of(p, t),
                ),
            encrypt_blocks(key@, p) == out@ + encrypt_blocks(key@, p.subrange(i as int, p.len() as int)),
            decrypt_blocks(key@, out@) == p.subrange(0, i as int),
        decreases p.len() - i,
    {
        let block = block_at(padded.as_slice(), i);
        let e = aes256_encrypt_block(key, block.as_slice());
        proof {
            let rest = p.subrange(i as int, p.len() as int);
            assert(rest.subrange(0, 16) =~= block@);
            assert(rest.subrange(16, rest.len() as int) =~= p.subrange(i + 16, p.len() as int));
            lemma_decrypt_blocks_append(key@, out@, e@);
            assert(e@.subrange(0, 16) =~= e@);
            assert(decrypt_blocks(key@, e@.subrange(16, 16)) == Seq::<u8>::empty());
            assert(p.subrange(0, i + 16) =~= p.subrange(0, i as int) + block@);
            assert(out@ + e@ + encrypt_blocks(key@, p.subrange(i + 16, p.len() as int)) =~= out@
                + encrypt_blocks(key@, rest));
            assert forall|t: int| 0 <= t < nb + 1 implies #[trigger] block_of(out@ + e@, t)
                == aes256_encrypt_of(key@, block_of(p, t)) by {
                if t < nb {
                    assert(block_of(out@ + e@, t) =~= block_of(out@, t));
                } else {
                    assert(block_of(out@ + e@, t) =~= e@);
                    assert(block_of(p, t) =~= block@);
                }
            }
        }
        let mut e2 = e;
        out.append(&mut e2);
        i = i + 16;
        proof { nb = nb + 1; }
    }
    assert(out@.len() / 16 == nb);
    proof {
        assert(p.subrange(i as int, p.len() as int) =~= Seq::<u8>::empty());
        assert(out@ + Seq::<u8>::empty() =~= out@);
        assert(p.subrange(0, i as int) =~= p);
        lemma_unpad_pad(message@, BLOCK_SIZE as nat);
    }
    Ok(out)
}

/// Decrypts each block of `encrypted` on its own under `key`, then removes
/// the padding.
pub fn decrypt_message(key: &[u8], encrypted: &[u8]) -> (r: Result<Vec<u8>, CryptoError>)
    ensures
        bytes_result(r) == decryption(key@, encrypted@),
{
    if encrypted.len() % 16 != 0 {
        return Err(CryptoError::LengthError);
    }
    if key.len() != 32 {
        return Err(CryptoError::KeyLengthError);
    }
    let ghost c = encrypted@;
    assert(c.subrange(0, c.len() as int) =~= c);
    let mut out: Vec<u8> = Vec::new();
    let mut i: usize = 0;
    while i < encrypted.len()
        invariant
            c == encrypted@,
            c.len() % 16 == 0,
            key@.len() == 32,
            i <= c.len(),
            i % 16 == 0,
            decrypt_blocks(key@, c) == out@ + decrypt_blocks(key@, c.subrange(i as int, c.len() as int)),
        decreases c.len() - i,
    {
        let block = block_at(encrypted, i);
        let d = aes256_decrypt_block(key, block.as_slice());
        proof {
            let rest = c.subrange(i as int, c.len() as int);
            assert(rest.subrange(0, 16) =~= block@);
            assert(rest.subrange(16, rest.len() as int) =~= c.subrange(i + 16, c.len() as int));
            assert(out@ + d@ + decrypt_blocks(key@, c.subrange(i + 16, c.len() as int)) =~= out@
                + decrypt_blocks(key@, rest));
        }
        let mut d2 = d;
        out.append(&mut d2);
        i = i + 16;
    }
    proof {
        assert(c.subrange(i as int, c.len() as int) =~= Seq::<u8>::empty());
        assert(out@ + Seq::<u8>::empty() =~= out@);
    }
    match unpad_message(out.as_slice()) {
        Some(m) => Ok(m),
        None => Err(CryptoError::PaddingError),
    }
}


/// A ciphertext whose length is not a multiple of the block size is refused
/// before any block is decrypted.
pub proof fn lemma_misaligned_rejected(key: Seq<u8>, c: Seq<u8>)
    requires
        c.len() % 16 != 0,
    ensures
        decryption(key, c) == Err::<Seq<u8>, CryptoError>(CryptoError::LengthError),
{
}

/// A secret scalar of 32 bytes, always clamped: it is made only by loading
/// bytes through the clamping that X25519 applies.
#[derive(Debug, PartialEq, Eq)]
pub struct Secret {
    bytes: [u8; 32],
}

impl View for Secret {
    type V = Seq<u8>;

    closed spec fn view(&self) -> Seq<u8> {
        self.bytes@
    }
}

impl Secret {
    #[verifier::type_invariant]
    spec fn is_clamped(&self) -> bool {
        clamped(self.bytes@) == self.bytes@
    }

    /// Loads 32 bytes as a secret, clamping them.
    pub fn from_bytes(bytes: [u8; 32]) -> (r: Secret)
        ensures
            r@ == clamped(bytes@),
            clamped(r@) == r@,
            r@.len() == 32,
    {
        let clamped_bytes = clamp_secret(bytes);
        proof { lemma_clamped_idempotent(bytes@); }
        Secret { bytes: clamped_bytes }
    }

    /// The secret's bytes, which are clamped.
    pub fn to_bytes(&self) -> (r: [u8; 32])
        ensures
            r@ == self@,
            clamped(self@) == self@,
            self@.len() == 32,
    {
        proof { use_type_invariant(self); }
        self.bytes
    }
}

/// A Diffie-Hellman key pair: a secret scalar and a public point, 32 bytes
/// each. `pubkey` is the point that `get_shared` multiplies by `secret`: the
/// pair's own public point, or a peer's.
#[derive(Debug, PartialEq, Eq)]
pub struct KeyPair {
    pub secret: Secret,
    pub pubkey: [u8; 32],
}

impl KeyPair {
    /// A fresh key pair: a random secret, clamped, and its public point.
    pub fn new() -> (r: KeyPair)
        ensures
            clamped(r.secret@) == r.secret@,
            r.secret@.len() == 32,
            r.pubkey@ == x25519_of(r.secret@, BASEPOINT@),
            r.pubkey@.len() == 32,
    {
        KeyPair::from_random_bytes(random_bytes())
    }

    /// The key pair drawn from the 32 random bytes `raw`: `raw` clamped, and
    /// the base point multiplied by it.
    pub fn from_random_bytes(raw: [u8; 32]) -> (r: KeyPair)
        ensures
            r.secret@ == clamped(raw@),
            clamped(r.secret@) == r.secret@,
            r.pubkey@ == x25519_of(clamped(raw@), BASEPOINT@),
            r.pubkey@.len() == 32,
    {
        let secret = Secret::from_bytes(raw);
        let pubkey = x25519(secret.to_bytes(), BASEPOINT);
        KeyPair { secret, pubkey }
    }

    /// The pair held in an identity record; `None` where either field is not
    /// 32 bytes long. The secret is clamped as it is loaded.
    pub fn from_proto(proto: &AsymmetricKey) -> (r: Option<KeyPair>)
        ensures
            r is Some <==> or_empty(proto@.0).len() == 32 && or_empty(proto@.1).len() == 32,
            r matches Some(k) ==> k.secret@ == clamped(or_empty(proto@.0)) && k.pubkey@ == or_empty(
                proto@.1,
            ),
    {
        let secret = match secret_from_proto(proto.get_secret()) {
            Some(s) => s,
            None => return None,
        };
        let pubkey = match pubkey_from_proto(proto.get_public_key()) {
            Some(p) => p,
            None => return None,
        };
        Some(KeyPair { secret, pubkey })
    }

    /// The identity record that holds this pair. Its secret is clamped, so
    /// `from_proto` gives the same pair back.
    pub fn to_proto(&self) -> (r: AsymmetricKey)
        ensures
            r@ == (Some(self.secret@), Some(self.pubkey@)),
            clamped(self.secret@) == self.secret@,
            self.secret@.len() == 32,
    {
        let mut res = AsymmetricKey::new();
        res.set_secret(secret_to_proto(&self.secret));
        res.set_public_key(pubkey_to_proto(&self.pubkey));
        res
    }

    /// The Diffie-Hellman shared secret: `secret` times `pubkey`.
    pub fn get_shared(&self) -> (r: Vec<u8>)
        ensures
            r@ == x25519_of(self.secret@, self.pubkey@),
            r@.len() == 32,
    {
        let shared = x25519(self.secret.to_bytes(), self.pubkey);
        bytes_to_stuff(shared.as_slice()).take_content()
    }
}

/// Clamping a clamped secret leaves it as it is.
pub proof fn lemma_clamped_idempotent(b: Seq<u8>)
    requires
        b.len() == 32,
    ensures
        clamped(clamped(b)) == clamped(b),
{
    let x = b[0];
    let y = b[31];
    assert((x & 248u8) & 248u8 == x & 248u8) by (bit_vector);
    assert((((y & 127u8) | 64u8) & 127u8) | 64u8 == (y & 127u8) | 64u8) by (bit_vector);
    assert(clamped(clamped(b)) =~= clamped(b));
}

/// The 32 bytes of `b`, where it has exactly 32.
fn array_of(b: &[u8]) -> (r: Option<[u8; 32]>)
    ensures
        r is Some <==> b@.len() == 32,
        r matches Some(a) ==> a@ == b@,
{
    if b.len() != 32 {
        return None;
    }
    let mut a = [0u8; 32];
    let mut i: usize = 0;
    while i < 32
        invariant
            b@.len() == 32,
            i <= 32,
            forall|j: int| 0 <= j < i ==> a@[j] == b@[j],
        decreases 32 - i,
    {
        a[i] = b[i];
        i = i + 1;
    }
    assert(a@ =~= b@);
    Some(a)
}

/// A blob record holding `b`.
pub fn bytes_to_stuff(b: &[u8]) -> (r: SerializedStuff)
    ensures
        r@ == b@,
{
    let mut content: Vec<u8> = Vec::new();
    let mut i: usize = 0;
    while i < b.len()
        invariant
            i <= b@.len(),
            content@ == b@.subrange(0, i as int),
        decreases b@.len() - i,
    {
        assert(b@.subrange(0, i + 1) == b@.subrange(0, i as int).push(b@[i as int]));
        content.push(b[i]);
        i = i + 1;
    }
    assert(b@.subrange(0, b@.len() as int) == b@);
    let mut stuff = SerializedStuff::new();
    stuff.set_content(content);
    stuff
}

/// The secret held in a blob record, clamped; `None` where it is not 32 bytes
/// long.
pub fn secret_from_proto(stuff: &SerializedStuff) -> (r: Option<Secret>)
    ensures
        r is Some <==> stuff@.len() == 32,
        r matches Some(s) ==> s@ == clamped(stuff@),
{
    match array_of(stuff.get_content()) {
        Some(a) => Some(Secret::from_bytes(a)),
        None => None,
    }
}

/// A blob record holding `secret`.
pub fn secret_to_proto(secret: &Secret) -> (r: SerializedStuff)
    ensures
        r@ == secret@,
        clamped(secret@) == secret@,
        secret@.len() == 32,
{
    let bytes = secret.to_bytes();
    bytes_to_stuff(bytes.as_slice())
}

/// A blob record holding `pk`.
pub fn pubkey_to_proto(pk: &[u8; 32]) -> (r: SerializedStuff)
    ensures
        r@ == pk@,
{
    bytes_to_stuff(pk.as_slice())
}

/// The public point held in a blob record; `None` where it is not 32 bytes
/// long.
pub fn pubkey_from_proto(stuff: &SerializedStuff) -> (r: Option<[u8; 32]>)
    ensures
        r is Some <==> stuff@.len() == 32,
        r matches Some(p) ==> p@ == stuff@,
{
    array_of(stuff.get_content())
}

} // verus!
