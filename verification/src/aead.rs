//! Sealing and opening of blocks with a key that is kept secret.
//!
//! The ciphers are those of the `ring` crate, and the key is held by the `secrecy` crate, which
//! wipes it from memory when it is dropped. What the calls into the two crates do is stated here
//! and not proved.

use ring::aead::{
    Aad, LessSafeKey, Nonce, UnboundKey, AES_128_GCM, AES_256_GCM, CHACHA20_POLY1305,
};
use ring::error::Unspecified;
use secrecy::{ExposeSecret, SecretVec};
use vstd::prelude::*;

verus! {

/// How many bytes a nonce has.
pub const NONCE_LEN: usize = 12;

/// How many bytes a tag has.
pub const TAG_LEN: usize = 16;

/// The ciphers.
#[derive(Clone, Copy, Debug, PartialEq, Eq, Structural)]
pub enum Cipher {
    Aes128Gcm,
    Aes256Gcm,
    ChaCha20Poly1305,
}

impl Cipher {
    pub open spec fn spec_key_len(self) -> nat {
        match self {
            Cipher::Aes128Gcm => 16,
            Cipher::Aes256Gcm => 32,
            Cipher::ChaCha20Poly1305 => 32,
        }
    }

    /// How many bytes can be sealed at once.
    pub open spec fn max_len(self) -> nat {
        match self {
            Cipher::Aes128Gcm => 68_719_476_704,
            Cipher::Aes256Gcm => 68_719_476_704,
            Cipher::ChaCha20Poly1305 => 274_877_906_880,
        }
    }

    /// How many bytes a key has.
    pub fn key_len(self) -> (len: usize)
        ensures
            len == self.spec_key_len(),
    {
        match self {
            Cipher::Aes128Gcm => 16,
            Cipher::Aes256Gcm => 32,
            Cipher::ChaCha20Poly1305 => 32,
        }
    }
}

/// A key has as many bits as the name of the cipher says, or 256. At most as many bytes can be
/// sealed as there are in the blocks that a counter of 32 bits can number; AES-GCM has blocks of 16
/// bytes and keeps two numbers for itself, ChaCha20 has blocks of 64 bytes and keeps one.
pub proof fn law_lengths_of_ciphers(cipher: Cipher)
    ensures
        8 * cipher.spec_key_len() == (if cipher is Aes128Gcm {
            128int
        } else {
            256
        }),
        cipher is ChaCha20Poly1305 ==> cipher.max_len() == 64 * (0x1_0000_0000 - 1),
        !(cipher is ChaCha20Poly1305) ==> cipher.max_len() == 16 * (0x1_0000_0000 - 2),
{
}

/// A key, held in a `secrecy::SecretVec`.
#[verifier::external_body]
pub struct SecretKey(SecretVec<u8>);

/// The bytes of a key.
pub uninterp spec fn secret_bytes(key: SecretKey) -> Seq<u8>;

/// `secrecy::Secret::new`: the key holds the bytes that were given.
#[verifier::external_body]
fn keep(bytes: Vec<u8>) -> (key: SecretKey)
    ensures
        secret_bytes(key) == bytes@,
{
    SecretKey(SecretVec::new(bytes))
}

/// `secrecy::ExposeSecret::expose_secret`: gives the bytes that the key holds.
#[verifier::external_body]
pub(crate) fn expose(key: &SecretKey) -> (bytes: &Vec<u8>)
    ensures
        bytes@ == secret_bytes(*key),
{
    key.0.expose_secret()
}

impl SecretKey {
    pub fn new(bytes: Vec<u8>) -> (key: SecretKey)
        ensures
            secret_bytes(key) == bytes@,
    {
        keep(bytes)
    }

    /// Whether the key has the length that `cipher` takes.
    pub fn suits(&self, cipher: Cipher) -> (r: bool)
        ensures
            r == (secret_bytes(*self).len() == cipher.spec_key_len()),
    {
        expose(self).len() == cipher.key_len()
    }
}

/// The error of `ring`, which says nothing.
#[verifier::external_type_specification]
#[verifier::external_body]
pub struct ExUnspecified(Unspecified);

/// What `ring` makes of `plain` under a key and a nonce, without additional data: the sealed bytes
/// and the tag.
pub uninterp spec fn aead_seal(
    cipher: Cipher,
    key: Seq<u8>,
    nonce: Seq<u8>,
    plain: Seq<u8>,
) -> (Seq<u8>, Seq<u8>);

/// What `ring` opens sealed bytes with the tag behind them to, without additional data; `None`
/// where it refuses them.
pub uninterp spec fn aead_open(
    cipher: Cipher,
    key: Seq<u8>,
    nonce: Seq<u8>,
    sealed: Seq<u8>,
) -> Option<Seq<u8>>;

/// Whether there is a key and a nonce of the right length, and not too much to seal.
pub open spec fn sealable(cipher: Cipher, key: Seq<u8>, nonce: Seq<u8>, plain: Seq<u8>) -> bool {
    &&& key.len() == cipher.spec_key_len()
    &&& nonce.len() == NONCE_LEN
    &&& plain.len() <= cipher.max_len()
}

/// Whether `sealed` is what `plain` is sealed to, with the tag behind it.
pub open spec fn seals_to(
    cipher: Cipher,
    key: Seq<u8>,
    nonce: Seq<u8>,
    plain: Seq<u8>,
    sealed: Seq<u8>,
) -> bool {
    &&& sealable(cipher, key, nonce, plain)
    &&& sealed == aead_seal(cipher, key, nonce, plain).0 + aead_seal(cipher, key, nonce, plain).1
}

/// `ring::aead::LessSafeKey::seal_in_place_separate_tag` with an empty `Aad`, under a key from
/// `UnboundKey::new` and a nonce from `Nonce::try_assume_unique_for_key`. It replaces the bytes by
/// as many sealed ones and gives the tag; both depend on the arguments alone. It fails just when
/// the key or the nonce has the wrong length or the bytes are too many, and leaves them as they
/// were then.
#[verifier::external_body]
pub(crate) fn seal(
    cipher: Cipher,
    key: &Vec<u8>,
    nonce: &Vec<u8>,
    in_out: &mut Vec<u8>,
) -> (r: Result<Vec<u8>, Unspecified>)
    ensures
        r is Ok <==> sealable(cipher, key@, nonce@, old(in_out)@),
        match r {
            Ok(tag) => {
                &&& aead_seal(cipher, key@, nonce@, old(in_out)@) == (final(in_out)@, tag@)
                &&& final(in_out)@.len() == old(in_out)@.len()
                &&& tag@.len() == TAG_LEN
            },
            Err(_) => final(in_out)@ == old(in_out)@,
        },
{
    let algorithm = match cipher {
        Cipher::Aes128Gcm => &AES_128_GCM,
        Cipher::Aes256Gcm => &AES_256_GCM,
        Cipher::ChaCha20Poly1305 => &CHACHA20_POLY1305,
    };
    let key = LessSafeKey::new(UnboundKey::new(algorithm, key)?);
    let nonce = Nonce::try_assume_unique_for_key(nonce)?;
    let tag = key.seal_in_place_separate_tag(nonce, Aad::empty(), in_out)?;
    Ok(tag.as_ref().to_vec())
}

/// `ring::aead::LessSafeKey::open_in_place` with an empty `Aad`, under a key from `UnboundKey::new`
/// and a nonce from `Nonce::try_assume_unique_for_key`. On success the plain bytes stand at the
/// start of the buffer, and their number is returned: that of the bytes before the tag. Whether it
/// succeeds, and what the plain bytes are, depends on the arguments alone. What was sealed under
/// the same key and nonce is opened to the plain bytes that it came from.
#[verifier::external_body]
pub(crate) fn open(
    cipher: Cipher,
    key: &Vec<u8>,
    nonce: &Vec<u8>,
    in_out: &mut Vec<u8>,
) -> (r: Result<usize, Unspecified>)
    ensures
        final(in_out)@.len() == old(in_out)@.len(),
        match r {
            Ok(n) => {
                &&& n + TAG_LEN == old(in_out)@.len()
                &&& aead_open(cipher, key@, nonce@, old(in_out)@) == Some(
                    final(in_out)@.subrange(0, n as int),
                )
            },
            Err(_) => aead_open(cipher, key@, nonce@, old(in_out)@) is None,
        },
        forall|plain: Seq<u8>|
            #[trigger] seals_to(cipher, key@, nonce@, plain, old(in_out)@) ==> {
                &&& r is Ok
                &&& final(in_out)@.subrange(0, r->Ok_0 as int) == plain
            },
{
    let algorithm = match cipher {
        Cipher::Aes128Gcm => &AES_128_GCM,
        Cipher::Aes256Gcm => &AES_256_GCM,
        Cipher::ChaCha20Poly1305 => &CHACHA20_POLY1305,
    };
    let key = LessSafeKey::new(UnboundKey::new(algorithm, key)?);
    let nonce = Nonce::try_assume_unique_for_key(nonce)?;
    let plain = key.open_in_place(nonce, Aad::empty(), in_out)?;
    Ok(plain.len())
}

} // verus!
