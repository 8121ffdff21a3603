//! Nonces drawn at random, a new one for every block that is sealed.
//!
//! The random bytes come from the `rand_chacha` crate's generator, which the operating system
//! seeds. Nothing can be said of them but how many there are.

use crate::aead::NONCE_LEN;
use rand_chacha::rand_core::{RngCore, SeedableRng};
use rand_chacha::ChaCha20Rng;
use vstd::prelude::*;

verus! {

/// The generator of `rand_chacha`.
#[verifier::external_type_specification]
#[verifier::external_body]
pub struct ExChaCha20Rng(ChaCha20Rng);

/// `rand_chacha::rand_core::SeedableRng::from_entropy`: a generator with a seed from the operating
/// system. It panics where the operating system gives no entropy. Nothing is said of the generator.
#[verifier::external_body]
fn create_rng() -> (rng: ChaCha20Rng) {
    ChaCha20Rng::from_entropy()
}

/// `rand_chacha::rand_core::RngCore::fill_bytes`: replaces every byte by a random one. Which bytes
/// come is a matter of chance; only their number is said.
#[verifier::external_body]
fn fill_bytes(rng: &mut ChaCha20Rng, bytes: &mut Vec<u8>)
    ensures
        final(bytes)@.len() == old(bytes)@.len(),
{
    rng.fill_bytes(bytes)
}

/// Draws nonces, and remembers the last one.
pub struct RandomNonceSequence {
    rng: ChaCha20Rng,
    last_nonce: Option<Vec<u8>>,
}

impl RandomNonceSequence {
    /// The bytes of the last nonce.
    pub closed spec fn last(self) -> Option<Seq<u8>> {
        match self.last_nonce {
            Some(nonce) => Some(nonce@),
            None => None,
        }
    }

    /// The last nonce, if one was drawn.
    pub fn last_nonce(&self) -> (nonce: Option<&Vec<u8>>)
        ensures
            match nonce {
                Some(nonce) => self.last() == Some(nonce@),
                None => self.last() is None,
            },
    {
        match &self.last_nonce {
            Some(nonce) => Some(nonce),
            None => None,
        }
    }

    /// Draws a nonce and remembers it.
    pub fn advance(&mut self) -> (nonce: Vec<u8>)
        ensures
            nonce@.len() == NONCE_LEN,
            final(self).last() == Some(nonce@),
    {
        let mut nonce: Vec<u8> = vec![0u8; NONCE_LEN];
        fill_bytes(&mut self.rng, &mut nonce);
        self.remember(&nonce);
        nonce
    }

    /// Remembers `nonce` as the last one.
    pub fn remember(&mut self, nonce: &Vec<u8>)
        ensures
            final(self).last() == Some(nonce@),
    {
        let copy = nonce.clone();
        assert(copy@ =~= nonce@);
        self.last_nonce = Some(copy);
    }
}

impl Default for RandomNonceSequence {
    /// A sequence that has drawn no nonce yet.
    fn default() -> (sequence: Self)
        ensures
            sequence.last() is None,
    {
        RandomNonceSequence { rng: create_rng(), last_nonce: None }
    }
}

} // verus!
