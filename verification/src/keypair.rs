//! Identities and cryptographic primitives.
//!
//! An author is identified by its Ed25519 public key (32 bytes). Operation
//! ids are SHA-256 digests (32 bytes) and envelope signatures are Ed25519
//! signatures (64 bytes). The hash and signature algorithms themselves come
//! from outside crates and are relied on through the trusted items below.
use vstd::prelude::*;

use fastcrypto::traits::KeyPair as _;
use fastcrypto::traits::Signer as _;
use fastcrypto::traits::ToFromBytes as _;
use fastcrypto::traits::VerifyingKey as _;
use sha2::Digest as _;

verus! {

/// The identity of a replica: an Ed25519 public key, 32 bytes.
/// The all-zero id is the sentinel root/empty author.
pub type AuthorId = Vec<u8>;

/// A signed envelope digest: an Ed25519 signature, 64 bytes.
pub type SignedDigest = Vec<u8>;

/// What SHA-256 returns on the given input. The digest is a function of the
/// input bytes alone; no further structure of it is assumed.
pub uninterp spec fn sha256_of(input: Seq<u8>) -> Seq<u8>;

/// Whether Ed25519 verification accepts `sig` as a signature on `msg` under
/// the public key `pk`. The outcome is a function of the three byte strings
/// alone.
pub uninterp spec fn ed_verifies(pk: Seq<u8>, msg: Seq<u8>, sig: Seq<u8>) -> bool;

/// SHA256 hash of a byte string.
///
/// Relies on sha2::Sha256: the digest is 32 bytes and depends on the input
/// bytes alone.
#[verifier::external_body]
pub fn sha256(input: &Vec<u8>) -> (r: Vec<u8>)
    ensures
        r@ == sha256_of(input@),
        r@.len() == 32,
{
    let mut hasher = sha2::Sha256::new();
    hasher.update(input.as_slice());
    hasher.finalize().to_vec()
}

/// An Ed25519 keypair of an outside crate, carried opaquely.
#[verifier::external_type_specification]
#[verifier::external_body]
pub struct ExEd25519KeyPair(fastcrypto::ed25519::Ed25519KeyPair);

/// An Ed25519 keypair together with its public key bytes.
///
/// The fields are private: every value is built by [`make_keypair`], so the
/// cached public key bytes are always those of the inner keypair.
pub struct KeyPair {
    inner: fastcrypto::ed25519::Ed25519KeyPair,
    public: Vec<u8>,
}

impl KeyPair {
    /// The public key bytes of this keypair.
    pub closed spec fn view(&self) -> Seq<u8> {
        self.public@
    }

    /// The public key of this keypair; other replicas know us by it.
    pub fn public_key(&self) -> (r: AuthorId)
        ensures
            r@ == self@,
    {
        self.public.clone()
    }
}

/// Generate a random Ed25519 keypair from OS rng.
///
/// Relies on fastcrypto::ed25519::Ed25519KeyPair::generate (with
/// rand::thread_rng): the public key is 32 bytes. The key material is
/// random, so nothing else is promised.
#[verifier::external_body]
pub fn make_keypair() -> (r: KeyPair)
    ensures
        r@.len() == 32,
{
    let mut csprng = rand::thread_rng();
    let inner = fastcrypto::ed25519::Ed25519KeyPair::generate(&mut csprng);
    let public = inner.public().as_ref().to_vec();
    KeyPair { inner, public }
}

/// Sign a byte string.
///
/// Relies on fastcrypto's Ed25519 implementation: a signature produced by a
/// keypair is 64 bytes and verifies under that keypair's public key
/// (fastcrypto::traits::Signer::sign and Verifier::verify are a matching
/// pair). Private fields guarantee `self.public` is the inner keypair's
/// public key.
#[verifier::external_body]
pub fn sign(keypair: &KeyPair, message: &Vec<u8>) -> (r: SignedDigest)
    ensures
        r@.len() == 64,
        ed_verifies(keypair@, message@, r@),
{
    keypair.inner.sign(message.as_slice()).sig.to_bytes().to_vec()
}

/// Verify that a byte string was signed by the given public key.
///
/// Relies on fastcrypto's Ed25519 verification: the outcome depends only on
/// the public key, message and signature bytes; malformed keys or signatures
/// verify as false rather than failing.
#[verifier::external_body]
pub fn verify(pubkey: &AuthorId, message: &Vec<u8>, signature: &SignedDigest) -> (r: bool)
    ensures
        r == ed_verifies(pubkey@, message@, signature@),
{
    let sig = fastcrypto::ed25519::Ed25519Signature::from_bytes(signature.as_slice());
    let pk = fastcrypto::ed25519::Ed25519PublicKey::from_bytes(pubkey.as_slice());
    match (pk, sig) {
        (Ok(pk), Ok(sig)) => pk.verify(message.as_slice(), &sig).is_ok(),
        _ => false,
    }
}

/// The all-zero author id, the sentinel root/empty author.
pub open spec fn zero_author() -> Seq<u8> {
    Seq::new(32, |i: int| 0u8)
}

/// Create a well-known public key from a single byte, for tests and examples.
pub fn make_author(n: u8) -> (r: AuthorId)
    ensures
        r@ == zero_author().update(0, n),
{
    let mut id: Vec<u8> = Vec::new();
    id.push(n);
    let mut i: usize = 1;
    while i < 32
        invariant
            1 <= i <= 32,
            id@.len() == i,
            id@[0] == n,
            forall|j: int| 1 <= j < i ==> id@[j] == 0u8,
        decreases 32 - i,
    {
        id.push(0);
        i += 1;
    }
    proof {
        assert(id@ =~= zero_author().update(0, n));
    }
    id
}

/// The least significant 32 bits of a public key, packed big-endian from its
/// first four bytes.
pub fn lsb_32(pubkey: &AuthorId) -> (r: u32)
    requires
        pubkey@.len() >= 4,
    ensures
        r == ((pubkey@[0] as u32) << 24) + ((pubkey@[1] as u32) << 16) + ((pubkey@[2] as u32)
            << 8) + (pubkey@[3] as u32),
{
    let b0: u8 = pubkey[0];
    let b1: u8 = pubkey[1];
    let b2: u8 = pubkey[2];
    let b3: u8 = pubkey[3];
    proof {
        assert(((b0 as u32) << 24) <= 0xff000000u32 && ((b1 as u32) << 16) <= 0xff0000u32 && ((
        b2 as u32) << 8) <= 0xff00u32) by (bit_vector);
    }
    ((b0 as u32) << 24) + ((b1 as u32) << 16) + ((b2 as u32) << 8) + (b3 as u32)
}

} // verus!
