//! Trusted boundary to the hashing and signature crates. Each wrapper's
//! contract names the outside function it relies on; everything else in the
//! crate is verified against these contracts.
use vstd::prelude::*;
use k256::ecdsa::signature::Signer;
use k256::ecdsa::signature::Verifier;

verus! {

/// The SHA-256 digest of a byte string, rendered as 64 lowercase
/// hexadecimal characters.
pub uninterp spec fn sha256_hex_of(input: Seq<u8>) -> Seq<u8>;

/// The compressed SEC1 public key (33 bytes) derived from a 32-byte
/// secp256k1 secret key.
pub uninterp spec fn pk_of_sk(sk: Seq<u8>) -> Seq<u8>;

/// Whether `sig` is a valid ECDSA/SHA-256 signature over `msg` by the key
/// whose compressed SEC1 encoding is `pk`.
pub uninterp spec fn sig_verifies(pk: Seq<u8>, msg: Seq<u8>, sig: Seq<u8>) -> bool;

/// Relies on sha256::digest, which returns the SHA-256 of the input bytes as
/// 64 lowercase hexadecimal characters, a function of the input alone.
#[verifier::external_body]
pub fn sha256_hex(input: &Vec<u8>) -> (r: Vec<u8>)
    ensures
        r@ == sha256_hex_of(input@),
        r@.len() == 64,
        forall|i: int| 0 <= i < 64 ==> crate::encoding::is_hex_digit(r@[i]),
{
    sha256::digest(input.as_slice()).into_bytes()
}

/// Relies on k256::ecdsa::SigningKey::random and
/// VerifyingKey::to_encoded_point: a fresh secret key (32 bytes) together
/// with the compressed SEC1 encoding (33 bytes) of the public key it
/// determines. Nothing is promised about which key comes out.
#[verifier::external_body]
pub fn generate_keypair() -> (r: (Vec<u8>, Vec<u8>))
    ensures
        r.0@.len() == 32,
        r.1@ == pk_of_sk(r.0@),
        r.1@.len() == 33,
{
    let sk = k256::ecdsa::SigningKey::random(&mut rand::rngs::OsRng);
    let pk = sk.verifying_key().to_encoded_point(true).as_bytes().to_vec();
    (sk.to_bytes().to_vec(), pk)
}

/// Relies on k256::ecdsa::SigningKey::try_sign (deterministic ECDSA over
/// SHA-256, RFC 6979): when it returns a signature, that signature verifies
/// against the public key derived from `sk`.
#[verifier::external_body]
pub fn sign_message(sk: &Vec<u8>, msg: &Vec<u8>) -> (r: Option<Vec<u8>>)
    ensures
        (r matches Some(sig) ==> sig_verifies(pk_of_sk(sk@), msg@, sig@)),
{
    let key = match k256::ecdsa::SigningKey::from_slice(sk.as_slice()) {
        Ok(k) => k,
        Err(_) => {
            return None;
        },
    };
    let sig: k256::ecdsa::Signature = match key.try_sign(msg.as_slice()) {
        Ok(s) => s,
        Err(_) => {
            return None;
        },
    };
    Some(sig.to_bytes().to_vec())
}

/// Relies on k256::ecdsa::VerifyingKey::from_sec1_bytes and
/// Verifier::verify (ECDSA over SHA-256): whether `sig` is a valid signature
/// over `msg` by the key encoded by `pk`; a function of its arguments alone,
/// false when `pk` or `sig` does not parse.
#[verifier::external_body]
pub fn verify_signature(pk: &Vec<u8>, msg: &Vec<u8>, sig: &Vec<u8>) -> (r: bool)
    ensures
        r == sig_verifies(pk@, msg@, sig@),
{
    let key = match k256::ecdsa::VerifyingKey::from_sec1_bytes(pk.as_slice()) {
        Ok(k) => k,
        Err(_) => {
            return false;
        },
    };
    let s = match k256::ecdsa::Signature::from_slice(sig.as_slice()) {
        Ok(s) => s,
        Err(_) => {
            return false;
        },
    };
    key.verify(msg.as_slice(), &s).is_ok()
}

} // verus!
