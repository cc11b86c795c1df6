//! ECDSA keys and signatures over secp256k1, kept as their encoded bytes.
//! Key generation, signing, verification and PEM handling are done by the
//! k256, ecdsa and spki crates behind trusted wrappers.
use crate::codec::{enc_bytes, encode_bytes};
use crate::numeric::{bytes_eq, copy_bytes};
use ecdsa::signature::{Signer, Verifier};
use k256::ecdsa::{SigningKey, VerifyingKey};
use spki::{DecodePublicKey, EncodePublicKey};
use vstd::prelude::*;

verus! {

/// Whether these bytes are a valid secp256k1 secret scalar, that is,
/// whether SigningKey::from_slice accepts them.
pub uninterp spec fn key_bytes_valid(sk: Seq<u8>) -> bool;

/// The SEC1 compressed encoding of the public key derived from a secret
/// scalar, a function of the scalar bytes alone; empty when the bytes are
/// not a valid scalar.
pub uninterp spec fn pubkey_of(sk: Seq<u8>) -> Seq<u8>;

/// The ECDSA/RFC 6979 signature of a message under a secret scalar, a
/// deterministic function of both.
pub uninterp spec fn sign_of(sk: Seq<u8>, msg: Seq<u8>) -> Seq<u8>;

/// Whether a signature verifies for a message under a SEC1-encoded public
/// key, a function of the three byte strings alone.
pub uninterp spec fn sig_valid(sig: Seq<u8>, msg: Seq<u8>, pk: Seq<u8>) -> bool;

/// Whether these bytes are a SEC1 encoding of a secp256k1 point, that is,
/// whether VerifyingKey::from_sec1_bytes accepts them.
pub uninterp spec fn pubkey_bytes_valid(pk: Seq<u8>) -> bool;

/// The SPKI PEM text of a SEC1-encoded public key, a function of the key
/// bytes alone.
pub uninterp spec fn pem_of(pk: Seq<u8>) -> Seq<char>;

/// The SEC1 compressed bytes recovered from a PEM text, a function of the
/// text alone; None when the text does not parse as a public key.
pub uninterp spec fn pem_parse_of(s: Seq<char>) -> Option<Seq<u8>>;

/// Relies on SigningKey::random and rand::thread_rng for a fresh secret
/// scalar; any scalar the generator returns round-trips through
/// SigningKey::from_slice and yields a SEC1-parseable public key.
#[verifier::external_body]
fn generate_key_bytes() -> (r: Vec<u8>)
    ensures
        key_bytes_valid(r@),
        pubkey_bytes_valid(pubkey_of(r@)),
        r@.len() == 32,
{
    SigningKey::random(&mut rand::thread_rng()).to_bytes().to_vec()
}

/// Relies on SigningKey::from_slice and VerifyingKey::to_encoded_point:
/// the compressed SEC1 bytes of the derived public key (33 bytes), a
/// function of the scalar bytes alone; the empty string when the scalar
/// is invalid.
#[verifier::external_body]
fn derive_public_key(sk: &Vec<u8>) -> (r: Vec<u8>)
    ensures
        r@ == pubkey_of(sk@),
        r@.len() == 33 || r@.len() == 0,
{
    match SigningKey::from_slice(sk) {
        Ok(key) => key.verifying_key().to_encoded_point(true).as_bytes().to_vec(),
        Err(_) => Vec::new(),
    }
}

/// Relies on SigningKey::from_slice and Signer::sign (RFC 6979, so a
/// function of scalar and message alone); a signature it produces verifies
/// under the derived public key. Fails exactly on invalid scalar bytes.
#[verifier::external_body]
fn ecdsa_sign(sk: &Vec<u8>, msg: &Vec<u8>) -> (r: Option<Vec<u8>>)
    ensures
        r is Some <==> key_bytes_valid(sk@),
        r matches Some(s) ==> s@ == sign_of(sk@, msg@) && sig_valid(s@, msg@, pubkey_of(sk@)),
{
    match SigningKey::from_slice(sk) {
        Ok(key) => {
            let sig: k256::ecdsa::Signature = key.sign(msg);
            Some(sig.to_bytes().to_vec())
        },
        Err(_) => None,
    }
}

/// Relies on VerifyingKey::from_sec1_bytes, Signature::from_slice and
/// Verifier::verify; the outcome is a function of the three byte strings
/// alone, and false whenever key or signature bytes do not parse.
#[verifier::external_body]
fn ecdsa_verify(sig: &Vec<u8>, msg: &Vec<u8>, pk: &Vec<u8>) -> (r: bool)
    ensures
        r == sig_valid(sig@, msg@, pk@),
{
    let Ok(key) = VerifyingKey::from_sec1_bytes(pk) else {
        return false;
    };
    let Ok(signature) = k256::ecdsa::Signature::from_slice(sig) else {
        return false;
    };
    key.verify(msg, &signature).is_ok()
}

/// Relies on VerifyingKey::from_sec1_bytes and EncodePublicKey's
/// to_public_key_pem; the text is a function of the key bytes alone.
/// Parsing the produced text recovers the compressed point bytes, so the
/// round trip is the identity only for a compressed (33-byte) input; an
/// uncompressed input comes back in compressed form. Fails exactly on
/// bytes that are not a SEC1 point.
#[verifier::external_body]
fn pubkey_to_pem(pk: &Vec<u8>) -> (r: Option<String>)
    ensures
        r is Some <==> pubkey_bytes_valid(pk@),
        r matches Some(s) ==> s@ == pem_of(pk@) && (pk@.len() == 33 ==> pem_parse_of(pem_of(pk@))
            == Some(pk@)),
{
    let Ok(key) = VerifyingKey::from_sec1_bytes(pk) else {
        return None;
    };
    key.to_public_key_pem(Default::default()).ok()
}

/// Relies on DecodePublicKey's from_public_key_pem and
/// VerifyingKey::to_encoded_point; the outcome is a function of the text
/// alone.
#[verifier::external_body]
fn pubkey_from_pem(text: &str) -> (r: Option<Vec<u8>>)
    ensures
        match r {
            Some(b) => pem_parse_of(text@) == Some(b@),
            None => pem_parse_of(text@) is None,
        },
{
    match VerifyingKey::from_public_key_pem(text) {
        Ok(key) => Some(key.to_encoded_point(true).as_bytes().to_vec()),
        Err(_) => None,
    }
}

/// A public key, as its SEC1 compressed point bytes.
pub struct PublicKey {
    bytes: Vec<u8>,
}

impl View for PublicKey {
    type V = Seq<u8>;

    closed spec fn view(&self) -> Seq<u8> {
        self.bytes@
    }
}

impl PublicKey {
    /// Wraps encoded key bytes.
    pub fn from_bytes(bytes: Vec<u8>) -> (r: PublicKey)
        ensures
            r@ == bytes@,
    {
        PublicKey { bytes }
    }

    /// The encoded key bytes.
    pub fn as_bytes(&self) -> (r: &Vec<u8>)
        ensures
            r@ == self@,
    {
        &self.bytes
    }

    /// Renders the key as SPKI PEM text; fails exactly when the bytes are
    /// not a SEC1 point. Reading the text back recovers the compressed
    /// point, so save-then-load is the identity for the compressed keys
    /// this library derives.
    pub fn save(&self) -> (r: Option<String>)
        ensures
            r is Some <==> pubkey_bytes_valid(self@),
            r matches Some(s) ==> s@ == pem_of(self@) && (self@.len() == 33 ==> pem_parse_of(
                pem_of(self@),
            ) == Some(self@)),
    {
        pubkey_to_pem(&self.bytes)
    }

    /// Reads a key back from SPKI PEM text.
    pub fn load(text: &str) -> (r: Option<PublicKey>)
        ensures
            match r {
                Some(k) => pem_parse_of(text@) == Some(k@),
                None => pem_parse_of(text@) is None,
            },
    {
        match pubkey_from_pem(text) {
            Some(bytes) => Some(PublicKey { bytes }),
            None => None,
        }
    }

    /// Equality of encoded bytes.
    pub fn equals(&self, other: &PublicKey) -> (r: bool)
        ensures
            r == (self@ == other@),
    {
        bytes_eq(&self.bytes, &other.bytes)
    }
}

impl Clone for PublicKey {
    fn clone(&self) -> (r: Self)
        ensures
            r@ == self@,
    {
        PublicKey { bytes: copy_bytes(&self.bytes) }
    }
}

impl PartialEq for PublicKey {
    fn eq(&self, other: &Self) -> (r: bool) {
        bytes_eq(&self.bytes, &other.bytes)
    }
}

impl vstd::std_specs::cmp::PartialEqSpecImpl for PublicKey {
    open spec fn obeys_eq_spec() -> bool {
        true
    }

    open spec fn eq_spec(&self, other: &Self) -> bool {
        self@ == other@
    }
}

/// A private key, as its secret scalar bytes.
pub struct PrivateKey {
    bytes: Vec<u8>,
}

impl View for PrivateKey {
    type V = Seq<u8>;

    closed spec fn view(&self) -> Seq<u8> {
        self.bytes@
    }
}

impl PrivateKey {
    /// Generates a fresh random key.
    pub fn new_key() -> (r: PrivateKey)
        ensures
            key_bytes_valid(r@),
            pubkey_bytes_valid(pubkey_of(r@)),
            r@.len() == 32,
    {
        PrivateKey { bytes: generate_key_bytes() }
    }

    /// The public key this scalar controls, in compressed form.
    pub fn public_key(&self) -> (r: PublicKey)
        ensures
            r@ == pubkey_of(self@),
            r@.len() == 33 || r@.len() == 0,
    {
        PublicKey { bytes: derive_public_key(&self.bytes) }
    }

    /// Wraps secret scalar bytes.
    pub fn from_bytes(bytes: Vec<u8>) -> (r: PrivateKey)
        ensures
            r@ == bytes@,
    {
        PrivateKey { bytes }
    }

    /// The canonical binary form: the scalar as a length-prefixed byte
    /// string.
    pub fn save(&self) -> (r: Vec<u8>)
        ensures
            r@ == enc_bytes(self@),
    {
        let mut out: Vec<u8> = Vec::new();
        encode_bytes(&mut out, &self.bytes);
        proof {
            assert(out@ =~= enc_bytes(self@));
        }
        out
    }

    /// Reads a key back from its canonical binary form; recovers exactly
    /// what `save` wrote.
    pub fn load(data: &Vec<u8>) -> (r: Option<PrivateKey>)
        ensures
            forall|sk: Seq<u8>, rest: Seq<u8>|
                data@ == #[trigger] (enc_bytes(sk) + rest) ==> (r matches Some(k) && k@ == sk),
    {
        proof {
            assert(data@.skip(0) =~= data@);
        }
        match crate::codec::decode_bytes(data, 0) {
            Some((bytes, _)) => Some(PrivateKey { bytes }),
            None => None,
        }
    }
}

impl Clone for PrivateKey {
    fn clone(&self) -> (r: Self)
        ensures
            r@ == self@,
    {
        PrivateKey { bytes: copy_bytes(&self.bytes) }
    }
}

/// An ECDSA signature, as its 64 fixed-width bytes.
pub struct Signature {
    bytes: Vec<u8>,
}

impl View for Signature {
    type V = Seq<u8>;

    closed spec fn view(&self) -> Seq<u8> {
        self.bytes@
    }
}

impl Signature {
    /// Signs the little-endian bytes of an output hash with a private key;
    /// fails exactly when the key bytes are not a valid scalar.
    pub fn sign_output(output_hash: &crate::hash::Hash, private_key: &PrivateKey) -> (r: Option<
        Signature,
    >)
        ensures
            r is Some <==> key_bytes_valid(private_key@),
            r matches Some(s) ==> s@ == sign_of(private_key@, output_hash@.reverse()) && sig_valid(
                s@,
                output_hash@.reverse(),
                pubkey_of(private_key@),
            ),
    {
        let msg = output_hash.as_bytes();
        match ecdsa_sign(&private_key.bytes, &msg) {
            Some(bytes) => Some(Signature { bytes }),
            None => None,
        }
    }

    /// Checks this signature over the little-endian bytes of an output
    /// hash against a public key.
    pub fn verify(&self, output_hash: &crate::hash::Hash, public_key: &PublicKey) -> (r: bool)
        ensures
            r == sig_valid(self@, output_hash@.reverse(), public_key@),
    {
        let msg = output_hash.as_bytes();
        ecdsa_verify(&self.bytes, &msg, &public_key.bytes)
    }

    /// Wraps encoded signature bytes.
    pub fn from_bytes(bytes: Vec<u8>) -> (r: Signature)
        ensures
            r@ == bytes@,
    {
        Signature { bytes }
    }

    /// The encoded signature bytes.
    pub fn as_bytes(&self) -> (r: &Vec<u8>)
        ensures
            r@ == self@,
    {
        &self.bytes
    }
}

impl Clone for Signature {
    fn clone(&self) -> (r: Self)
        ensures
            r@ == self@,
    {
        Signature { bytes: copy_bytes(&self.bytes) }
    }
}

impl PartialEq for Signature {
    fn eq(&self, other: &Self) -> (r: bool) {
        bytes_eq(&self.bytes, &other.bytes)
    }
}

impl vstd::std_specs::cmp::PartialEqSpecImpl for Signature {
    open spec fn obeys_eq_spec() -> bool {
        true
    }

    open spec fn eq_spec(&self, other: &Self) -> bool {
        self@ == other@
    }
}

} // verus!
