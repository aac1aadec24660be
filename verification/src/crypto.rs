//! Ed25519 key pairs, signing of encoded measurements and checking of received
//! payloads. The curve arithmetic is `ed25519-dalek`'s; what each of its results
//! is gets a name below, and the facts about those names that this module relies
//! on are the ones stated by the wrappers that make the calls.

use vstd::prelude::*;
use ed25519_dalek::{Signature, Signer, SigningKey, Verifier, VerifyingKey};
use rand_core::OsRng;
use crate::codec::{encode_bytes, encode_varint, le_bytes, spec_encode_varint, write_le};
use vstd::utf8::encode_utf8;
use crate::sensor_data::{
    MeasurementPayload, MeasurementPayloadView, SensorData, spec_encode_sensor_data,
};

verus! {

/// The Ed25519 public key (compressed point) derived from a 32-byte secret key.
pub uninterp spec fn ed25519_public_key(secret: Seq<u8>) -> [u8; 32];

/// The Ed25519 signature (RFC 8032, deterministic) of `message` under `secret`.
pub uninterp spec fn ed25519_signature(secret: Seq<u8>, message: Seq<u8>) -> [u8; 64];

/// Whether 32 bytes decompress to a point of the curve, i.e. are accepted as a
/// public key.
pub uninterp spec fn ed25519_point_valid(public_key: Seq<u8>) -> bool;

/// Whether `signature` is a valid Ed25519 signature of `message` under the
/// (valid) public key `public_key`.
pub uninterp spec fn ed25519_verify(public_key: Seq<u8>, message: Seq<u8>, signature: Seq<u8>) -> bool;

/// A secret key and the public key that belongs to it: the public key is the one
/// derived from the secret, it is a valid point, and every signature made with
/// the secret verifies under it.
pub open spec fn keys_match(secret: Seq<u8>, public: [u8; 32]) -> bool {
    &&& public == ed25519_public_key(secret)
    &&& ed25519_point_valid(public@)
    &&& forall|m: Seq<u8>| #[trigger]
        ed25519_verify(public@, m, ed25519_signature(secret, m)@)
}

/// `SigningKey::from_bytes(secret).verifying_key().to_bytes()`: the derived public
/// key. Also claims what Ed25519 guarantees of it: it decompresses, and every
/// signature made with `secret` verifies under it.
#[verifier::external_body]
fn derive_public_key(secret: &[u8; 32]) -> (r: [u8; 32])
    ensures
        r == ed25519_public_key(secret@),
        ed25519_point_valid(r@),
        forall|m: Seq<u8>| #[trigger] ed25519_verify(r@, m, ed25519_signature(secret@, m)@),
{
    SigningKey::from_bytes(secret).verifying_key().to_bytes()
}

/// `SigningKey::generate(&mut OsRng)`: 32 bytes from the operating system's random
/// number generator. Nothing is claimed of them.
#[verifier::external_body]
fn random_secret_key() -> (r: [u8; 32]) {
    SigningKey::generate(&mut OsRng).to_bytes()
}

/// `Signer::sign` of a `SigningKey` built from `secret`: the signature of `message`.
#[verifier::external_body]
fn ed25519_sign(secret: &[u8; 32], message: &[u8]) -> (r: [u8; 64])
    ensures
        r == ed25519_signature(secret@, message@),
{
    SigningKey::from_bytes(secret).sign(message).to_bytes()
}

/// `Signature::from_slice`: accepts exactly the 64-byte slices, and keeps their bytes.
#[verifier::external_body]
fn signature_from_slice(bytes: &[u8]) -> (r: Option<[u8; 64]>)
    ensures
        r is Some <==> bytes@.len() == 64,
        r matches Some(a) ==> a@ == bytes@,
{
    match Signature::from_slice(bytes) {
        Ok(s) => Some(s.to_bytes()),
        Err(_) => None,
    }
}

/// `VerifyingKey::try_from(&[u8])`: accepts exactly the 32-byte slices that
/// decompress to a curve point, and keeps their bytes.
#[verifier::external_body]
fn verifying_key_from_slice(bytes: &[u8]) -> (r: Option<[u8; 32]>)
    ensures
        r is Some <==> (bytes@.len() == 32 && ed25519_point_valid(bytes@)),
        r matches Some(a) ==> a@ == bytes@,
{
    match VerifyingKey::try_from(bytes) {
        Ok(k) => Some(k.to_bytes()),
        Err(_) => None,
    }
}

/// `Verifier::verify` of the `VerifyingKey` made from `public_key`: whether the
/// signature of `message` checks.
#[verifier::external_body]
fn verify_signature(public_key: &[u8; 32], message: &[u8], signature: &[u8; 64]) -> (r: bool)
    requires
        ed25519_point_valid(public_key@),
    ensures
        r == ed25519_verify(public_key@, message@, signature@),
{
    match VerifyingKey::from_bytes(public_key) {
        Ok(k) => k.verify(message, &Signature::from_bytes(signature)).is_ok(),
        Err(_) => false,
    }
}

/// A node's signing identity: the Ed25519 public key and the secret key it comes from.
#[derive(Debug)]
pub struct KeyPair {
    pub public: [u8; 32],
    pub secret: [u8; 32],
}

impl KeyPair {
    /// The two keys belong together.
    pub open spec fn wf(&self) -> bool {
        keys_match(self.secret@, self.public)
    }

    /// A new key pair from a random secret key.
    pub fn generate() -> (kp: Self)
        ensures
            kp.wf(),
    {
        let secret = random_secret_key();
        Self::from_secret_bytes(&secret)
    }

    /// The key pair of a given secret key.
    pub fn from_secret_bytes(bytes: &[u8; 32]) -> (kp: Self)
        ensures
            kp.secret == *bytes,
            kp.public == ed25519_public_key(bytes@),
            kp.wf(),
    {
        let public = derive_public_key(bytes);
        KeyPair { public, secret: *bytes }
    }

    /// The public key as a byte vector.
    pub fn public_bytes(&self) -> (r: Vec<u8>)
        ensures
            r@ == self.public@,
    {
        vstd::slice::slice_to_vec(self.public.as_slice())
    }
}

/// Signs `data` with the secret key of `keypair`.
pub fn sign_data_binary(data: &[u8], keypair: &KeyPair) -> (r: Vec<u8>)
    ensures
        r@ == ed25519_signature(keypair.secret@, data@)@,
        r@.len() == 64,
{
    let sig = ed25519_sign(&keypair.secret, data);
    vstd::slice::slice_to_vec(sig.as_slice())
}

/// A payload is authentic when its signature has 64 bytes, its public key has 32
/// bytes and is a curve point, and the signature checks against the data.
pub open spec fn spec_verify_payload(p: MeasurementPayloadView) -> bool {
    &&& p.signature.len() == 64
    &&& p.public_key.len() == 32
    &&& ed25519_point_valid(p.public_key)
    &&& ed25519_verify(p.public_key, p.data, p.signature)
}

/// Checks the signature of a payload against the public key that it carries.
pub fn verify_payload(payload: &MeasurementPayload) -> (r: bool)
    ensures
        r == spec_verify_payload(payload@),
{
    if payload.signature.len() != 64 || payload.public_key.len() != 32 {
        return false;
    }
    let signature = match signature_from_slice(payload.signature.as_slice()) {
        Some(s) => s,
        None => return false,
    };
    let key = match verifying_key_from_slice(payload.public_key.as_slice()) {
        Some(k) => k,
        None => return false,
    };
    verify_signature(&key, payload.data.as_slice(), &signature)
}

/// Encodes a measurement record; these are the bytes that get signed.
pub fn encode_sensor_data(data: &SensorData) -> (r: Vec<u8>)
    ensures
        r@ == spec_encode_sensor_data(data@),
        r@ == spec_encode_varint(encode_utf8(data.timestamp@).len()) + encode_utf8(data.timestamp@)
            + spec_encode_varint(data.sequence_id as nat) + le_bytes(data.pm25_bits as nat, 4)
            + le_bytes(data.temperature_bits as nat, 4) + le_bytes(data.humidity_bits as nat, 4)
            + le_bytes(data.latitude_bits as nat, 8) + le_bytes(data.longitude_bits as nat, 8),
{
    let mut out: Vec<u8> = Vec::new();
    encode_bytes(&mut out, data.timestamp.as_str().as_bytes());
    encode_varint(&mut out, data.sequence_id);
    write_le(&mut out, data.pm25_bits as u64, 4);
    write_le(&mut out, data.temperature_bits as u64, 4);
    write_le(&mut out, data.humidity_bits as u64, 4);
    write_le(&mut out, data.latitude_bits, 8);
    write_le(&mut out, data.longitude_bits, 8);
    assert(out@ =~= spec_encode_sensor_data(data@));
    out
}

/// The payload a node sends for a measurement: the encoded record, its signature
/// and the node's public key.
pub fn sign_measurement(data: &SensorData, keypair: &KeyPair) -> (r: MeasurementPayload)
    ensures
        r@.data == spec_encode_sensor_data(data@),
        r@.signature == ed25519_signature(keypair.secret@, r@.data)@,
        r@.public_key == keypair.public@,
        keypair.wf() ==> spec_verify_payload(r@),
{
    let bytes = encode_sensor_data(data);
    let signature = sign_data_binary(bytes.as_slice(), keypair);
    let public_key = keypair.public_bytes();
    MeasurementPayload { data: bytes, signature, public_key }
}

/// What is signed with a matching key pair checks: the payload made of any data,
/// the signature of that data and the public key is authentic.
pub proof fn lemma_signed_payload_verifies(kp: KeyPair, data: Seq<u8>)
    requires
        kp.wf(),
    ensures
        spec_verify_payload(
            MeasurementPayloadView {
                data,
                signature: ed25519_signature(kp.secret@, data)@,
                public_key: kp.public@,
            },
        ),
{
    assert(ed25519_verify(kp.public@, data, ed25519_signature(kp.secret@, data)@));
}

} // verus!
