use daxo_eco::crypto::{
    encode_sensor_data, sign_data_binary, sign_measurement, verify_payload, KeyPair,
};
use daxo_eco::sensor_data::{MeasurementPayload, SensorData};

fn bytes32(h: &str) -> [u8; 32] {
    let v = hex::decode(h).unwrap();
    let mut a = [0u8; 32];
    a.copy_from_slice(&v);
    a
}

const SECRET_1: &str = "9d61b19deffd5a60ba844af492ec2cc44449c5697b326919703bac031cae7f60";
const PUBLIC_1: &str = "d75a980182b10ab7d54bfed3c964073a0ee172f3daa62325af021a68f707511a";
const SIG_1: &str = "e5564300c360ac729086e2cc806e828a84877f1eb8e5d974d873e065224901555fb8821590a33bacc61e39701cf9b46bd25bf5f0595bbe24655141438e7a100b";

fn sample(seq: u64) -> SensorData {
    SensorData {
        timestamp: "2026-07-26T15:00:00Z".to_string(),
        sequence_id: seq,
        pm25_bits: 25.0f32.to_bits(),
        temperature_bits: 22.0f32.to_bits(),
        humidity_bits: 50.0f32.to_bits(),
        latitude_bits: 50.4501f64.to_bits(),
        longitude_bits: 30.5234f64.to_bits(),
    }
}

#[test]
fn key_pair_from_known_secret() {
    let kp = KeyPair::from_secret_bytes(&bytes32(SECRET_1));
    assert_eq!(kp.public, bytes32(PUBLIC_1));
    assert_eq!(kp.public_bytes(), hex::decode(PUBLIC_1).unwrap());
    assert_eq!(kp.secret, bytes32(SECRET_1));
}

#[test]
fn signature_of_empty_message_is_the_known_one() {
    let kp = KeyPair::from_secret_bytes(&bytes32(SECRET_1));
    let sig = sign_data_binary(&[], &kp);
    assert_eq!(sig, hex::decode(SIG_1).unwrap());
}

#[test]
fn known_signature_verifies() {
    let p = MeasurementPayload {
        data: vec![],
        signature: hex::decode(SIG_1).unwrap(),
        public_key: hex::decode(PUBLIC_1).unwrap(),
    };
    assert!(verify_payload(&p));
}

#[test]
fn signed_measurement_verifies() {
    let kp = KeyPair::generate();
    let p = sign_measurement(&sample(7), &kp);
    assert_eq!(p.data, encode_sensor_data(&sample(7)));
    assert_eq!(p.public_key, kp.public_bytes());
    assert_eq!(p.signature.len(), 64);
    assert!(verify_payload(&p));
}

#[test]
fn tampered_data_does_not_verify() {
    let kp = KeyPair::generate();
    let mut p = sign_measurement(&sample(7), &kp);
    let mut tampered = sample(7);
    tampered.pm25_bits = 999.9f32.to_bits();
    p.data = encode_sensor_data(&tampered);
    assert!(!verify_payload(&p));
}

#[test]
fn wrong_lengths_do_not_verify() {
    let kp = KeyPair::generate();
    let p = sign_measurement(&sample(1), &kp);
    let short_sig = MeasurementPayload {
        data: p.data.clone(),
        signature: p.signature[..63].to_vec(),
        public_key: p.public_key.clone(),
    };
    assert!(!verify_payload(&short_sig));
    let long_key = MeasurementPayload {
        data: p.data.clone(),
        signature: p.signature.clone(),
        public_key: [p.public_key.clone(), vec![0]].concat(),
    };
    assert!(!verify_payload(&long_key));
}

#[test]
fn another_key_does_not_verify() {
    let kp = KeyPair::generate();
    let other = KeyPair::from_secret_bytes(&bytes32(SECRET_1));
    let mut p = sign_measurement(&sample(3), &kp);
    p.public_key = other.public_bytes();
    assert!(!verify_payload(&p));
}

#[test]
fn generated_keys_differ() {
    let a = KeyPair::generate();
    let b = KeyPair::generate();
    assert_ne!(a.public, b.public);
}
