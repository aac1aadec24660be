use daxo_eco::crypto::{encode_sensor_data, sign_measurement, KeyPair};
use daxo_eco::persist::{seq_from_bytes, seq_to_bytes};
use daxo_eco::sensor_data::{encode_measurement_payload, MeasurementPayload, SensorData};
use daxo_eco::server::{export_openaq, location_name, submit_measurement, SubmitOutcome};
use daxo_eco::store::{Store, StoredMeasurement};

fn sample(seq: u64) -> SensorData {
    SensorData {
        timestamp: "2026-07-26T15:00:00Z".to_string(),
        sequence_id: seq,
        pm25_bits: 25.0f32.to_bits(),
        temperature_bits: 22.0f32.to_bits(),
        humidity_bits: 50.0f32.to_bits(),
        latitude_bits: 50.4501f64.to_bits(),
        longitude_bits: 30.5234f64.to_bits(),
    }
}

fn payload(data_seq: u64, key: &[u8]) -> MeasurementPayload {
    MeasurementPayload { data: encode_sensor_data(&sample(data_seq)), signature: vec![0; 64], public_key: key.to_vec() }
}

#[test]
fn store_accepts_increasing_and_refuses_replay() {
    let mut store = Store::new();
    assert_eq!(store.insert(payload(5, &[1; 32])), Ok(()));
    assert_eq!(store.insert(payload(5, &[1; 32])), Err("replay attack".to_string()));
    assert_eq!(store.insert(payload(4, &[1; 32])), Err("replay attack".to_string()));
    assert_eq!(store.insert(payload(6, &[1; 32])), Ok(()));
    // Another device has its own sequence.
    assert_eq!(store.insert(payload(1, &[2; 32])), Ok(()));
    assert_eq!(store.latest(100).len(), 3);
}

#[test]
fn store_refuses_invalid_data() {
    let mut store = Store::new();
    let p = MeasurementPayload { data: vec![0xff], signature: vec![], public_key: vec![] };
    assert_eq!(store.insert(p), Err("invalid sensor data".to_string()));
    assert_eq!(store.latest(10).len(), 0);
}

#[test]
fn latest_returns_the_last_n_oldest_first() {
    let mut store = Store::new();
    for s in 1..=5u64 {
        assert_eq!(store.insert(payload(s, &[3; 32])), Ok(()));
    }
    let last: Vec<u64> = store.latest(2).iter().map(|m| m.data.sequence_id).collect();
    assert_eq!(last, vec![4, 5]);
    let all: Vec<u64> = store.latest(10).iter().map(|m| m.data.sequence_id).collect();
    assert_eq!(all, vec![1, 2, 3, 4, 5]);
    assert_eq!(store.latest(0).len(), 0);
}

#[test]
fn stored_measurement_from_payload() {
    let p = payload(9, &[4; 32]);
    let m = StoredMeasurement::from_payload(p.clone());
    assert_eq!(m.data, sample(9));
    assert_eq!(m.signature, p.signature);
    assert_eq!(m.public_key, p.public_key);
}

#[test]
fn legit_replay_and_tampered_requests() {
    let kp = KeyPair::generate();
    let mut store = Store::new();
    let body = encode_measurement_payload(&sign_measurement(&sample(100), &kp));

    let first = submit_measurement(&mut store, &body);
    assert_eq!(first, SubmitOutcome::Accepted);
    assert_eq!(first.status_code(), 200);
    assert_eq!(first.response_body(), "accepted");

    let again = submit_measurement(&mut store, &body);
    assert_eq!(again, SubmitOutcome::Conflict("replay attack".to_string()));
    assert_eq!(again.status_code(), 409);
    assert_eq!(again.response_body(), "replay attack");

    let mut tampered = sign_measurement(&sample(100), &kp);
    let mut changed = sample(100);
    changed.pm25_bits = 999.9f32.to_bits();
    tampered.data = encode_sensor_data(&changed);
    let bad = submit_measurement(&mut store, &encode_measurement_payload(&tampered));
    assert_eq!(bad, SubmitOutcome::Unauthorized);
    assert_eq!(bad.status_code(), 401);
    assert_eq!(bad.response_body(), "invalid signature");

    assert_eq!(store.latest(100).len(), 1);
}

#[test]
fn malformed_body_is_a_bad_request() {
    let mut store = Store::new();
    let r = submit_measurement(&mut store, &[0x80]);
    assert_eq!(r, SubmitOutcome::BadRequest);
    assert_eq!(r.status_code(), 400);
    assert_eq!(r.response_body(), "invalid postcard");
}

#[test]
fn next_sequence_is_accepted() {
    let kp = KeyPair::generate();
    let mut store = Store::new();
    for s in [1u64, 2, 10] {
        let body = encode_measurement_payload(&sign_measurement(&sample(s), &kp));
        assert_eq!(submit_measurement(&mut store, &body), SubmitOutcome::Accepted);
    }
    let body = encode_measurement_payload(&sign_measurement(&sample(3), &kp));
    assert_eq!(
        submit_measurement(&mut store, &body),
        SubmitOutcome::Conflict("replay attack".to_string())
    );
}

#[test]
fn location_name_uses_first_eight_key_bytes() {
    let key: Vec<u8> = (0u8..32).map(|i| i * 17).collect();
    assert_eq!(location_name(&key), "Kyiv-Daxo-0011223344556677");
    assert_eq!(location_name(&[0xab, 0xcd, 0xef, 0x01, 0x23, 0x45, 0x67, 0x89]), "Kyiv-Daxo-abcdef0123456789");
}

#[test]
fn openaq_export_of_latest() {
    let kp = KeyPair::generate();
    let mut store = Store::new();
    let body = encode_measurement_payload(&sign_measurement(&sample(1), &kp));
    assert_eq!(submit_measurement(&mut store, &body), SubmitOutcome::Accepted);
    let records = export_openaq(&store);
    assert_eq!(records.len(), 1);
    let r = &records[0];
    assert_eq!(r.location, format!("Kyiv-Daxo-{}", hex::encode(&kp.public[..8])));
    assert_eq!(r.parameter, "pm25");
    assert_eq!(r.unit, "µg/m³");
    assert_eq!(f32::from_bits(r.value_bits), 25.0);
    assert_eq!(f64::from_bits(r.coordinates.latitude_bits), 50.4501);
    assert_eq!(f64::from_bits(r.coordinates.longitude_bits), 30.5234);
}

#[test]
fn openaq_export_is_limited_to_one_hundred() {
    let mut store = Store::new();
    for s in 1..=120u64 {
        assert_eq!(store.insert(payload(s, &[6; 32])), Ok(()));
    }
    let records = export_openaq(&store);
    assert_eq!(records.len(), 100);
}

#[test]
fn sequence_number_bytes() {
    assert_eq!(seq_to_bytes(0x0102_0304_0506_0708), vec![8, 7, 6, 5, 4, 3, 2, 1]);
    assert_eq!(seq_from_bytes(&[8, 7, 6, 5, 4, 3, 2, 1]), 0x0102_0304_0506_0708);
    for s in [0u64, 1, 255, 256, u64::MAX] {
        let b = seq_to_bytes(s);
        let mut a = [0u8; 8];
        a.copy_from_slice(&b);
        assert_eq!(seq_from_bytes(&a), s);
        assert_eq!(b, s.to_le_bytes().to_vec());
    }
}
