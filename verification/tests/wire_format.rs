use daxo_eco::codec::{decode_bytes, decode_varint, encode_bytes, encode_varint, read_le, write_le};
use daxo_eco::crypto::encode_sensor_data;
use daxo_eco::sensor_data::{
    decode_measurement_payload, decode_sensor_data, encode_measurement_payload, MeasurementPayload,
    SensorData,
};

fn sample() -> SensorData {
    SensorData {
        timestamp: "2026-07-26T15:00:00Z".to_string(),
        sequence_id: 1,
        pm25_bits: 25.0f32.to_bits(),
        temperature_bits: 22.0f32.to_bits(),
        humidity_bits: 50.0f32.to_bits(),
        latitude_bits: 50.45f64.to_bits(),
        longitude_bits: 30.52f64.to_bits(),
    }
}

#[test]
fn varint_small_and_large_values() {
    let mut out = Vec::new();
    encode_varint(&mut out, 0);
    assert_eq!(out, vec![0x00]);
    let mut out = Vec::new();
    encode_varint(&mut out, 127);
    assert_eq!(out, vec![0x7f]);
    let mut out = Vec::new();
    encode_varint(&mut out, 128);
    assert_eq!(out, vec![0x80, 0x01]);
    let mut out = Vec::new();
    encode_varint(&mut out, 300);
    assert_eq!(out, vec![0xac, 0x02]);
    let mut out = Vec::new();
    encode_varint(&mut out, u64::MAX);
    assert_eq!(out, vec![0xff, 0xff, 0xff, 0xff, 0xff, 0xff, 0xff, 0xff, 0xff, 0x01]);
}

#[test]
fn varint_matches_postcard() {
    for v in [0u64, 1, 127, 128, 255, 300, 16383, 16384, 1 << 35, u64::MAX - 1, u64::MAX] {
        let mut out = Vec::new();
        encode_varint(&mut out, v);
        assert_eq!(out, postcard::to_allocvec(&v).unwrap());
    }
}

#[test]
fn varint_decode_positions_and_errors() {
    assert_eq!(decode_varint(&[0xac, 0x02, 0x07], 0), Some((300, 2)));
    assert_eq!(decode_varint(&[0x09, 0xac, 0x02], 1), Some((300, 3)));
    // A non-minimal encoding of zero is accepted.
    assert_eq!(decode_varint(&[0x80, 0x00], 0), Some((0, 2)));
    // Input ends inside the varint.
    assert_eq!(decode_varint(&[0x80, 0x80], 0), None);
    assert_eq!(decode_varint(&[], 0), None);
    // Ten bytes with a last byte above 1 overflow a u64.
    assert_eq!(
        decode_varint(&[0xff, 0xff, 0xff, 0xff, 0xff, 0xff, 0xff, 0xff, 0xff, 0x02], 0),
        None
    );
    assert_eq!(
        decode_varint(&[0xff, 0xff, 0xff, 0xff, 0xff, 0xff, 0xff, 0xff, 0xff, 0x01], 0),
        Some((u64::MAX, 10))
    );
    // Eleven bytes are never a u64.
    assert_eq!(
        decode_varint(&[0x80, 0x80, 0x80, 0x80, 0x80, 0x80, 0x80, 0x80, 0x80, 0x80, 0x00], 0),
        None
    );
}

#[test]
fn little_endian_fields() {
    let mut out = Vec::new();
    write_le(&mut out, 0x0102_0304, 4);
    assert_eq!(out, vec![0x04, 0x03, 0x02, 0x01]);
    assert_eq!(read_le(&out, 0, 4), 0x0102_0304);
    assert_eq!(read_le(&[9, 0x34, 0x12], 1, 2), 0x1234);
}

#[test]
fn byte_strings_round_trip() {
    let mut out = Vec::new();
    encode_bytes(&mut out, &[1, 2, 3]);
    assert_eq!(out, vec![3, 1, 2, 3]);
    assert_eq!(decode_bytes(&out, 0), Some((vec![1, 2, 3], 4)));
    // Announced length longer than the input.
    assert_eq!(decode_bytes(&[5, 1, 2], 0), None);
}

#[test]
fn sensor_data_matches_postcard() {
    let d = sample();
    let expected = postcard::to_allocvec(&(
        "2026-07-26T15:00:00Z".to_string(),
        1u64,
        25.0f32,
        22.0f32,
        50.0f32,
        50.45f64,
        30.52f64,
    ))
    .unwrap();
    assert_eq!(encode_sensor_data(&d), expected);
}

#[test]
fn sensor_data_round_trip_with_trailing_bytes() {
    let d = sample();
    let mut bytes = encode_sensor_data(&d);
    assert_eq!(decode_sensor_data(&bytes), Some(d.clone()));
    bytes.extend_from_slice(&[0xde, 0xad]);
    assert_eq!(decode_sensor_data(&bytes), Some(d));
}

#[test]
fn sensor_data_rejects_truncated_and_bad_utf8() {
    let bytes = encode_sensor_data(&sample());
    assert_eq!(decode_sensor_data(&bytes[..bytes.len() - 1]), None);
    let mut bad = bytes.clone();
    bad[1] = 0xff; // first timestamp byte is no longer UTF-8
    assert_eq!(decode_sensor_data(&bad), None);
    assert_eq!(decode_sensor_data(&[]), None);
}

#[test]
fn payload_matches_postcard_and_round_trips() {
    let p = MeasurementPayload { data: vec![1, 2, 3], signature: vec![4; 64], public_key: vec![5; 32] };
    let bytes = encode_measurement_payload(&p);
    let expected = postcard::to_allocvec(&(vec![1u8, 2, 3], vec![4u8; 64], vec![5u8; 32])).unwrap();
    assert_eq!(bytes, expected);
    assert_eq!(decode_measurement_payload(&bytes), Some(p));
    assert_eq!(decode_measurement_payload(&bytes[..bytes.len() - 1]), None);
}
