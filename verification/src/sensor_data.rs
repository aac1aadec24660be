//! The measurement record and the signed envelope that carries it, with their
//! binary encodings: fields in declaration order, strings and byte vectors as a
//! varint length followed by the bytes, integers as varints, and each
//! floating-point reading as its bit pattern in little-endian order.

use vstd::prelude::*;
use vstd::utf8::{decode_utf8, encode_utf8, encode_utf8_decode_utf8, encode_utf8_valid_utf8, valid_utf8};
use crate::codec::{
    decode_bytes, decode_varint, encode_bytes, le_bytes, le_value, lemma_bytes_roundtrip,
    lemma_encode_bytes_layout, lemma_le_bytes_shape, lemma_le_roundtrip, lemma_pow256_values,
    lemma_varint_roundtrip, pow256, read_le, spec_decode_bytes, spec_decode_varint, spec_encode_bytes,
    spec_encode_varint,
};

verus! {

/// One timestamped reading of a sensor node. The readings (PM2.5 in µg/m³,
/// temperature, relative humidity, latitude, longitude) are floating-point numbers
/// on the node; they are held here as their IEEE-754 bit patterns (`f32::to_bits`,
/// `f64::to_bits`), which is exactly what the wire format carries.
#[derive(Debug, Clone, PartialEq, Eq)]
pub struct SensorData {
    pub timestamp: String,
    pub sequence_id: u64,
    pub pm25_bits: u32,
    pub temperature_bits: u32,
    pub humidity_bits: u32,
    pub latitude_bits: u64,
    pub longitude_bits: u64,
}

/// The mathematical value of a [`SensorData`].
#[verifier::ext_equal]
pub struct SensorDataView {
    pub timestamp: Seq<char>,
    pub sequence_id: u64,
    pub pm25_bits: u32,
    pub temperature_bits: u32,
    pub humidity_bits: u32,
    pub latitude_bits: u64,
    pub longitude_bits: u64,
}

impl View for SensorData {
    type V = SensorDataView;

    open spec fn view(&self) -> SensorDataView {
        SensorDataView {
            timestamp: self.timestamp@,
            sequence_id: self.sequence_id,
            pm25_bits: self.pm25_bits,
            temperature_bits: self.temperature_bits,
            humidity_bits: self.humidity_bits,
            latitude_bits: self.latitude_bits,
            longitude_bits: self.longitude_bits,
        }
    }
}

/// The encoding of a measurement record.
pub open spec fn spec_encode_sensor_data(d: SensorDataView) -> Seq<u8> {
    spec_encode_bytes(encode_utf8(d.timestamp)) + spec_encode_varint(d.sequence_id as nat) + le_bytes(
        d.pm25_bits as nat,
        4,
    ) + le_bytes(d.temperature_bits as nat, 4) + le_bytes(d.humidity_bits as nat, 4) + le_bytes(
        d.latitude_bits as nat,
        8,
    ) + le_bytes(d.longitude_bits as nat, 8)
}

/// Decoding of a measurement record from the start of `s`; bytes after the record
/// are ignored. `None` when the input ends early, a varint is malformed, or the
/// timestamp is not valid UTF-8.
pub open spec fn spec_decode_sensor_data(s: Seq<u8>) -> Option<SensorDataView> {
    match spec_decode_bytes(s) {
        None => None,
        Some((ts, p)) => if !valid_utf8(ts) {
            None
        } else {
            match spec_decode_varint(s.skip(p as int)) {
                None => None,
                Some((seq_id, k)) => {
                    let q = (p + k) as int;
                    if q + 28 > s.len() {
                        None
                    } else {
                        Some(
                            SensorDataView {
                                timestamp: decode_utf8(ts),
                                sequence_id: seq_id,
                                pm25_bits: le_value(s.subrange(q, q + 4)) as u32,
                                temperature_bits: le_value(s.subrange(q + 4, q + 8)) as u32,
                                humidity_bits: le_value(s.subrange(q + 8, q + 12)) as u32,
                                latitude_bits: le_value(s.subrange(q + 12, q + 20)) as u64,
                                longitude_bits: le_value(s.subrange(q + 20, q + 28)) as u64,
                            },
                        )
                    }
                },
            }
        },
    }
}

/// `String::from_utf8`: a string exactly when the bytes are valid UTF-8, and then
/// the characters that they encode.
#[verifier::external_body]
fn string_from_utf8(bytes: Vec<u8>) -> (r: Option<String>)
    ensures
        r is Some <==> valid_utf8(bytes@),
        r matches Some(s) ==> s@ == decode_utf8(bytes@),
{
    match String::from_utf8(bytes) {
        Ok(s) => Some(s),
        Err(_) => None,
    }
}

/// Decodes a measurement record from the start of `bytes`.
pub fn decode_sensor_data(bytes: &[u8]) -> (r: Option<SensorData>)
    ensures
        match spec_decode_sensor_data(bytes@) {
            None => r is None,
            Some(d) => r matches Some(x) && x@ == d,
        },
{
    assert(bytes@.skip(0) =~= bytes@);
    let (ts, p) = match decode_bytes(bytes, 0) {
        None => return None,
        Some(x) => x,
    };
    let timestamp = match string_from_utf8(ts) {
        None => return None,
        Some(t) => t,
    };
    let (sequence_id, q) = match decode_varint(bytes, p) {
        None => return None,
        Some(x) => x,
    };
    if bytes.len() - q < 28 {
        return None;
    }
    proof {
        lemma_pow256_values();
    }
    let pm25 = read_le(bytes, q, 4);
    let temperature = read_le(bytes, q + 4, 4);
    let humidity = read_le(bytes, q + 8, 4);
    let latitude = read_le(bytes, q + 12, 8);
    let longitude = read_le(bytes, q + 20, 8);
    Some(
        SensorData {
            timestamp,
            sequence_id,
            pm25_bits: pm25 as u32,
            temperature_bits: temperature as u32,
            humidity_bits: humidity as u32,
            latitude_bits: latitude,
            longitude_bits: longitude,
        },
    )
}

/// A measurement record is decoded back from its encoding, whatever follows it.
pub proof fn lemma_sensor_data_roundtrip(d: SensorDataView, rest: Seq<u8>)
    requires
        encode_utf8(d.timestamp).len() < 0x1_0000_0000_0000_0000,
    ensures
        spec_decode_sensor_data(spec_encode_sensor_data(d) + rest) == Some(d),
{
    let b = encode_utf8(d.timestamp);
    let eb = spec_encode_bytes(b);
    let ev = spec_encode_varint(d.sequence_id as nat);
    lemma_pow256_values();
    lemma_le_roundtrip(d.pm25_bits as nat, 4);
    lemma_le_roundtrip(d.temperature_bits as nat, 4);
    lemma_le_roundtrip(d.humidity_bits as nat, 4);
    lemma_le_roundtrip(d.latitude_bits as nat, 8);
    lemma_le_roundtrip(d.longitude_bits as nat, 8);
    let f = le_bytes(d.pm25_bits as nat, 4) + le_bytes(d.temperature_bits as nat, 4) + le_bytes(
        d.humidity_bits as nat,
        4,
    ) + le_bytes(d.latitude_bits as nat, 8) + le_bytes(d.longitude_bits as nat, 8);
    let s = spec_encode_sensor_data(d) + rest;
    assert(s =~= eb + (ev + (f + rest)));
    lemma_bytes_roundtrip(b, ev + (f + rest));
    encode_utf8_valid_utf8(d.timestamp);
    encode_utf8_decode_utf8(d.timestamp);
    let p = eb.len();
    assert(s.skip(p as int) =~= ev + (f + rest));
    lemma_varint_roundtrip(d.sequence_id, f + rest);
    let q = (p + ev.len()) as int;
    assert(s.subrange(q, q + 4) =~= le_bytes(d.pm25_bits as nat, 4));
    assert(s.subrange(q + 4, q + 8) =~= le_bytes(d.temperature_bits as nat, 4));
    assert(s.subrange(q + 8, q + 12) =~= le_bytes(d.humidity_bits as nat, 4));
    assert(s.subrange(q + 12, q + 20) =~= le_bytes(d.latitude_bits as nat, 8));
    assert(s.subrange(q + 20, q + 28) =~= le_bytes(d.longitude_bits as nat, 8));
    assert(spec_decode_sensor_data(s) =~= Some(d));
}


/// The record's bytes, field by field: the minimal varint of the timestamp's UTF-8
/// length, the UTF-8 bytes, the minimal varint of the sequence number, then the
/// five readings, each least significant byte first (4 bytes for the `f32`
/// readings, 8 for the `f64` ones), and nothing else.
pub proof fn lemma_sensor_data_layout(d: SensorDataView)
    ensures
        ({
            let ts = encode_utf8(d.timestamp);
            let h = spec_encode_varint(ts.len());
            let v = spec_encode_varint(d.sequence_id as nat);
            let e = spec_encode_sensor_data(d);
            let a = h.len() + ts.len();
            let b = a + v.len();
            &&& e.len() == b + 28
            &&& e.subrange(0, h.len() as int) == h
            &&& e.subrange(h.len() as int, a as int) == ts
            &&& e.subrange(a as int, b as int) == v
            &&& forall|i: int|
                0 <= i < 4 ==> (#[trigger] e[b + i]) as nat == (d.pm25_bits as nat / pow256(
                    i as nat,
                )) % 256
            &&& forall|i: int|
                0 <= i < 4 ==> (#[trigger] e[b + 4 + i]) as nat == (d.temperature_bits as nat
                    / pow256(i as nat)) % 256
            &&& forall|i: int|
                0 <= i < 4 ==> (#[trigger] e[b + 8 + i]) as nat == (d.humidity_bits as nat
                    / pow256(i as nat)) % 256
            &&& forall|i: int|
                0 <= i < 8 ==> (#[trigger] e[b + 12 + i]) as nat == (d.latitude_bits as nat
                    / pow256(i as nat)) % 256
            &&& forall|i: int|
                0 <= i < 8 ==> (#[trigger] e[b + 20 + i]) as nat == (d.longitude_bits as nat
                    / pow256(i as nat)) % 256
        }),
{
    let ts = encode_utf8(d.timestamp);
    let h = spec_encode_varint(ts.len());
    let v = spec_encode_varint(d.sequence_id as nat);
    let e = spec_encode_sensor_data(d);
    let a = h.len() + ts.len();
    let b = a + v.len();
    lemma_encode_bytes_layout(ts);
    let f0 = le_bytes(d.pm25_bits as nat, 4);
    let f1 = le_bytes(d.temperature_bits as nat, 4);
    let f2 = le_bytes(d.humidity_bits as nat, 4);
    let f3 = le_bytes(d.latitude_bits as nat, 8);
    let f4 = le_bytes(d.longitude_bits as nat, 8);
    lemma_le_bytes_shape(d.pm25_bits as nat, 4);
    lemma_le_bytes_shape(d.temperature_bits as nat, 4);
    lemma_le_bytes_shape(d.humidity_bits as nat, 4);
    lemma_le_bytes_shape(d.latitude_bits as nat, 8);
    lemma_le_bytes_shape(d.longitude_bits as nat, 8);
    let eb = spec_encode_bytes(ts);
    assert(eb =~= h + ts);
    assert(e =~= h + ts + v + f0 + f1 + f2 + f3 + f4);
    assert(e.subrange(0, h.len() as int) =~= h);
    assert(e.subrange(h.len() as int, a as int) =~= ts);
    assert(e.subrange(a as int, b as int) =~= v);
    assert forall|i: int| 0 <= i < 4 implies (#[trigger] e[b + i]) == f0[i] by {}
    assert forall|i: int| 0 <= i < 4 implies (#[trigger] e[b + 4 + i]) == f1[i] by {}
    assert forall|i: int| 0 <= i < 4 implies (#[trigger] e[b + 8 + i]) == f2[i] by {}
    assert forall|i: int| 0 <= i < 8 implies (#[trigger] e[b + 12 + i]) == f3[i] by {}
    assert forall|i: int| 0 <= i < 8 implies (#[trigger] e[b + 20 + i]) == f4[i] by {}
}

/// The record is read back from its bytes laid out field by field (length varint,
/// timestamp bytes, sequence varint, five little-endian readings), whatever follows.
pub proof fn lemma_decode_sensor_data_of_layout(d: SensorDataView, rest: Seq<u8>)
    requires
        encode_utf8(d.timestamp).len() < 0x1_0000_0000_0000_0000,
    ensures
        spec_decode_sensor_data(
            spec_encode_varint(encode_utf8(d.timestamp).len()) + encode_utf8(d.timestamp)
                + spec_encode_varint(d.sequence_id as nat) + le_bytes(d.pm25_bits as nat, 4)
                + le_bytes(d.temperature_bits as nat, 4) + le_bytes(d.humidity_bits as nat, 4)
                + le_bytes(d.latitude_bits as nat, 8) + le_bytes(d.longitude_bits as nat, 8) + rest,
        ) == Some(d),
{
    let ts = encode_utf8(d.timestamp);
    lemma_sensor_data_roundtrip(d, rest);
    assert(spec_encode_sensor_data(d) + rest =~= spec_encode_varint(ts.len()) + ts
        + spec_encode_varint(d.sequence_id as nat) + le_bytes(d.pm25_bits as nat, 4) + le_bytes(
        d.temperature_bits as nat,
        4,
    ) + le_bytes(d.humidity_bits as nat, 4) + le_bytes(d.latitude_bits as nat, 8) + le_bytes(
        d.longitude_bits as nat,
        8,
    ) + rest);
}

/// What a node sends: the encoded measurement record, an Ed25519 signature over
/// exactly those bytes (64 bytes), and the node's public key (32 bytes).
#[derive(Debug, Clone, PartialEq, Eq)]
pub struct MeasurementPayload {
    pub data: Vec<u8>,
    pub signature: Vec<u8>,
    pub public_key: Vec<u8>,
}

/// The mathematical value of a [`MeasurementPayload`].
#[verifier::ext_equal]
pub struct MeasurementPayloadView {
    pub data: Seq<u8>,
    pub signature: Seq<u8>,
    pub public_key: Seq<u8>,
}

impl View for MeasurementPayload {
    type V = MeasurementPayloadView;

    open spec fn view(&self) -> MeasurementPayloadView {
        MeasurementPayloadView {
            data: self.data@,
            signature: self.signature@,
            public_key: self.public_key@,
        }
    }
}

/// The encoding of a payload: its three byte vectors in order, each with its length.
pub open spec fn spec_encode_payload(p: MeasurementPayloadView) -> Seq<u8> {
    spec_encode_bytes(p.data) + spec_encode_bytes(p.signature) + spec_encode_bytes(p.public_key)
}

/// Decoding of a payload from the start of `s`; bytes after it are ignored.
pub open spec fn spec_decode_payload(s: Seq<u8>) -> Option<MeasurementPayloadView> {
    match spec_decode_bytes(s) {
        None => None,
        Some((data, p1)) => match spec_decode_bytes(s.skip(p1 as int)) {
            None => None,
            Some((signature, p2)) => match spec_decode_bytes(s.skip((p1 + p2) as int)) {
                None => None,
                Some((public_key, _)) => Some(MeasurementPayloadView { data, signature, public_key }),
            },
        },
    }
}

/// Encodes a payload for sending.
pub fn encode_measurement_payload(payload: &MeasurementPayload) -> (r: Vec<u8>)
    ensures
        r@ == spec_encode_payload(payload@),
        r@ == spec_encode_varint(payload.data@.len()) + payload.data@ + spec_encode_varint(
            payload.signature@.len(),
        ) + payload.signature@ + spec_encode_varint(payload.public_key@.len())
            + payload.public_key@,
{
    let mut out: Vec<u8> = Vec::new();
    encode_bytes(&mut out, payload.data.as_slice());
    encode_bytes(&mut out, payload.signature.as_slice());
    encode_bytes(&mut out, payload.public_key.as_slice());
    assert(out@ =~= spec_encode_payload(payload@));
    out
}

/// Decodes a payload from the start of `bytes`.
pub fn decode_measurement_payload(bytes: &[u8]) -> (r: Option<MeasurementPayload>)
    ensures
        match spec_decode_payload(bytes@) {
            None => r is None,
            Some(p) => r matches Some(x) && x@ == p,
        },
{
    assert(bytes@.skip(0) =~= bytes@);
    let (data, p1) = match decode_bytes(bytes, 0) {
        None => return None,
        Some(x) => x,
    };
    let (signature, p2) = match decode_bytes(bytes, p1) {
        None => return None,
        Some(x) => x,
    };
    let (public_key, _) = match decode_bytes(bytes, p2) {
        None => return None,
        Some(x) => x,
    };
    Some(MeasurementPayload { data, signature, public_key })
}

/// A payload is decoded back from its encoding, whatever follows it.
pub proof fn lemma_payload_roundtrip(p: MeasurementPayloadView, rest: Seq<u8>)
    requires
        p.data.len() < 0x1_0000_0000_0000_0000,
        p.signature.len() < 0x1_0000_0000_0000_0000,
        p.public_key.len() < 0x1_0000_0000_0000_0000,
    ensures
        spec_decode_payload(spec_encode_payload(p) + rest) == Some(p),
{
    let e1 = spec_encode_bytes(p.data);
    let e2 = spec_encode_bytes(p.signature);
    let e3 = spec_encode_bytes(p.public_key);
    let s = spec_encode_payload(p) + rest;
    assert(s =~= e1 + (e2 + (e3 + rest)));
    lemma_bytes_roundtrip(p.data, e2 + (e3 + rest));
    assert(s.skip(e1.len() as int) =~= e2 + (e3 + rest));
    lemma_bytes_roundtrip(p.signature, e3 + rest);
    assert(s.skip((e1.len() + e2.len()) as int) =~= e3 + rest);
    lemma_bytes_roundtrip(p.public_key, rest);
    assert(spec_decode_payload(s) =~= Some(p));
}


/// A payload's bytes are its three byte vectors in order, each preceded by the
/// minimal varint of its length; and those bytes, whatever follows them, are read
/// back as the payload.
pub proof fn lemma_payload_layout(p: MeasurementPayloadView, rest: Seq<u8>)
    requires
        p.data.len() < 0x1_0000_0000_0000_0000,
        p.signature.len() < 0x1_0000_0000_0000_0000,
        p.public_key.len() < 0x1_0000_0000_0000_0000,
    ensures
        spec_encode_payload(p) == spec_encode_varint(p.data.len()) + p.data + spec_encode_varint(
            p.signature.len(),
        ) + p.signature + spec_encode_varint(p.public_key.len()) + p.public_key,
        spec_decode_payload(
            spec_encode_varint(p.data.len()) + p.data + spec_encode_varint(p.signature.len())
                + p.signature + spec_encode_varint(p.public_key.len()) + p.public_key + rest,
        ) == Some(p),
{
    let l = spec_encode_varint(p.data.len()) + p.data + spec_encode_varint(p.signature.len())
        + p.signature + spec_encode_varint(p.public_key.len()) + p.public_key;
    assert(spec_encode_payload(p) =~= l);
    lemma_payload_roundtrip(p, rest);
}

} // verus!
