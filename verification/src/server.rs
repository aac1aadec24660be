//! What the collection server decides: how it answers a submitted measurement
//! (malformed, not authentic, replayed, or accepted), and the OpenAQ-style
//! records it exports for the latest measurements.

use vstd::prelude::*;
use crate::crypto::{
    KeyPair, ed25519_signature, lemma_signed_payload_verifies, spec_verify_payload, verify_payload,
};
use crate::sensor_data::{
    MeasurementPayloadView, SensorDataView, decode_measurement_payload, lemma_payload_roundtrip,
    lemma_sensor_data_roundtrip, spec_decode_payload, spec_decode_sensor_data, spec_encode_payload, spec_encode_sensor_data,
};
use crate::store::{
    Store, StoreView, StoredMeasurement, StoredMeasurementView, last_n, replay_free, spec_insert,
    stored_of,
};
use vstd::utf8::encode_utf8;

verus! {

/// The server's answer to a submitted measurement.
#[derive(Debug, Clone, PartialEq, Eq)]
pub enum SubmitOutcome {
    /// Stored.
    Accepted,
    /// The body is not an encoded payload.
    BadRequest,
    /// The payload's signature does not check.
    Unauthorized,
    /// The store refused the measurement, for the reason given.
    Conflict(String),
}

/// The mathematical value of a [`SubmitOutcome`].
pub enum SubmitOutcomeView {
    Accepted,
    BadRequest,
    Unauthorized,
    Conflict(Seq<char>),
}

impl View for SubmitOutcome {
    type V = SubmitOutcomeView;

    open spec fn view(&self) -> SubmitOutcomeView {
        match self {
            SubmitOutcome::Accepted => SubmitOutcomeView::Accepted,
            SubmitOutcome::BadRequest => SubmitOutcomeView::BadRequest,
            SubmitOutcome::Unauthorized => SubmitOutcomeView::Unauthorized,
            SubmitOutcome::Conflict(e) => SubmitOutcomeView::Conflict(e@),
        }
    }
}

/// How the server handles a request body: it must decode as a payload (else
/// `BadRequest`), the payload must be authentic (else `Unauthorized`), and the
/// store must take it (else `Conflict` with the store's reason). Only an accepted
/// payload changes the store.
pub open spec fn spec_submit(s: StoreView, body: Seq<u8>) -> (StoreView, SubmitOutcomeView) {
    match spec_decode_payload(body) {
        None => (s, SubmitOutcomeView::BadRequest),
        Some(p) => if !spec_verify_payload(p) {
            (s, SubmitOutcomeView::Unauthorized)
        } else {
            match spec_insert(s, p).1 {
                Ok(()) => (spec_insert(s, p).0, SubmitOutcomeView::Accepted),
                Err(e) => (spec_insert(s, p).0, SubmitOutcomeView::Conflict(e)),
            }
        },
    }
}

/// Handles a submitted request body against the store.
pub fn submit_measurement(store: &mut Store, body: &[u8]) -> (r: SubmitOutcome)
    requires
        old(store).wf(),
    ensures
        final(store).wf(),
        final(store)@ == spec_submit(old(store)@, body@).0,
        r@ == spec_submit(old(store)@, body@).1,
{
    let payload = match decode_measurement_payload(body) {
        Some(p) => p,
        None => return SubmitOutcome::BadRequest,
    };
    if !verify_payload(&payload) {
        return SubmitOutcome::Unauthorized;
    }
    match store.insert(payload) {
        Ok(()) => SubmitOutcome::Accepted,
        Err(e) => SubmitOutcome::Conflict(e),
    }
}

/// The HTTP status of an answer.
pub open spec fn spec_status_code(o: SubmitOutcomeView) -> u16 {
    match o {
        SubmitOutcomeView::Accepted => 200,
        SubmitOutcomeView::BadRequest => 400,
        SubmitOutcomeView::Unauthorized => 401,
        SubmitOutcomeView::Conflict(_) => 409,
    }
}

/// The text sent back with an answer.
pub open spec fn spec_response_body(o: SubmitOutcomeView) -> Seq<char> {
    match o {
        SubmitOutcomeView::Accepted => "accepted"@,
        SubmitOutcomeView::BadRequest => "invalid postcard"@,
        SubmitOutcomeView::Unauthorized => "invalid signature"@,
        SubmitOutcomeView::Conflict(e) => e,
    }
}

impl SubmitOutcome {
    /// The HTTP status of this answer.
    pub fn status_code(&self) -> (r: u16)
        ensures
            r == spec_status_code(self@),
    {
        match self {
            SubmitOutcome::Accepted => 200,
            SubmitOutcome::BadRequest => 400,
            SubmitOutcome::Unauthorized => 401,
            SubmitOutcome::Conflict(_) => 409,
        }
    }

    /// The text sent back with this answer.
    pub fn response_body(&self) -> (r: String)
        ensures
            r@ == spec_response_body(self@),
    {
        match self {
            SubmitOutcome::Accepted => String::from_str("accepted"),
            SubmitOutcome::BadRequest => String::from_str("invalid postcard"),
            SubmitOutcome::Unauthorized => String::from_str("invalid signature"),
            SubmitOutcome::Conflict(e) => e.clone(),
        }
    }
}

/// A body that has been accepted once is refused as a replay the second time,
/// and the store does not change.
pub proof fn lemma_resubmission_refused(s: StoreView, body: Seq<u8>)
    requires
        spec_submit(s, body).1 is Accepted,
    ensures
        spec_submit(spec_submit(s, body).0, body) == (
            spec_submit(s, body).0,
            SubmitOutcomeView::Conflict("replay attack"@),
        ),
{
}

/// Any answer but `Accepted` leaves the store as it was.
pub proof fn lemma_refusal_keeps_store(s: StoreView, body: Seq<u8>)
    ensures
        !(spec_submit(s, body).1 is Accepted) ==> spec_submit(s, body).0 == s,
{
}

/// Handling a request never forgets a key nor lowers its last accepted sequence
/// number, and never removes or changes a stored measurement.
pub proof fn lemma_submit_monotone(s: StoreView, body: Seq<u8>)
    ensures
        forall|k: Seq<u8>| #[trigger]
            s.last_seq.contains_key(k) ==> spec_submit(s, body).0.last_seq.contains_key(k)
                && s.last_seq[k] <= spec_submit(s, body).0.last_seq[k],
        s.measurements.is_prefix_of(spec_submit(s, body).0.measurements),
{
    let t = spec_submit(s, body).0;
    assert(s.measurements =~= t.measurements.subrange(0, s.measurements.len() as int));
}

/// In a store that keeps the replay-protection invariant, an authentic
/// measurement whose sequence number is not above that of a measurement already
/// stored for the same key is refused as a replay.
pub proof fn lemma_stale_sequence_refused(s: StoreView, body: Seq<u8>, i: int)
    requires
        replay_free(s),
        0 <= i < s.measurements.len(),
        spec_decode_payload(body) is Some,
        spec_verify_payload(spec_decode_payload(body)->Some_0),
        spec_decode_payload(body)->Some_0.public_key == s.measurements[i].public_key,
        spec_decode_sensor_data(spec_decode_payload(body)->Some_0.data) is Some,
        spec_decode_sensor_data(spec_decode_payload(body)->Some_0.data)->Some_0.sequence_id
            <= s.measurements[i].data.sequence_id,
    ensures
        spec_submit(s, body) == (s, SubmitOutcomeView::Conflict("replay attack"@)),
{
    assert(s.last_seq.contains_key(s.measurements[i].public_key));
}

/// A measurement that a node signs with a matching key pair and sends encoded is
/// accepted by the server, as long as its sequence number is above the last one
/// accepted for that key; it is then the newest stored measurement.
pub proof fn lemma_signed_measurement_accepted(s: StoreView, kp: KeyPair, d: SensorDataView)
    requires
        kp.wf(),
        encode_utf8(d.timestamp).len() < 0x1_0000_0000_0000,
        s.last_seq.contains_key(kp.public@) ==> s.last_seq[kp.public@] < d.sequence_id,
    ensures
        ({
            let data = spec_encode_sensor_data(d);
            let p = MeasurementPayloadView {
                data,
                signature: ed25519_signature(kp.secret@, data)@,
                public_key: kp.public@,
            };
            spec_submit(s, spec_encode_payload(p)) == (
                StoreView {
                    measurements: s.measurements.push(stored_of(p, d)),
                    last_seq: s.last_seq.insert(kp.public@, d.sequence_id),
                },
                SubmitOutcomeView::Accepted,
            )
        }),
{
    let data = spec_encode_sensor_data(d);
    let p = MeasurementPayloadView {
        data,
        signature: ed25519_signature(kp.secret@, data)@,
        public_key: kp.public@,
    };
    lemma_sensor_data_roundtrip(d, Seq::<u8>::empty());
    assert(data + Seq::<u8>::empty() =~= data);
    lemma_signed_payload_verifies(kp, data);
    lemma_encoded_len_bound(d);
    lemma_payload_roundtrip(p, Seq::<u8>::empty());
    assert(spec_encode_payload(p) + Seq::<u8>::empty() =~= spec_encode_payload(p));
}

/// The encoding of a record whose timestamp is not huge is not huge either.
proof fn lemma_encoded_len_bound(d: SensorDataView)
    requires
        encode_utf8(d.timestamp).len() < 0x1_0000_0000_0000,
    ensures
        spec_encode_sensor_data(d).len() < 0x1_0000_0000_0000_0000,
{
    let b = encode_utf8(d.timestamp);
    crate::codec::lemma_varint_roundtrip(b.len() as u64, Seq::<u8>::empty());
    crate::codec::lemma_varint_roundtrip(d.sequence_id, Seq::<u8>::empty());
    crate::codec::lemma_le_bytes_len(d.pm25_bits as nat, 4);
    crate::codec::lemma_le_bytes_len(d.temperature_bits as nat, 4);
    crate::codec::lemma_le_bytes_len(d.humidity_bits as nat, 4);
    crate::codec::lemma_le_bytes_len(d.latitude_bits as nat, 8);
    crate::codec::lemma_le_bytes_len(d.longitude_bits as nat, 8);
}


/// The lowercase hexadecimal digit of a value below 16.
pub open spec fn hex_digit(n: u8) -> char {
    if n < 10 {
        (n + 48) as char
    } else {
        (n + 87) as char
    }
}

/// Lowercase hexadecimal text of a byte string, two digits per byte, high digit first.
pub open spec fn spec_hex_lower(b: Seq<u8>) -> Seq<char>
    decreases b.len(),
{
    if b.len() == 0 {
        seq![]
    } else {
        seq![hex_digit(b[0] / 16), hex_digit(b[0] % 16)] + spec_hex_lower(b.drop_first())
    }
}

/// `hex::encode`: lowercase hexadecimal text of the bytes, two digits per byte,
/// high digit first.
#[verifier::external_body]
fn hex_encode(data: &[u8]) -> (r: String)
    ensures
        r@ == spec_hex_lower(data@),
{
    hex::encode(data)
}

/// Where a device's measurements are reported: "Kyiv-Daxo-" and the hexadecimal
/// text of the first 8 bytes of its public key.
pub open spec fn spec_location_name(public_key: Seq<u8>) -> Seq<char> {
    "Kyiv-Daxo-"@ + spec_hex_lower(public_key.subrange(0, 8))
}

/// The location name of a device, from its public key (at least 8 bytes).
pub fn location_name(public_key: &[u8]) -> (r: String)
    requires
        public_key@.len() >= 8,
    ensures
        r@ == spec_location_name(public_key@),
{
    let mut name = String::from_str("Kyiv-Daxo-");
    let hex = hex_encode(vstd::slice::slice_subrange(public_key, 0, 8));
    name.append(hex.as_str());
    name
}

/// A point of an OpenAQ location record; the floating-point coordinates are held
/// as their bit patterns.
#[derive(Debug, Clone, PartialEq, Eq)]
pub struct Coordinates {
    pub latitude_bits: u64,
    pub longitude_bits: u64,
}

/// One measurement as an OpenAQ location record; the value is the PM2.5 reading's
/// bit pattern.
#[derive(Debug, Clone, PartialEq, Eq)]
pub struct OpenAqLocation {
    pub location: String,
    pub parameter: String,
    pub value_bits: u32,
    pub unit: String,
    pub coordinates: Coordinates,
}

/// The mathematical value of an [`OpenAqLocation`].
#[verifier::ext_equal]
pub struct OpenAqLocationView {
    pub location: Seq<char>,
    pub parameter: Seq<char>,
    pub value_bits: u32,
    pub unit: Seq<char>,
    pub latitude_bits: u64,
    pub longitude_bits: u64,
}

impl View for OpenAqLocation {
    type V = OpenAqLocationView;

    open spec fn view(&self) -> OpenAqLocationView {
        OpenAqLocationView {
            location: self.location@,
            parameter: self.parameter@,
            value_bits: self.value_bits,
            unit: self.unit@,
            latitude_bits: self.coordinates.latitude_bits,
            longitude_bits: self.coordinates.longitude_bits,
        }
    }
}

/// The OpenAQ record of a stored measurement: its device's location name, the
/// parameter "pm25", the PM2.5 reading, the unit "µg/m³" and the coordinates.
pub open spec fn spec_openaq_record(m: StoredMeasurementView) -> OpenAqLocationView {
    OpenAqLocationView {
        location: spec_location_name(m.public_key),
        parameter: "pm25"@,
        value_bits: m.data.pm25_bits,
        unit: "µg/m³"@,
        latitude_bits: m.data.latitude_bits,
        longitude_bits: m.data.longitude_bits,
    }
}

/// How many of the latest measurements are exported.
pub const EXPORT_LIMIT: usize = 100;

/// The OpenAQ record of one stored measurement.
pub fn openaq_record(m: &StoredMeasurement) -> (r: OpenAqLocation)
    requires
        m.public_key@.len() >= 8,
    ensures
        r@ == spec_openaq_record(m@),
{
    OpenAqLocation {
        location: location_name(m.public_key.as_slice()),
        parameter: String::from_str("pm25"),
        value_bits: m.data.pm25_bits,
        unit: String::from_str("µg/m³"),
        coordinates: Coordinates {
            latitude_bits: m.data.latitude_bits,
            longitude_bits: m.data.longitude_bits,
        },
    }
}

/// The OpenAQ records of the latest 100 stored measurements, oldest first. Every
/// one of those measurements must carry a public key of at least 8 bytes.
pub fn export_openaq(store: &Store) -> (r: Vec<OpenAqLocation>)
    requires
        forall|i: int|
            0 <= i < last_n(store@.measurements, EXPORT_LIMIT as nat).len() ==> (#[trigger] last_n(
                store@.measurements,
                EXPORT_LIMIT as nat,
            )[i]).public_key.len() >= 8,
    ensures
        r@.map_values(|o: OpenAqLocation| o@) == last_n(
            store@.measurements,
            EXPORT_LIMIT as nat,
        ).map_values(|m: StoredMeasurementView| spec_openaq_record(m)),
{
    let latest = store.latest(EXPORT_LIMIT);
    let ghost window = last_n(store@.measurements, EXPORT_LIMIT as nat);
    let mut out: Vec<OpenAqLocation> = Vec::new();
    let mut i: usize = 0;
    while i < latest.len()
        invariant
            latest@.map_values(|m: &StoredMeasurement| m@) == window,
            window == last_n(store@.measurements, EXPORT_LIMIT as nat),
            forall|j: int| 0 <= j < window.len() ==> (#[trigger] window[j]).public_key.len() >= 8,
            i <= latest@.len(),
            out@.len() == i,
            forall|j: int| 0 <= j < i ==> (#[trigger] out@[j])@ == spec_openaq_record(window[j]),
        decreases latest.len() - i,
    {
        let m: &StoredMeasurement = latest[i];
        assert(m@ == window[i as int]);
        out.push(openaq_record(m));
        i = i + 1;
    }
    assert(out@.map_values(|o: OpenAqLocation| o@) =~= window.map_values(
        |m: StoredMeasurementView| spec_openaq_record(m),
    ));
    out
}

} // verus!
