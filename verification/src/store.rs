//! The server's record of accepted measurements. For every public key it keeps
//! the highest sequence number seen, and it refuses a measurement whose sequence
//! number is not above it: a replayed (or reordered) message is never stored twice.

use vstd::prelude::*;
use crate::sensor_data::{
    MeasurementPayload, MeasurementPayloadView, SensorData, SensorDataView, decode_sensor_data,
    spec_decode_sensor_data,
};

verus! {

/// An accepted measurement: the decoded record with the signature and key it came with.
#[derive(Debug, Clone, PartialEq, Eq)]
pub struct StoredMeasurement {
    pub data: SensorData,
    pub signature: Vec<u8>,
    pub public_key: Vec<u8>,
}

/// The mathematical value of a [`StoredMeasurement`].
#[verifier::ext_equal]
pub struct StoredMeasurementView {
    pub data: SensorDataView,
    pub signature: Seq<u8>,
    pub public_key: Seq<u8>,
}

impl View for StoredMeasurement {
    type V = StoredMeasurementView;

    open spec fn view(&self) -> StoredMeasurementView {
        StoredMeasurementView {
            data: self.data@,
            signature: self.signature@,
            public_key: self.public_key@,
        }
    }
}

/// The stored form of a payload whose data decodes to `d`.
pub open spec fn stored_of(p: MeasurementPayloadView, d: SensorDataView) -> StoredMeasurementView {
    StoredMeasurementView { data: d, signature: p.signature, public_key: p.public_key }
}

impl StoredMeasurement {
    /// The stored form of a payload whose data is a valid measurement record.
    pub fn from_payload(p: MeasurementPayload) -> (r: StoredMeasurement)
        requires
            spec_decode_sensor_data(p.data@) is Some,
        ensures
            r@ == stored_of(p@, spec_decode_sensor_data(p.data@)->Some_0),
            r@.data == spec_decode_sensor_data(p.data@)->Some_0,
            r@.signature == p.signature@,
            r@.public_key == p.public_key@,
    {
        let data = decode_sensor_data(p.data.as_slice()).unwrap();
        StoredMeasurement { data, signature: p.signature, public_key: p.public_key }
    }
}

/// The mathematical value of a [`Store`]: the accepted measurements in the order
/// they were accepted, and for each public key the last sequence number accepted.
#[verifier::ext_equal]
pub struct StoreView {
    pub measurements: Seq<StoredMeasurementView>,
    pub last_seq: Map<Seq<u8>, u64>,
}

/// The server's store of measurements.
pub struct Store {
    measurements: Vec<StoredMeasurement>,
    seq_keys: Vec<Vec<u8>>,
    seq_last: Vec<u64>,
}

/// The map that associates `keys[i]` with `vals[i]`.
pub open spec fn entries_map(keys: Seq<Seq<u8>>, vals: Seq<u64>) -> Map<Seq<u8>, u64>
    decreases keys.len(),
{
    if keys.len() == 0 {
        Map::empty()
    } else {
        entries_map(keys.drop_last(), vals.drop_last()).insert(keys.last(), vals.last())
    }
}

/// No key occurs twice.
pub open spec fn keys_distinct(keys: Seq<Seq<u8>>) -> bool {
    forall|i: int, j: int| 0 <= i < j < keys.len() ==> keys[i] != keys[j]
}

/// The replay-protection invariant of a store: every stored measurement's key has
/// a last sequence number at least as high as the measurement's; measurements of
/// one key have strictly increasing sequence numbers in the order stored; and the
/// last sequence number of a key is that of one of its stored measurements.
pub open spec fn replay_free(s: StoreView) -> bool {
    &&& forall|i: int|
        0 <= i < s.measurements.len() ==> {
            &&& s.last_seq.contains_key(#[trigger] s.measurements[i].public_key)
            &&& s.measurements[i].data.sequence_id <= s.last_seq[s.measurements[i].public_key]
        }
    &&& forall|i: int, j: int|
        0 <= i < j < s.measurements.len() && #[trigger] s.measurements[i].public_key
            == #[trigger] s.measurements[j].public_key ==> s.measurements[i].data.sequence_id
            < s.measurements[j].data.sequence_id
    &&& forall|k: Seq<u8>|
        #[trigger] s.last_seq.contains_key(k) ==> exists|i: int|
            0 <= i < s.measurements.len() && #[trigger] s.measurements[i].public_key == k
                && s.measurements[i].data.sequence_id == s.last_seq[k]
}

/// What inserting a payload does to a store, and what it answers: a payload whose
/// data is not a measurement record is refused with "invalid sensor data"; one
/// whose sequence number is not above the last one accepted for its key is refused
/// with "replay attack"; any other is stored and raises its key's last sequence
/// number. A refusal leaves the store as it was.
pub open spec fn spec_insert(s: StoreView, p: MeasurementPayloadView) -> (StoreView, Result<(), Seq<char>>) {
    match spec_decode_sensor_data(p.data) {
        None => (s, Err("invalid sensor data"@)),
        Some(d) => if s.last_seq.contains_key(p.public_key) && d.sequence_id
            <= s.last_seq[p.public_key] {
            (s, Err("replay attack"@))
        } else {
            (
                StoreView {
                    measurements: s.measurements.push(stored_of(p, d)),
                    last_seq: s.last_seq.insert(p.public_key, d.sequence_id),
                },
                Ok(()),
            )
        },
    }
}

/// The last `n` entries of `s` (all of them when it has fewer).
pub open spec fn last_n<T>(s: Seq<T>, n: nat) -> Seq<T> {
    if s.len() > n {
        s.subrange(s.len() - n, s.len() as int)
    } else {
        s
    }
}

impl View for Store {
    type V = StoreView;

    closed spec fn view(&self) -> StoreView {
        StoreView {
            measurements: self.measurements@.map_values(|m: StoredMeasurement| m@),
            last_seq: entries_map(self.seq_keys@.map_values(|k: Vec<u8>| k@), self.seq_last@),
        }
    }
}

/// The keys of `seq_keys`, as byte sequences.
spec fn key_views(keys: Seq<Vec<u8>>) -> Seq<Seq<u8>> {
    keys.map_values(|k: Vec<u8>| k@)
}

/// Looking up a key among distinct entries.
proof fn lemma_entries_lookup(keys: Seq<Seq<u8>>, vals: Seq<u64>, i: int)
    requires
        keys.len() == vals.len(),
        keys_distinct(keys),
        0 <= i < keys.len(),
    ensures
        entries_map(keys, vals).contains_key(keys[i]),
        entries_map(keys, vals)[keys[i]] == vals[i],
    decreases keys.len(),
{
    if i < keys.len() - 1 {
        lemma_entries_lookup(keys.drop_last(), vals.drop_last(), i);
    }
}

/// A key that is not among the entries is not in their map.
proof fn lemma_entries_absent(keys: Seq<Seq<u8>>, vals: Seq<u64>, k: Seq<u8>)
    requires
        keys.len() == vals.len(),
        forall|i: int| 0 <= i < keys.len() ==> keys[i] != k,
    ensures
        !entries_map(keys, vals).contains_key(k),
    decreases keys.len(),
{
    if keys.len() > 0 {
        lemma_entries_absent(keys.drop_last(), vals.drop_last(), k);
    }
}

/// Changing the value of one of distinct entries changes only that key of the map.
proof fn lemma_entries_update(keys: Seq<Seq<u8>>, vals: Seq<u64>, i: int, v: u64)
    requires
        keys.len() == vals.len(),
        keys_distinct(keys),
        0 <= i < keys.len(),
    ensures
        entries_map(keys, vals.update(i, v)) == entries_map(keys, vals).insert(keys[i], v),
    decreases keys.len(),
{
    let n = keys.len();
    if i == n - 1 {
        assert(vals.update(i, v).drop_last() =~= vals.drop_last());
        lemma_entries_absent(keys.drop_last(), vals.drop_last(), keys[i]);
        assert(entries_map(keys, vals.update(i, v)) =~= entries_map(keys, vals).insert(keys[i], v));
    } else {
        lemma_entries_update(keys.drop_last(), vals.drop_last(), i, v);
        assert(vals.update(i, v).drop_last() =~= vals.drop_last().update(i, v));
        assert(keys[i] != keys[n - 1]);
        assert(entries_map(keys, vals.update(i, v)) =~= entries_map(keys, vals).insert(keys[i], v));
    }
}

/// Byte-wise equality of two byte strings.
fn bytes_equal(a: &[u8], b: &[u8]) -> (r: bool)
    ensures
        r == (a@ == b@),
{
    if a.len() != b.len() {
        return false;
    }
    let mut i: usize = 0;
    while i < a.len()
        invariant
            a@.len() == b@.len(),
            i <= a@.len(),
            forall|j: int| 0 <= j < i ==> a@[j] == b@[j],
        decreases a.len() - i,
    {
        if a[i] != b[i] {
            return false;
        }
        i = i + 1;
    }
    assert(a@ =~= b@);
    true
}

impl Store {
    /// The store is well formed: one last sequence number per key, and the
    /// replay-protection invariant holds.
    pub closed spec fn wf(&self) -> bool {
        &&& self.seq_keys@.len() == self.seq_last@.len()
        &&& keys_distinct(key_views(self.seq_keys@))
        &&& replay_free(self@)
    }

    /// A well-formed store satisfies the replay-protection invariant.
    pub proof fn lemma_wf_replay_free(&self)
        requires
            self.wf(),
        ensures
            replay_free(self@),
    {
    }

    /// An empty store.
    pub fn new() -> (s: Self)
        ensures
            s.wf(),
            s@.measurements == Seq::<StoredMeasurementView>::empty(),
            s@.last_seq == Map::<Seq<u8>, u64>::empty(),
    {
        let s = Store { measurements: Vec::new(), seq_keys: Vec::new(), seq_last: Vec::new() };
        assert(s@.measurements =~= Seq::<StoredMeasurementView>::empty());
        assert(s@.last_seq =~= Map::<Seq<u8>, u64>::empty());
        s
    }

    /// The position of `key` among the keys with a last sequence number.
    fn find_key(&self, key: &[u8]) -> (r: Option<usize>)
        requires
            self.wf(),
        ensures
            match r {
                Some(i) => i < self.seq_keys@.len() && self.seq_keys@[i as int]@ == key@,
                None => !self@.last_seq.contains_key(key@),
            },
    {
        let mut i: usize = 0;
        while i < self.seq_keys.len()
            invariant
                self.wf(),
                i <= self.seq_keys@.len(),
                forall|j: int| 0 <= j < i ==> self.seq_keys@[j]@ != key@,
            decreases self.seq_keys.len() - i,
        {
            if bytes_equal(self.seq_keys[i].as_slice(), key) {
                return Some(i);
            }
            i = i + 1;
        }
        proof {
            let kv = key_views(self.seq_keys@);
            assert forall|j: int| 0 <= j < kv.len() implies kv[j] != key@ by {
                assert(kv[j] == self.seq_keys@[j]@);
            }
            lemma_entries_absent(kv, self.seq_last@, key@);
        }
        None
    }

    /// Stores a payload unless its data is not a measurement record or its
    /// sequence number is not above the last one accepted for its public key.
    pub fn insert(&mut self, payload: MeasurementPayload) -> (r: Result<(), String>)
        requires
            old(self).wf(),
        ensures
            final(self).wf(),
            final(self)@ == spec_insert(old(self)@, payload@).0,
            match spec_insert(old(self)@, payload@).1 {
                Ok(()) => r is Ok,
                Err(e) => r matches Err(x) && x@ == e,
            },
            r is Ok ==> final(self)@.measurements == old(self)@.measurements.push(
                StoredMeasurementView {
                    data: spec_decode_sensor_data(payload@.data)->Some_0,
                    signature: payload@.signature,
                    public_key: payload@.public_key,
                },
            ),
    {
        let ghost old_view = self@;
        let data = match decode_sensor_data(payload.data.as_slice()) {
            Some(d) => d,
            None => return Err(String::from_str("invalid sensor data")),
        };
        let seq = data.sequence_id;
        let ghost kv = key_views(self.seq_keys@);
        match self.find_key(payload.public_key.as_slice()) {
            Some(i) => {
                proof {
                    lemma_entries_lookup(kv, self.seq_last@, i as int);
                    assert(kv[i as int] == payload.public_key@);
                }
                if seq <= self.seq_last[i] {
                    return Err(String::from_str("replay attack"));
                }
                self.seq_last.set(i, seq);
                proof {
                    lemma_entries_update(kv, old(self).seq_last@, i as int, seq);
                }
            },
            None => {
                let key = vstd::slice::slice_to_vec(payload.public_key.as_slice());
                self.seq_keys.push(key);
                self.seq_last.push(seq);
                proof {
                    let kv2 = key_views(self.seq_keys@);
                    assert(kv2.drop_last() =~= kv);
                    assert(self.seq_last@.drop_last() =~= old(self).seq_last@);
                    assert forall|a: int, b: int| 0 <= a < b < kv2.len() implies kv2[a] != kv2[b] by {
                        if b == kv2.len() - 1 {
                            assert(kv2[b] == payload.public_key@);
                            assert(kv2[a] == kv[a]);
                            lemma_entries_lookup(kv, old(self).seq_last@, a);
                        } else {
                            assert(kv2[a] == kv[a]);
                            assert(kv2[b] == kv[b]);
                        }
                    }
                }
            },
        }
        let ghost d = data@;
        self.measurements.push(
            StoredMeasurement { data, signature: payload.signature, public_key: payload.public_key },
        );
        proof {
            let new_view = self@;
            assert(new_view.measurements =~= old_view.measurements.push(stored_of(payload@, d)));
            lemma_insert_keeps_replay_free(old_view, payload@);
        }
        Ok(())
    }

    /// The last `n` measurements stored (all of them when there are fewer), oldest first.
    pub fn latest(&self, n: usize) -> (r: Vec<&StoredMeasurement>)
        ensures
            r@.map_values(|m: &StoredMeasurement| m@) == last_n(self@.measurements, n as nat),
            r@.len() == (if self@.measurements.len() > n {
                n as nat
            } else {
                self@.measurements.len()
            }),
            forall|j: int|
                0 <= j < r@.len() ==> (#[trigger] r@[j])@ == self@.measurements[self@.measurements.len()
                    - r@.len() + j],
    {
        let len = self.measurements.len();
        let start = if len > n {
            len - n
        } else {
            0
        };
        let mut out: Vec<&StoredMeasurement> = Vec::new();
        let mut i: usize = start;
        while i < len
            invariant
                start <= i <= len,
                len == self.measurements@.len(),
                out@.len() == i - start,
                forall|j: int|
                    0 <= j < out@.len() ==> *#[trigger] out@[j] == self.measurements@[start + j],
            decreases len - i,
        {
            out.push(&self.measurements[i]);
            i = i + 1;
        }
        assert(out@.map_values(|m: &StoredMeasurement| m@) =~= last_n(self@.measurements, n as nat));
        proof {
            lemma_last_n_is_suffix(self@.measurements, n as nat);
            assert forall|j: int| 0 <= j < out@.len() implies (#[trigger] out@[j])@
                == self@.measurements[self@.measurements.len() - out@.len() + j] by {
                assert(out@.map_values(|m: &StoredMeasurement| m@)[j] == out@[j]@);
            }
        }
        out
    }
}

/// `last_n(s, n)` is the suffix of `s` of length `min(n, |s|)`: its length is that
/// minimum and its element `j` is `s[|s| - min(n, |s|) + j]`; so when `s` is not
/// empty and `n > 0`, its last element is the last element of `s`.
pub proof fn lemma_last_n_is_suffix<T>(s: Seq<T>, n: nat)
    ensures
        last_n(s, n).len() == (if s.len() > n {
            n
        } else {
            s.len()
        }),
        forall|j: int|
            0 <= j < last_n(s, n).len() ==> #[trigger] last_n(s, n)[j] == s[s.len() - last_n(
                s,
                n,
            ).len() + j],
        s.len() > 0 && n > 0 ==> last_n(s, n)[last_n(s, n).len() - 1] == s[s.len() - 1],
{
}

/// The stored form of a payload keeps the decoded record, the signature and the
/// public key unchanged.
pub proof fn lemma_stored_of_keeps_fields(p: MeasurementPayloadView, d: SensorDataView)
    ensures
        stored_of(p, d).data == d,
        stored_of(p, d).signature == p.signature,
        stored_of(p, d).public_key == p.public_key,
{
}

/// An accepted insert appends exactly one measurement: the record decoded from the
/// payload's data, unchanged, with the payload's signature and public key; the
/// measurements stored before stay as they were.
pub proof fn lemma_insert_stores_decoded_record(s: StoreView, p: MeasurementPayloadView)
    requires
        spec_insert(s, p).1 is Ok,
    ensures
        spec_decode_sensor_data(p.data) is Some,
        spec_insert(s, p).0.measurements.len() == s.measurements.len() + 1,
        spec_insert(s, p).0.measurements.subrange(0, s.measurements.len() as int) == s.measurements,
        spec_insert(s, p).0.measurements.last().data == spec_decode_sensor_data(p.data)->Some_0,
        spec_insert(s, p).0.measurements.last().signature == p.signature,
        spec_insert(s, p).0.measurements.last().public_key == p.public_key,
        spec_insert(s, p).0.last_seq == s.last_seq.insert(
            p.public_key,
            spec_decode_sensor_data(p.data)->Some_0.sequence_id,
        ),
{
    assert(spec_insert(s, p).0.measurements.subrange(0, s.measurements.len() as int)
        =~= s.measurements);
}

/// Inserting a payload keeps the replay-protection invariant.
pub proof fn lemma_insert_keeps_replay_free(s: StoreView, p: MeasurementPayloadView)
    requires
        replay_free(s),
    ensures
        replay_free(spec_insert(s, p).0),
{
    if let Some(d) = spec_decode_sensor_data(p.data) {
        if !(s.last_seq.contains_key(p.public_key) && d.sequence_id <= s.last_seq[p.public_key]) {
            let t = spec_insert(s, p).0;
            let n = s.measurements.len();
            let k = p.public_key;
            assert forall|i: int|
                0 <= i < t.measurements.len() implies {
                    &&& t.last_seq.contains_key(#[trigger] t.measurements[i].public_key)
                    &&& t.measurements[i].data.sequence_id <= t.last_seq[t.measurements[i].public_key]
                } by {
                if i < n {
                    assert(t.measurements[i] == s.measurements[i]);
                    assert(s.last_seq.contains_key(s.measurements[i].public_key));
                }
            }
            assert forall|i: int, j: int|
                0 <= i < j < t.measurements.len() && #[trigger] t.measurements[i].public_key
                    == #[trigger] t.measurements[j].public_key implies t.measurements[i].data.sequence_id
                < t.measurements[j].data.sequence_id by {
                assert(t.measurements[i] == s.measurements[i]);
                if j < n {
                    assert(t.measurements[j] == s.measurements[j]);
                } else {
                    assert(s.last_seq.contains_key(s.measurements[i].public_key));
                }
            }
            assert forall|key: Seq<u8>| #[trigger] t.last_seq.contains_key(key) implies exists|i: int|
                0 <= i < t.measurements.len() && #[trigger] t.measurements[i].public_key == key
                    && t.measurements[i].data.sequence_id == t.last_seq[key] by {
                if key == k {
                    assert(t.measurements[n as int].public_key == key);
                } else {
                    let i = choose|i: int|
                        0 <= i < s.measurements.len() && #[trigger] s.measurements[i].public_key
                            == key && s.measurements[i].data.sequence_id == s.last_seq[key];
                    assert(t.measurements[i] == s.measurements[i]);
                }
            }
        }
    }
}

} // verus!
