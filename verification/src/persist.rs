//! The node's stored sequence number: eight bytes, least significant first.

use vstd::prelude::*;
use crate::codec::{
    le_bytes, le_value, lemma_le_bytes_of_value, lemma_le_roundtrip, lemma_pow256_values, read_le,
    write_le,
};

verus! {

/// The bytes under which a sequence number is kept.
pub fn seq_to_bytes(seq: u64) -> (r: Vec<u8>)
    ensures
        r@ == le_bytes(seq as nat, 8),
        r@.len() == 8,
{
    let mut out: Vec<u8> = Vec::new();
    write_le(&mut out, seq, 8);
    proof {
        crate::codec::lemma_le_bytes_len(seq as nat, 8);
        assert(Seq::<u8>::empty() + le_bytes(seq as nat, 8) =~= le_bytes(seq as nat, 8));
    }
    out
}

/// The sequence number kept in eight bytes.
pub fn seq_from_bytes(buf: &[u8; 8]) -> (r: u64)
    ensures
        r == le_value(buf@),
{
    let s = buf.as_slice();
    assert(s@.subrange(0, 8) =~= s@);
    read_le(s, 0, 8)
}

/// A stored sequence number reads back as itself.
pub proof fn lemma_seq_roundtrip(seq: u64)
    ensures
        le_value(le_bytes(seq as nat, 8)) == seq,
{
    lemma_pow256_values();
    lemma_le_roundtrip(seq as nat, 8);
}


/// Eight stored bytes are exactly the bytes of the sequence number they hold.
pub proof fn lemma_seq_bytes_roundtrip(buf: Seq<u8>)
    requires
        buf.len() == 8,
    ensures
        le_bytes(le_value(buf), 8) == buf,
{
    lemma_le_bytes_of_value(buf);
}

} // verus!
