//! The binary wire format used for measurements: variable-length unsigned
//! integers (7 bits per byte, least significant group first, high bit set on
//! every byte but the last), little-endian fixed-width integers, and
//! length-prefixed byte strings.

use vstd::prelude::*;

verus! {

/// `128` to the power `n`.
pub open spec fn pow128(n: nat) -> nat
    decreases n,
{
    if n == 0 {
        1
    } else {
        128 * pow128((n - 1) as nat)
    }
}

/// The value of the first `n` base-128 digits of `s`, least significant first;
/// the continuation bit of each byte is not part of its digit.
pub open spec fn digits_value(s: Seq<u8>, n: nat) -> nat
    decreases n,
{
    if n == 0 {
        0
    } else {
        (s[0] % 128) as nat + 128 * digits_value(s.drop_first(), (n - 1) as nat)
    }
}

/// The number of bytes of the variable-length integer at the start of `s`: it ends
/// with the first byte whose high bit is clear. `None` when no such byte occurs among
/// the first `budget` bytes.
pub open spec fn varint_len(s: Seq<u8>, budget: nat) -> Option<nat>
    decreases budget,
{
    if budget == 0 || s.len() == 0 {
        None
    } else if s[0] < 128 {
        Some(1)
    } else {
        match varint_len(s.drop_first(), (budget - 1) as nat) {
            Some(n) => Some(n + 1),
            None => None,
        }
    }
}

/// Decoding of a `u64` varint at the start of `s`: at most ten bytes, and a
/// tenth byte may only hold the value 0 or 1. Yields the value and the number of
/// bytes read. Non-minimal encodings (such as `[0x80, 0x00]` for zero) are accepted.
pub open spec fn spec_decode_varint(s: Seq<u8>) -> Option<(u64, nat)> {
    match varint_len(s, 10) {
        None => None,
        Some(n) => if n == 10 && s[9] > 1 {
            None
        } else {
            Some((digits_value(s, n) as u64, n))
        },
    }
}

/// The minimal varint encoding of `v`.
pub open spec fn spec_encode_varint(v: nat) -> Seq<u8>
    decreases v,
{
    if v < 128 {
        seq![v as u8]
    } else {
        seq![(v % 128 + 128) as u8] + spec_encode_varint(v / 128)
    }
}

/// Appends the varint encoding of `v` to `out`.
pub fn encode_varint(out: &mut Vec<u8>, v: u64)
    ensures
        final(out)@ == old(out)@ + spec_encode_varint(v as nat),
{
    let ghost start = out@;
    let mut x: u64 = v;
    while x >= 128
        invariant
            out@ + spec_encode_varint(x as nat) == start + spec_encode_varint(v as nat),
        decreases x,
    {
        let ghost before = out@;
        out.push((x % 128 + 128) as u8);
        assert(spec_encode_varint(x as nat) == seq![(x % 128 + 128) as u8] + spec_encode_varint(
            (x / 128) as nat,
        ));
        assert(before + spec_encode_varint(x as nat) == out@ + spec_encode_varint((x / 128) as nat));
        x = x / 128;
    }
    out.push(x as u8);
}


/// Powers of 128 grow with the exponent.
pub proof fn lemma_pow128_monotone(a: nat, b: nat)
    requires
        a <= b,
    ensures
        pow128(a) <= pow128(b),
    decreases b,
{
    if a < b {
        lemma_pow128_monotone(a, (b - 1) as nat);
    }
}

/// `128^9` is `2^63`.
pub proof fn lemma_pow128_nine()
    ensures
        pow128(8) == 0x100_0000_0000_0000,
        pow128(9) == 0x8000_0000_0000_0000,
{
    reveal_with_fuel(pow128, 10);
}

/// Bytes with the high bit set before position `i` only lengthen the varint.
proof fn lemma_varint_len_skip(t: Seq<u8>, i: nat, budget: nat)
    requires
        i <= t.len(),
        i <= budget,
        forall|j: int| 0 <= j < i ==> t[j] >= 128,
    ensures
        varint_len(t, budget) == match varint_len(t.skip(i as int), (budget - i) as nat) {
            Some(n) => Some(n + i),
            None => None,
        },
    decreases i,
{
    if i == 0 {
        assert(t.skip(0) =~= t);
    } else {
        let d = t.drop_first();
        assert forall|j: int| 0 <= j < i - 1 implies d[j] >= 128 by {
            assert(d[j] == t[j + 1]);
        }
        lemma_varint_len_skip(d, (i - 1) as nat, (budget - 1) as nat);
        assert(d.skip(i - 1) =~= t.skip(i as int));
    }
}

/// A varint never claims more bytes than it has.
proof fn lemma_varint_len_bound(t: Seq<u8>, budget: nat)
    ensures
        varint_len(t, budget) matches Some(n) ==> 1 <= n <= t.len() && n <= budget,
    decreases budget,
{
    if budget > 0 && t.len() > 0 && t[0] >= 128 {
        lemma_varint_len_bound(t.drop_first(), (budget - 1) as nat);
    }
}

/// Adding one more digit at the most significant end.
proof fn lemma_digits_extend(t: Seq<u8>, i: nat)
    requires
        i < t.len(),
    ensures
        digits_value(t, i + 1) == digits_value(t, i) + (t[i as int] % 128) as nat * pow128(i),
    decreases i,
{
    if i > 0 {
        let d = t.drop_first();
        lemma_digits_extend(d, (i - 1) as nat);
        assert(d[i - 1] == t[i as int]);
        let x = (t[i as int] % 128) as nat;
        let p = pow128((i - 1) as nat);
        assert(128 * (x * p) == x * (128 * p)) by (nonlinear_arith);
        assert(digits_value(t, i + 1) == (t[0] % 128) as nat + 128 * digits_value(d, i));
        assert(digits_value(t, i) == (t[0] % 128) as nat + 128 * digits_value(d, (i - 1) as nat));
        assert(pow128(i) == 128 * p);
    } else {
        assert(digits_value(t, 1) == (t[0] % 128) as nat + 128 * digits_value(t.drop_first(), 0));
        let x = (t[0] % 128) as nat;
        assert(pow128(0) == 1);
        assert(x * 1 == x) by (nonlinear_arith);
    }
}

/// Reads a `u64` varint from `s` at offset `pos`; yields the value and the offset
/// just past it.
pub fn decode_varint(s: &[u8], pos: usize) -> (r: Option<(u64, usize)>)
    requires
        pos <= s@.len(),
    ensures
        match spec_decode_varint(s@.skip(pos as int)) {
            None => r is None,
            Some((v, n)) => r == Some((v, (pos + n) as usize)) && pos + n <= s@.len(),
        },
{
    let ghost t = s@.skip(pos as int);
    proof {
        lemma_pow128_nine();
        lemma_varint_len_bound(t, 10);
    }
    let mut i: usize = 0;
    let mut acc: u64 = 0;
    let mut mult: u64 = 1;
    while i < 10
        invariant
            pos <= s@.len(),
            t == s@.skip(pos as int),
            i <= 10,
            pos + i <= s@.len(),
            forall|j: int| 0 <= j < i ==> t[j] >= 128,
            acc == digits_value(t, i as nat),
            mult == pow128(i as nat),
            acc < mult,
            pow128(8) == 0x100_0000_0000_0000,
            pow128(9) == 0x8000_0000_0000_0000,
            varint_len(t, 10) matches Some(n) ==> n <= t.len(),
        decreases 10 - i,
    {
        if i >= s.len() - pos {
            proof {
                lemma_varint_len_skip(t, i as nat, 10);
                assert(t.skip(i as int).len() == 0);
            }
            return None;
        }
        let b = s[pos + i];
        proof {
            lemma_varint_len_skip(t, i as nat, 10);
            assert(t.skip(i as int)[0] == b);
            lemma_digits_extend(t, i as nat);
            lemma_pow128_monotone(i as nat, 9);
        }
        if b < 128 {
            if i == 9 && b > 1 {
                return None;
            }
            proof {
                if i < 9 {
                    lemma_pow128_monotone(i as nat, 8);
                    assert(acc + b * mult < 128 * mult) by (nonlinear_arith)
                        requires
                            acc < mult,
                            b < 128,
                    ;
                } else {
                    assert(acc + b * mult < 0x1_0000_0000_0000_0000) by (nonlinear_arith)
                        requires
                            acc < mult,
                            b <= 1,
                            mult == 0x8000_0000_0000_0000,
                    ;
                }
            }
            return Some((acc + (b as u64) * mult, pos + i + 1));
        }
        if i == 9 {
            proof {
                assert(varint_len(t.skip(9).drop_first(), 0) is None);
            }
            return None;
        }
        proof {
            lemma_pow128_monotone(i as nat, 8);
            assert(acc + (b - 128) * mult < 128 * mult) by (nonlinear_arith)
                requires
                    acc < mult,
                    b < 256,
                    b >= 128,
            ;
        }
        acc = acc + ((b - 128) as u64) * mult;
        mult = mult * 128;
        i = i + 1;
    }
    proof {
        lemma_varint_len_skip(t, 10, 10);
    }
    None
}

/// The minimal encoding of `v` is read back as `v`, whatever bytes follow it.
proof fn lemma_encode_varint_reads_back(v: nat, rest: Seq<u8>, budget: nat)
    requires
        spec_encode_varint(v).len() <= budget,
    ensures
        varint_len(spec_encode_varint(v) + rest, budget) == Some(spec_encode_varint(v).len()),
        digits_value(spec_encode_varint(v) + rest, spec_encode_varint(v).len()) == v,
    decreases v,
{
    let e = spec_encode_varint(v);
    let t = e + rest;
    if v >= 128 {
        let e2 = spec_encode_varint(v / 128);
        lemma_encode_varint_reads_back(v / 128, rest, (budget - 1) as nat);
        assert(t.drop_first() =~= e2 + rest);
        assert(t[0] == (v % 128 + 128) as u8);
        assert(digits_value(t, e.len()) == (t[0] % 128) as nat + 128 * digits_value(
            e2 + rest,
            e2.len(),
        ));
    } else {
        assert(t[0] == v as u8);
        assert(digits_value(t, 1) == (t[0] % 128) as nat + 128 * digits_value(t.drop_first(), 0));
    }
}

/// The minimal encoding of a value below `2 * 128^(k-1)` has at most `k` bytes, and
/// when it has exactly `k` its last byte is 0 or 1.
proof fn lemma_encode_varint_bounded(v: nat, k: nat)
    requires
        k >= 1,
        v < 2 * pow128((k - 1) as nat),
    ensures
        spec_encode_varint(v).len() <= k,
        spec_encode_varint(v).len() == k ==> spec_encode_varint(v)[k - 1] <= 1,
    decreases v,
{
    if v >= 128 {
        assert(k >= 2);
        lemma_encode_varint_bounded(v / 128, (k - 1) as nat);
    }
}

/// Powers of 128 are positive.
pub proof fn lemma_pow128_positive(n: nat)
    ensures
        pow128(n) > 0,
    decreases n,
{
    if n > 0 {
        lemma_pow128_positive((n - 1) as nat);
    }
}

/// The shape of the minimal varint encoding of `v`, stated by arithmetic alone:
/// byte `i` carries the base-128 digit `i` of `v` in its low 7 bits, every byte but
/// the last has its high bit set and the last has it clear, and the encoding has
/// the least number of bytes that can hold `v` (one more byte would be needed
/// only from `128^len` on, and one fewer would not reach `v`).
pub proof fn lemma_encode_varint_shape(v: nat)
    ensures
        ({
            let e = spec_encode_varint(v);
            &&& e.len() >= 1
            &&& forall|i: int|
                0 <= i < e.len() ==> (#[trigger] e[i]) as nat % 128 == (v / pow128(i as nat)) % 128
            &&& forall|i: int| 0 <= i < e.len() - 1 ==> (#[trigger] e[i]) >= 128
            &&& e[e.len() - 1] < 128
            &&& v < pow128(e.len())
            &&& e.len() > 1 ==> v >= pow128((e.len() - 1) as nat)
        }),
    decreases v,
{
    let e = spec_encode_varint(v);
    if v < 128 {
        assert(pow128(1) == 128) by {
            reveal_with_fuel(pow128, 2);
        }
        assert(pow128(0) == 1);
    } else {
        let w = v / 128;
        let e2 = spec_encode_varint(w);
        lemma_encode_varint_shape(w);
        assert(e == seq![(v % 128 + 128) as u8] + e2);
        assert forall|i: int| 0 <= i < e.len() implies (#[trigger] e[i]) as nat % 128 == (v / pow128(
            i as nat,
        )) % 128 by {
            if i == 0 {
                assert(pow128(0) == 1);
            } else {
                assert(e[i] == e2[i - 1]);
                lemma_pow128_positive((i - 1) as nat);
                vstd::arithmetic::div_mod::lemma_div_denominator(
                    v as int,
                    128,
                    pow128((i - 1) as nat) as int,
                );
                assert(pow128(i as nat) == 128 * pow128((i - 1) as nat));
            }
        }
        assert forall|i: int| 0 <= i < e.len() - 1 implies (#[trigger] e[i]) >= 128 by {
            if i > 0 {
                assert(e[i] == e2[i - 1]);
            }
        }
        assert(e[e.len() - 1] == e2[e2.len() - 1]);
        let p = pow128(e2.len());
        assert(pow128(e.len()) == 128 * p);
        assert(v < 128 * p) by (nonlinear_arith)
            requires
                w == v / 128,
                w < p,
                v >= 0,
        ;
        if e2.len() > 1 {
            let q = pow128((e2.len() - 1) as nat);
            assert(pow128((e.len() - 1) as nat) == 128 * q);
            assert(v >= 128 * q) by (nonlinear_arith)
                requires
                    w == v / 128,
                    w >= q,
                    v >= 0,
            ;
        } else {
            assert(pow128(1) == 128) by {
                reveal_with_fuel(pow128, 2);
            }
        }
    }
}

/// A length-prefixed byte string is the minimal varint of its length followed by
/// the bytes themselves.
pub proof fn lemma_encode_bytes_layout(b: Seq<u8>)
    ensures
        ({
            let e = spec_encode_bytes(b);
            let h = spec_encode_varint(b.len());
            &&& e.len() == h.len() + b.len()
            &&& e.subrange(0, h.len() as int) == h
            &&& e.subrange(h.len() as int, e.len() as int) == b
        }),
{
    let e = spec_encode_bytes(b);
    let h = spec_encode_varint(b.len());
    assert(e.subrange(0, h.len() as int) =~= h);
    assert(e.subrange(h.len() as int, e.len() as int) =~= b);
}

/// Encoding then decoding a `u64` gives it back, with the length of its encoding;
/// bytes after the encoding are not read.
pub proof fn lemma_varint_roundtrip(v: u64, rest: Seq<u8>)
    ensures
        spec_decode_varint(spec_encode_varint(v as nat) + rest) == Some(
            (v, spec_encode_varint(v as nat).len()),
        ),
        1 <= spec_encode_varint(v as nat).len() <= 10,
{
    lemma_pow128_nine();
    lemma_encode_varint_bounded(v as nat, 10);
    lemma_encode_varint_reads_back(v as nat, rest, 10);
    let e = spec_encode_varint(v as nat);
    if e.len() == 10 {
        assert((e + rest)[9] == e[9]);
    }
}


/// `256` to the power `n`.
pub open spec fn pow256(n: nat) -> nat
    decreases n,
{
    if n == 0 {
        1
    } else {
        256 * pow256((n - 1) as nat)
    }
}

/// The unsigned value of `s` read as a little-endian number.
pub open spec fn le_value(s: Seq<u8>) -> nat
    decreases s.len(),
{
    if s.len() == 0 {
        0
    } else {
        s[0] as nat + 256 * le_value(s.drop_first())
    }
}

/// The low `n` bytes of `v`, least significant first.
pub open spec fn le_bytes(v: nat, n: nat) -> Seq<u8>
    decreases n,
{
    if n == 0 {
        seq![]
    } else {
        seq![(v % 256) as u8] + le_bytes(v / 256, (n - 1) as nat)
    }
}

/// Concrete powers of 256 used for the fixed-width fields.
pub proof fn lemma_pow256_values()
    ensures
        pow256(4) == 0x1_0000_0000,
        pow256(7) == 0x100_0000_0000_0000,
        pow256(8) == 0x1_0000_0000_0000_0000,
{
    reveal_with_fuel(pow256, 9);
}

/// Powers of 256 grow with the exponent.
pub proof fn lemma_pow256_monotone(a: nat, b: nat)
    requires
        a <= b,
    ensures
        pow256(a) <= pow256(b),
    decreases b,
{
    if a < b {
        lemma_pow256_monotone(a, (b - 1) as nat);
    }
}

/// `le_bytes(v, n)` has `n` bytes.
pub proof fn lemma_le_bytes_len(v: nat, n: nat)
    ensures
        le_bytes(v, n).len() == n,
    decreases n,
{
    if n > 0 {
        lemma_le_bytes_len(v / 256, (n - 1) as nat);
    }
}

/// A little-endian number of `k` bytes is below `256^k`.
pub proof fn lemma_le_value_bound(s: Seq<u8>)
    ensures
        le_value(s) < pow256(s.len()),
    decreases s.len(),
{
    if s.len() > 0 {
        lemma_le_value_bound(s.drop_first());
    }
}

/// Powers of 256 are positive.
pub proof fn lemma_pow256_positive(n: nat)
    ensures
        pow256(n) > 0,
    decreases n,
{
    if n > 0 {
        lemma_pow256_positive((n - 1) as nat);
    }
}

/// Byte `i` of `le_bytes(v, n)` is digit `i` of `v` in base 256.
pub proof fn lemma_le_bytes_shape(v: nat, n: nat)
    ensures
        le_bytes(v, n).len() == n,
        forall|i: int|
            0 <= i < n ==> (#[trigger] le_bytes(v, n)[i]) as nat == (v / pow256(i as nat)) % 256,
    decreases n,
{
    lemma_le_bytes_len(v, n);
    if n > 0 {
        let w = v / 256;
        lemma_le_bytes_shape(w, (n - 1) as nat);
        let b = le_bytes(v, n);
        assert(b == seq![(v % 256) as u8] + le_bytes(w, (n - 1) as nat));
        assert forall|i: int| 0 <= i < n implies (#[trigger] le_bytes(v, n)[i]) as nat == (v / pow256(
            i as nat,
        )) % 256 by {
            if i == 0 {
                assert(pow256(0) == 1);
            } else {
                assert(b[i] == le_bytes(w, (n - 1) as nat)[i - 1]);
                lemma_pow256_positive((i - 1) as nat);
                vstd::arithmetic::div_mod::lemma_div_denominator(
                    v as int,
                    256,
                    pow256((i - 1) as nat) as int,
                );
                assert(pow256(i as nat) == 256 * pow256((i - 1) as nat));
            }
        }
    }
}

/// Writing `v` in `n` little-endian bytes and reading them back gives `v` when it fits.
pub proof fn lemma_le_roundtrip(v: nat, n: nat)
    requires
        v < pow256(n),
    ensures
        le_value(le_bytes(v, n)) == v,
        le_bytes(v, n).len() == n,
    decreases n,
{
    lemma_le_bytes_len(v, n);
    if n > 0 {
        lemma_le_roundtrip(v / 256, (n - 1) as nat);
        let b = le_bytes(v, n);
        assert(b.drop_first() =~= le_bytes(v / 256, (n - 1) as nat));
    }
}

/// Reading bytes as a little-endian number and writing it back gives the same bytes.
pub proof fn lemma_le_bytes_of_value(s: Seq<u8>)
    ensures
        le_bytes(le_value(s), s.len()) == s,
    decreases s.len(),
{
    if s.len() > 0 {
        let d = s.drop_first();
        lemma_le_bytes_of_value(d);
        let v = le_value(s);
        assert(v % 256 == s[0] as nat);
        assert(v / 256 == le_value(d));
        assert(le_bytes(v, s.len()) =~= seq![s[0]] + le_bytes(le_value(d), d.len()));
        assert(s =~= seq![s[0]] + d);
    } else {
        assert(s =~= seq![]);
    }
}

/// Appends the `n` low bytes of `v` to `out`, least significant first.
pub fn write_le(out: &mut Vec<u8>, v: u64, n: usize)
    requires
        n <= 8,
    ensures
        final(out)@ == old(out)@ + le_bytes(v as nat, n as nat),
{
    let ghost start = out@;
    let mut x: u64 = v;
    let mut i: usize = 0;
    while i < n
        invariant
            i <= n,
            out@ + le_bytes(x as nat, (n - i) as nat) == start + le_bytes(v as nat, n as nat),
        decreases n - i,
    {
        let ghost before = out@;
        out.push((x % 256) as u8);
        assert(le_bytes(x as nat, (n - i) as nat) == seq![(x % 256) as u8] + le_bytes(
            (x / 256) as nat,
            (n - i - 1) as nat,
        ));
        assert(before + le_bytes(x as nat, (n - i) as nat) == out@ + le_bytes(
            (x / 256) as nat,
            (n - i - 1) as nat,
        ));
        x = x / 256;
        i = i + 1;
    }
    assert(le_bytes(x as nat, 0) =~= seq![]);
    assert(out@ + seq![] =~= out@);
}

/// Reads `n` bytes of `s` at offset `pos` as a little-endian number.
pub fn read_le(s: &[u8], pos: usize, n: usize) -> (r: u64)
    requires
        n <= 8,
        pos + n <= s@.len(),
    ensures
        r == le_value(s@.subrange(pos as int, pos + n)),
        r < pow256(n as nat),
{
    proof {
        lemma_pow256_values();
    }
    let mut acc: u64 = 0;
    let mut j: usize = n;
    assert(s@.subrange(pos + n, pos + n) =~= seq![]);
    while j > 0
        invariant
            n <= 8,
            pos + n <= s@.len(),
            pos + n <= s.len(),
            j <= n,
            acc == le_value(s@.subrange(pos + j, pos + n)),
            acc < pow256((n - j) as nat),
            pow256(7) == 0x100_0000_0000_0000,
        decreases j,
    {
        let b = s[pos + j - 1];
        proof {
            lemma_pow256_monotone((n - j) as nat, 7);
            let sub = s@.subrange(pos + j - 1, pos + n);
            assert(sub.drop_first() =~= s@.subrange(pos + j, pos + n));
            assert(sub[0] == b);
        }
        acc = b as u64 + acc * 256;
        j = j - 1;
    }
    acc
}

/// A byte string preceded by its length as a varint.
pub open spec fn spec_encode_bytes(b: Seq<u8>) -> Seq<u8> {
    spec_encode_varint(b.len()) + b
}

/// Reads a length-prefixed byte string at the start of `s`: the bytes and the
/// number of bytes consumed. `None` when the length cannot be read or the input
/// ends before the announced length.
pub open spec fn spec_decode_bytes(s: Seq<u8>) -> Option<(Seq<u8>, nat)> {
    match spec_decode_varint(s) {
        None => None,
        Some((n, k)) => if k + n <= s.len() {
            Some((s.subrange(k as int, k + n), (k + n) as nat))
        } else {
            None
        },
    }
}

/// Appends `b` with its length prefix to `out`.
pub fn encode_bytes(out: &mut Vec<u8>, b: &[u8])
    ensures
        final(out)@ == old(out)@ + spec_encode_bytes(b@),
{
    let ghost start = out@;
    encode_varint(out, b.len() as u64);
    let ghost mid = out@;
    let mut i: usize = 0;
    while i < b.len()
        invariant
            i <= b@.len(),
            out@ == mid + b@.subrange(0, i as int),
        decreases b.len() - i,
    {
        out.push(b[i]);
        assert(b@.subrange(0, i + 1) =~= b@.subrange(0, i as int).push(b@[i as int]));
        i = i + 1;
    }
    assert(b@.subrange(0, b@.len() as int) =~= b@);
    assert(out@ =~= start + spec_encode_bytes(b@));
}

/// Reads a length-prefixed byte string from `s` at offset `pos`; yields the bytes
/// and the offset just past them.
pub fn decode_bytes(s: &[u8], pos: usize) -> (r: Option<(Vec<u8>, usize)>)
    requires
        pos <= s@.len(),
    ensures
        match spec_decode_bytes(s@.skip(pos as int)) {
            None => r is None,
            Some((b, n)) => r matches Some((v, end)) && v@ == b && end == pos + n && end
                <= s@.len(),
        },
{
    let ghost t = s@.skip(pos as int);
    match decode_varint(s, pos) {
        None => None,
        Some((n, start)) => {
            let avail = s.len() - start;
            if n > avail as u64 {
                None
            } else {
                let end = start + n as usize;
                let v = vstd::slice::slice_to_vec(vstd::slice::slice_subrange(s, start, end));
                assert(v@ =~= t.subrange((start - pos) as int, (end - pos) as int));
                Some((v, end))
            }
        },
    }
}

/// A byte string with its length prefix is read back whole, whatever follows it.
pub proof fn lemma_bytes_roundtrip(b: Seq<u8>, rest: Seq<u8>)
    requires
        b.len() < 0x1_0000_0000_0000_0000,
    ensures
        spec_decode_bytes(spec_encode_bytes(b) + rest) == Some(
            (b, spec_encode_bytes(b).len()),
        ),
{
    let n = b.len() as u64;
    let e = spec_encode_varint(n as nat);
    lemma_varint_roundtrip(n, b + rest);
    assert(spec_encode_bytes(b) + rest =~= e + (b + rest));
    assert((e + (b + rest)).subrange(e.len() as int, (e.len() + b.len()) as int) =~= b);
}

} // verus!
