//! Writing numbers as bits: fixed-width fields and Exp-Golomb codes, and what the
//! reader gives back for bytes that carry them.

use vstd::prelude::*;
use crate::bits::{
    bit_at, bits_value, lemma_two_to_large, lemma_two_to_monotonic, spec_golomb_prefix, spec_read_bits,
    spec_read_ue, two_to,
};

verus! {

/// The bit value of `b`.
pub open spec fn bit_of(b: bool) -> int {
    if b { 1 } else { 0 }
}

/// The bits of `s` from bit `p` on begin with the bits `b`.
pub open spec fn bits_match(s: Seq<u8>, p: int, b: Seq<bool>) -> bool {
    &&& 0 <= p
    &&& p + b.len() <= 8 * s.len()
    &&& forall|i: int| 0 <= i < b.len() ==> bit_at(s, p + i) == bit_of(#[trigger] b[i])
}

/// The `k` low bits of `x`, most significant first.
pub open spec fn num_bits(x: nat, k: nat) -> Seq<bool>
    decreases k,
{
    if k == 0 {
        Seq::empty()
    } else {
        num_bits(x / 2, (k - 1) as nat).push(x % 2 == 1)
    }
}

/// The number of zero bits that open the Exp-Golomb code of `n - 1`: the exponent of
/// the largest power of two not above `n`.
pub open spec fn golomb_zeros(n: nat) -> nat
    decreases n,
{
    if n < 2 { 0 } else { 1 + golomb_zeros(n / 2) }
}

/// The unsigned Exp-Golomb code `ue(v)` of `v`: as many zero bits as `v + 1` has bits
/// after its leading one, a one bit, then those bits.
pub open spec fn ue_bits(v: nat) -> Seq<bool> {
    let z = golomb_zeros(v + 1);
    Seq::new(z, |i: int| false).push(true) + num_bits((v + 1 - two_to(z)) as nat, z)
}

/// Bits that match a concatenation match each part, the second where the first ends.
pub proof fn lemma_match_split(s: Seq<u8>, p: int, a: Seq<bool>, b: Seq<bool>)
    requires
        bits_match(s, p, a + b),
    ensures
        bits_match(s, p, a),
        bits_match(s, p + a.len(), b),
{
    let ab = a + b;
    assert forall|i: int| 0 <= i < a.len() implies bit_at(s, p + i) == bit_of(#[trigger] a[i]) by {
        assert(ab[i] == a[i]);
    }
    assert forall|i: int| 0 <= i < b.len() implies bit_at(s, (p + a.len()) + i) == bit_of(#[trigger] b[i]) by {
        let j = a.len() + i;
        assert(ab[j] == b[i]);
        assert(p + j == (p + a.len()) + i);
    }
}

/// `num_bits(x, k)` has `k` bits, and bits that match it read back as `x` when `x`
/// fits in `k` bits.
pub proof fn lemma_num_bits_value(s: Seq<u8>, p: int, x: nat, k: nat)
    requires
        x < two_to(k),
        bits_match(s, p, num_bits(x, k)),
    ensures
        num_bits(x, k).len() == k,
        bits_value(s, p, k) == x,
    decreases k,
{
    if k > 0 {
        let head = num_bits(x / 2, (k - 1) as nat);
        let b = num_bits(x, k);
        lemma_num_bits_len(x / 2, (k - 1) as nat);
        assert(b == head.push(x % 2 == 1));
        assert(bits_match(s, p, head)) by {
            assert forall|i: int| 0 <= i < head.len() implies bit_at(s, p + i) == bit_of(#[trigger] head[i]) by {
                assert(b[i] == head[i]);
            }
        }
        assert(b[k - 1] == (x % 2 == 1));
        assert(bit_at(s, p + (k - 1)) == x % 2);
        lemma_num_bits_value(s, p, x / 2, (k - 1) as nat);
    }
}

/// `num_bits(x, k)` has `k` bits.
pub proof fn lemma_num_bits_len(x: nat, k: nat)
    ensures
        num_bits(x, k).len() == k,
    decreases k,
{
    if k > 0 {
        lemma_num_bits_len(x / 2, (k - 1) as nat);
    }
}

/// `golomb_zeros(n)` is the exponent of the largest power of two not above `n`.
pub proof fn lemma_golomb_zeros(n: nat)
    requires
        n >= 1,
    ensures
        two_to(golomb_zeros(n)) <= n < two_to(golomb_zeros(n) + 1),
    decreases n,
{
    if n >= 2 {
        lemma_golomb_zeros(n / 2);
    }
}

/// Bits that open with `z` zero bits and a one bit give an Exp-Golomb prefix of
/// `z` zeros, counted on from `c`.
proof fn lemma_prefix_match(s: Seq<u8>, p: int, c: int, z: nat)
    requires
        0 <= c,
        c + z <= 31,
        bits_match(s, p, Seq::new(z, |i: int| false).push(true)),
    ensures
        spec_golomb_prefix(s, p, c) == Ok::<(int, int), crate::error::ErrorView>((c + z, p + z + 1)),
    decreases z,
{
    let b = Seq::new(z, |i: int| false).push(true);
    assert(b[0] == (z == 0));
    assert(bit_at(s, p + 0) == bit_of(b[0]));
    if z > 0 {
        let rest = Seq::new((z - 1) as nat, |i: int| false).push(true);
        assert forall|i: int| 0 <= i < rest.len() implies bit_at(s, (p + 1) + i) == bit_of(#[trigger] rest[i]) by {
            assert(b[i + 1] == rest[i]);
            assert(p + (i + 1) == (p + 1) + i);
        }
        lemma_prefix_match(s, p + 1, c + 1, (z - 1) as nat);
    }
}

/// The bits of `ue(v)` followed by `rest` read back as `v`, and the reader stops
/// where `rest` begins.
pub proof fn lemma_read_ue_match(s: Seq<u8>, p: int, v: nat, rest: Seq<bool>)
    requires
        v < u32::MAX,
        bits_match(s, p, ue_bits(v) + rest),
    ensures
        spec_read_ue(s, p) == Ok::<(u32, int), crate::error::ErrorView>((v as u32, p + ue_bits(v).len())),
        bits_match(s, p + ue_bits(v).len(), rest),
{
    let n = (v + 1) as nat;
    let z = golomb_zeros(n);
    let pre = Seq::new(z, |i: int| false).push(true);
    let x = (n - two_to(z)) as nat;
    lemma_golomb_zeros(n);
    lemma_two_to_large();
    if z > 31 {
        lemma_two_to_monotonic(32, z);
    }
    assert(two_to(z + 1) == 2 * two_to(z));
    lemma_num_bits_len(x, z);
    lemma_match_split(s, p, ue_bits(v), rest);
    lemma_match_split(s, p, pre, num_bits(x, z));
    lemma_prefix_match(s, p, 0, z);
    lemma_num_bits_value(s, p + pre.len(), x, z);
    lemma_two_to_monotonic(z, 31);
}

/// A one-bit flag followed by `rest` reads back as its bit value.
pub proof fn lemma_read_flag_match(s: Seq<u8>, p: int, b: bool, rest: Seq<bool>)
    requires
        bits_match(s, p, seq![b] + rest),
    ensures
        spec_read_bits(s, p, 1) == Ok::<(u32, int), crate::error::ErrorView>((bit_of(b) as u32, p + 1)),
        bits_match(s, p + 1, rest),
{
    lemma_match_split(s, p, seq![b], rest);
    assert(seq![b][0] == b);
    assert(bit_at(s, p + 0) == bit_of(b));
    assert(bits_value(s, p, 0) == 0);
    assert(bits_value(s, p, 1) == bit_at(s, p));
}

/// An eight-bit field followed by `rest` reads back as its value.
pub proof fn lemma_read_byte_match(s: Seq<u8>, p: int, x: nat, rest: Seq<bool>)
    requires
        x < 256,
        bits_match(s, p, num_bits(x, 8) + rest),
    ensures
        spec_read_bits(s, p, 8) == Ok::<(u32, int), crate::error::ErrorView>((x as u32, p + 8)),
        bits_match(s, p + 8, rest),
{
    assert(two_to(8) == 256) by {
        reveal_with_fuel(two_to, 9);
    }
    lemma_num_bits_len(x, 8);
    lemma_match_split(s, p, num_bits(x, 8), rest);
    lemma_num_bits_value(s, p, x, 8);
}


/// Reading back a signed Exp-Golomb code gives the value it was written from, for
/// every value whose code number fits in an `i32` (the reader takes the code number
/// as an `i32`), that is every `v` with `-2^30 < v <= 2^30`.
pub proof fn lemma_se_code_round_trip(v: i32)
    requires
        -0x4000_0000 < v <= 0x4000_0000,
    ensures
        se_code(v as int) < u32::MAX,
        crate::bits::se_of(se_code(v as int) as u32) == v,
{
}

/// The Exp-Golomb code number of the signed value `v`: `2v - 1` for a positive `v`,
/// `-2v` otherwise.
pub open spec fn se_code(v: int) -> nat {
    if v > 0 { (2 * v - 1) as nat } else { (-2 * v) as nat }
}


/// Reading `n + m` bits gives the number that reading `n` bits and then the next `m`
/// bits give, the first read making up the high bits.
pub proof fn lemma_read_bits_splits(s: Seq<u8>, p: int, n: nat, m: nat)
    requires
        0 <= p,
        n + m <= 32,
        p + n + m <= 8 * s.len(),
    ensures
        spec_read_bits(s, p, (n + m) as int) matches Ok((v, q)) && spec_read_bits(s, p, n as int) matches Ok((a, q1))
            && spec_read_bits(s, q1, m as int) matches Ok((b, q2)) && q == q2 && v == a * two_to(m) + b,
{
    lemma_bits_value_concat(s, p, n, m);
    crate::bits::lemma_bits_value_bound(s, p, n + m);
    crate::bits::lemma_bits_value_bound(s, p, n);
    crate::bits::lemma_bits_value_bound(s, p + n, m);
    lemma_two_to_monotonic(n + m, 32);
    lemma_two_to_monotonic(n, 32);
    lemma_two_to_monotonic(m, 32);
    lemma_two_to_large();
}

proof fn lemma_bits_value_concat(s: Seq<u8>, p: int, n: nat, m: nat)
    ensures
        bits_value(s, p, n + m) == bits_value(s, p, n) * two_to(m) + bits_value(s, p + n, m),
    decreases m,
{
    if m > 0 {
        let m1 = (m - 1) as nat;
        lemma_bits_value_concat(s, p, n, m1);
        let a = bits_value(s, p, n);
        let t = two_to(m1);
        let last = bit_at(s, p + n + m1);
        assert(bits_value(s, p, n + m) == 2 * bits_value(s, p, n + m1) + last);
        assert(bits_value(s, p + n, m) == 2 * bits_value(s, p + n, m1) + last);
        assert(two_to(m) == 2 * t);
        assert(2 * (a * t) == a * (2 * t)) by (nonlinear_arith);
    } else {
        let a = bits_value(s, p, n);
        assert(two_to(0) == 1);
        assert(a * 1 == a);
        assert(n + m == n);
    }
}

/// A byte-aligned eight-bit read gives back the byte, most significant bit first.
pub proof fn lemma_read_aligned_byte(s: Seq<u8>, i: int)
    requires
        0 <= i < s.len(),
    ensures
        spec_read_bits(s, 8 * i, 8) == Ok::<(u32, int), crate::error::ErrorView>((s[i] as u32, 8 * i + 8)),
{
    let b = s[i];
    reveal_with_fuel(bits_value, 9);
    assert((8 * i + 0) / 8 == i && (8 * i + 0) % 8 == 0);
    assert((8 * i + 1) / 8 == i && (8 * i + 1) % 8 == 1);
    assert((8 * i + 2) / 8 == i && (8 * i + 2) % 8 == 2);
    assert((8 * i + 3) / 8 == i && (8 * i + 3) % 8 == 3);
    assert((8 * i + 4) / 8 == i && (8 * i + 4) % 8 == 4);
    assert((8 * i + 5) / 8 == i && (8 * i + 5) % 8 == 5);
    assert((8 * i + 6) / 8 == i && (8 * i + 6) % 8 == 6);
    assert((8 * i + 7) / 8 == i && (8 * i + 7) % 8 == 7);
    assert(bit_at(s, 8 * i) == (b as int / 128) % 2);
    assert(bit_at(s, 8 * i + 1) == (b as int / 64) % 2);
    assert(bit_at(s, 8 * i + 2) == (b as int / 32) % 2);
    assert(bit_at(s, 8 * i + 3) == (b as int / 16) % 2);
    assert(bit_at(s, 8 * i + 4) == (b as int / 8) % 2);
    assert(bit_at(s, 8 * i + 5) == (b as int / 4) % 2);
    assert(bit_at(s, 8 * i + 6) == (b as int / 2) % 2);
    assert(bit_at(s, 8 * i + 7) == (b as int / 1) % 2);
    assert(((b / 128) % 2) * 128 + ((b / 64) % 2) * 64 + ((b / 32) % 2) * 32 + ((b / 16) % 2) * 16 + ((b / 8) % 2) * 8
        + ((b / 4) % 2) * 4 + ((b / 2) % 2) * 2 + b % 2 == b) by (bit_vector);
}

} // verus!
