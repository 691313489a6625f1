//! A most-significant-bit-first reader over an H.264 RBSP, with the
//! Exp-Golomb codes of the standard.

use vstd::prelude::*;
use crate::error::{format_error, result_is, ErrorView, RtlError};

verus! {

/// Two to the power `n`.
pub open spec fn two_to(n: nat) -> nat
    decreases n,
{
    if n == 0 { 1 } else { 2 * two_to((n - 1) as nat) }
}

/// `two_to` grows with its argument and stays positive.
pub proof fn lemma_two_to_monotonic(m: nat, n: nat)
    requires
        m <= n,
    ensures
        1 <= two_to(m) <= two_to(n),
    decreases n,
{
    if n > m {
        lemma_two_to_monotonic(m, (n - 1) as nat);
    } else if n > 0 {
        lemma_two_to_monotonic(0, (n - 1) as nat);
    }
}

/// The powers of two at the top of the 32-bit range.
pub proof fn lemma_two_to_large()
    ensures
        two_to(30) == 0x4000_0000,
        two_to(31) == 0x8000_0000,
        two_to(32) == 0x1_0000_0000,
{
    reveal_with_fuel(two_to, 33);
}

/// The weight, within its byte, of the bit at index `k` counted from the most
/// significant bit.
pub open spec fn bit_weight(k: int) -> int {
    if k == 0 { 128 }
    else if k == 1 { 64 }
    else if k == 2 { 32 }
    else if k == 3 { 16 }
    else if k == 4 { 8 }
    else if k == 5 { 4 }
    else if k == 6 { 2 }
    else { 1 }
}

/// Bit `p` of `s`, numbering the bits of each byte from the most significant one.
pub open spec fn bit_at(s: Seq<u8>, p: int) -> int {
    (s[p / 8] as int / bit_weight(p % 8)) % 2
}

/// The number written by the `n` bits of `s` from bit `p` on.
pub open spec fn bits_value(s: Seq<u8>, p: int, n: nat) -> int
    decreases n,
{
    if n == 0 {
        0
    } else {
        2 * bits_value(s, p, (n - 1) as nat) + bit_at(s, p + n - 1)
    }
}

pub proof fn lemma_bits_value_bound(s: Seq<u8>, p: int, n: nat)
    ensures
        0 <= bits_value(s, p, n) < two_to(n),
    decreases n,
{
    if n > 0 {
        lemma_bits_value_bound(s, p, (n - 1) as nat);
    }
}

pub open spec fn truncated_sps() -> ErrorView {
    ErrorView::Format("truncated H.264 SPS"@)
}

/// Reading `n` bits at bit position `p`: the value and the position after them.
pub open spec fn spec_read_bits(s: Seq<u8>, p: int, n: int) -> Result<(u32, int), ErrorView> {
    if n > 32 {
        Err(ErrorView::Format("H.264 bit read is too wide"@))
    } else if n > 0 && p + n > 8 * s.len() {
        Err(truncated_sps())
    } else {
        Ok((bits_value(s, p, n as nat) as u32, p + n))
    }
}

/// The zero bits that open an Exp-Golomb code at `p`, after `zeros` of them have
/// been read: their count and the position after the closing one bit.
pub open spec fn spec_golomb_prefix(s: Seq<u8>, p: int, zeros: int) -> Result<(int, int), ErrorView>
    decreases 32 - zeros,
{
    if zeros < 0 || zeros > 31 {
        Err(ErrorView::Format("invalid H.264 Exp-Golomb code"@))
    } else if p >= 8 * s.len() {
        Err(truncated_sps())
    } else if bit_at(s, p) == 1 {
        Ok((zeros, p + 1))
    } else if zeros + 1 > 31 {
        Err(ErrorView::Format("invalid H.264 Exp-Golomb code"@))
    } else {
        spec_golomb_prefix(s, p + 1, zeros + 1)
    }
}

/// Reading an unsigned Exp-Golomb code `ue(v)` at `p`.
pub open spec fn spec_read_ue(s: Seq<u8>, p: int) -> Result<(u32, int), ErrorView> {
    match spec_golomb_prefix(s, p, 0) {
        Err(e) => Err(e),
        Ok((zeros, q)) => match spec_read_bits(s, q, zeros) {
            Err(e) => Err(e),
            Ok((suffix, r)) => Ok(((two_to(zeros as nat) - 1 + suffix) as u32, r)),
        },
    }
}

/// The signed value of the Exp-Golomb code number `code`, read as an `i32`: an even
/// number `c` stands for `-c / 2`, an odd one for `(c + 1) / 2`.
pub open spec fn se_of(code: u32) -> i32 {
    let c: int = if code <= 0x7fff_ffff { code as int } else { code - 0x1_0000_0000 };
    if code % 2 == 0 {
        (-(c / 2)) as i32
    } else {
        ((c + 1) / 2) as i32
    }
}

/// Reading a signed Exp-Golomb code `se(v)` at `p`.
pub open spec fn spec_read_se(s: Seq<u8>, p: int) -> Result<(i32, int), ErrorView> {
    match spec_read_ue(s, p) {
        Err(e) => Err(e),
        Ok((code, q)) => Ok((se_of(code), q)),
    }
}

/// Where a failed read of `n` bits at `p` leaves the reader: a read wider than 32 bits
/// does not move it; one that runs out of bits stops at the end of the bytes, or
/// where it started when that is already past the end.
pub open spec fn bits_error_position(s: Seq<u8>, p: int, n: int) -> int {
    if n > 32 || p >= 8 * s.len() { p } else { (8 * s.len()) as int }
}

/// Where the scan for the zero bits of an Exp-Golomb prefix at `p`, after `zeros` of
/// them, stops: after the closing one bit, after the 32nd zero bit, or at the first
/// position past the end of the bytes.
pub open spec fn golomb_prefix_stop(s: Seq<u8>, p: int, zeros: int) -> int
    decreases 32 - zeros,
{
    if zeros < 0 || zeros > 31 || p >= 8 * s.len() {
        p
    } else if bit_at(s, p) == 1 || zeros + 1 > 31 {
        p + 1
    } else {
        golomb_prefix_stop(s, p + 1, zeros + 1)
    }
}

/// Where a failed read of an Exp-Golomb code at `p` leaves the reader.
pub open spec fn golomb_error_position(s: Seq<u8>, p: int) -> int {
    match spec_golomb_prefix(s, p, 0) {
        Err(_) => golomb_prefix_stop(s, p, 0),
        Ok((zeros, q)) => bits_error_position(s, q, zeros),
    }
}

/// A reader of the bits of `bytes`, most significant bit first.
pub struct BitReader<'a> {
    pub bytes: &'a [u8],
    pub position: u128,
}

impl<'a> BitReader<'a> {
    /// A reader at the first bit of `bytes`.
    pub fn new(bytes: &'a [u8]) -> (r: Self)
        ensures
            r.bytes@ == bytes@,
            r.position == 0,
    {
        BitReader { bytes, position: 0 }
    }

    /// Reads one bit as a boolean.
    pub fn read_bit(&mut self) -> (r: Result<bool, RtlError>)
        ensures
            final(self).bytes == old(self).bytes,
            result_is(r, spec_read_bits(old(self).bytes@, old(self).position as int, 1),
                |v: bool, w: (u32, int)| v == (w.0 != 0) && final(self).position == w.1),
            r is Err ==> final(self).position == bits_error_position(old(self).bytes@, old(self).position as int, 1),
    {
        let value = self.read_bits(1)?;
        Ok(value != 0)
    }

    /// Reads `count` bits as a number.
    pub fn read_bits(&mut self, count: usize) -> (r: Result<u32, RtlError>)
        ensures
            final(self).bytes == old(self).bytes,
            result_is(r, spec_read_bits(old(self).bytes@, old(self).position as int, count as int),
                |v: u32, w: (u32, int)| v == w.0 && final(self).position == w.1),
            r is Err ==> final(self).position == bits_error_position(old(self).bytes@, old(self).position as int, count as int),
    {
        if count > 32 {
            return Err(format_error("H.264 bit read is too wide"));
        }
        let ghost s = self.bytes@;
        let ghost start = self.position as int;
        let mut value: u64 = 0;
        let mut i: usize = 0;
        while i < count
            invariant
                i <= count <= 32,
                self.bytes@ == s,
                self.bytes == old(self).bytes,
                start == old(self).position,
                self.position == start + i,
                i > 0 ==> start + i <= 8 * s.len(),
                value == bits_value(s, start, i as nat),
            decreases count - i,
        {
            let byte_index = self.position / 8;
            if byte_index >= self.bytes.len() as u128 {
                return Err(format_error("truncated H.264 SPS"));
            }
            let byte = self.bytes[byte_index as usize];
            let k = (self.position % 8) as u8;
            let weight: u8 = if k == 0 { 128 } else if k == 1 { 64 } else if k == 2 { 32 } else if k == 3 {
                16
            } else if k == 4 { 8 } else if k == 5 { 4 } else if k == 6 { 2 } else { 1 };
            let bit = ((byte / weight) % 2) as u64;
            proof {
                lemma_bits_value_bound(s, start, i as nat);
                lemma_two_to_monotonic(i as nat, 31);
                lemma_two_to_large();
            }
            value = value * 2 + bit;
            self.position = self.position + 1;
            i = i + 1;
        }
        proof {
            lemma_bits_value_bound(s, start, count as nat);
            lemma_two_to_monotonic(count as nat, 32);
            lemma_two_to_large();
        }
        Ok(value as u32)
    }

    /// Skips `count` bits.
    pub fn skip_bits(&mut self, count: usize) -> (r: Result<(), RtlError>)
        ensures
            final(self).bytes == old(self).bytes,
            result_is(r, spec_read_bits(old(self).bytes@, old(self).position as int, count as int),
                |v: (), w: (u32, int)| final(self).position == w.1),
            r is Err ==> final(self).position == bits_error_position(old(self).bytes@, old(self).position as int, count as int),
    {
        self.read_bits(count)?;
        Ok(())
    }

    /// Reads an unsigned Exp-Golomb code.
    pub fn read_ue(&mut self) -> (r: Result<u32, RtlError>)
        ensures
            final(self).bytes == old(self).bytes,
            result_is(r, spec_read_ue(old(self).bytes@, old(self).position as int),
                |v: u32, w: (u32, int)| v == w.0 && final(self).position == w.1),
            r is Err ==> final(self).position == golomb_error_position(old(self).bytes@, old(self).position as int),
    {
        let ghost s = self.bytes@;
        let ghost start = self.position as int;
        let mut leading_zeroes: usize = 0;
        loop
            invariant_except_break
                self.bytes@ == s,
                self.bytes == old(self).bytes,
                start == old(self).position,
                leading_zeroes <= 31,
                self.position == start + leading_zeroes,
                leading_zeroes > 0 ==> self.position <= 8 * s.len(),
                spec_golomb_prefix(s, start, 0) == spec_golomb_prefix(s, self.position as int, leading_zeroes as int),
                golomb_prefix_stop(s, start, 0) == golomb_prefix_stop(s, self.position as int, leading_zeroes as int),
            ensures
                self.bytes@ == s,
                self.bytes == old(self).bytes,
                leading_zeroes <= 31,
                self.position <= 8 * s.len(),
                spec_golomb_prefix(s, start, 0) == Ok::<(int, int), ErrorView>((leading_zeroes as int, self.position as int)),
            decreases 32 - leading_zeroes,
        {
            let ghost p0 = self.position as int;
            let bit = self.read_bit()?;
            assert(bits_value(s, p0, 1) == bit_at(s, p0)) by {
                assert(bits_value(s, p0, 0) == 0);
            }
            if bit {
                break;
            }
            leading_zeroes = leading_zeroes + 1;
            if leading_zeroes > 31 {
                return Err(format_error("invalid H.264 Exp-Golomb code"));
            }
        }
        let ghost after = self.position as int;
        let suffix = self.read_bits(leading_zeroes)?;
        proof {
            lemma_bits_value_bound(s, after, leading_zeroes as nat);
            lemma_two_to_monotonic(leading_zeroes as nat, 31);
            lemma_two_to_large();
        }
        let base: u32 = if leading_zeroes == 0 { 0 } else { pow_minus_one(leading_zeroes) };
        Ok(base + suffix)
    }

    /// Reads a signed Exp-Golomb code.
    pub fn read_se(&mut self) -> (r: Result<i32, RtlError>)
        ensures
            final(self).bytes == old(self).bytes,
            result_is(r, spec_read_se(old(self).bytes@, old(self).position as int),
                |v: i32, w: (i32, int)| v == w.0 && final(self).position == w.1),
            r is Err ==> final(self).position == golomb_error_position(old(self).bytes@, old(self).position as int),
    {
        let code = self.read_ue()?;
        Ok(signed_golomb(code))
    }
}

fn pow_minus_one(n: usize) -> (r: u32)
    requires
        1 <= n <= 31,
    ensures
        r == two_to(n as nat) - 1,
{
    let mut v: u32 = 1;
    let mut i: usize = 0;
    while i < n
        invariant
            i <= n <= 31,
            v == two_to(i as nat),
        decreases n - i,
    {
        proof {
            lemma_two_to_monotonic(i as nat, 30);
            lemma_two_to_large();
        }
        v = v * 2;
        i = i + 1;
    }
    proof {
        lemma_two_to_monotonic(0, n as nat);
    }
    v - 1
}

/// The signed value of the Exp-Golomb code number `code`.
pub fn signed_golomb(code: u32) -> (v: i32)
    ensures
        v == se_of(code),
{
    if code % 2 == 0 {
        if code <= 0x7fff_ffff {
            -((code / 2) as i32)
        } else {
            ((0x1_0000_0000u64 - code as u64) / 2) as i32
        }
    } else if code < 0x8000_0000 {
        (code / 2 + 1) as i32
    } else {
        -(((0xffff_ffffu64 - code as u64) / 2) as i32)
    }
}

/// An Exp-Golomb prefix has at most 31 zero bits.
pub proof fn lemma_golomb_prefix_bound(s: Seq<u8>, p: int, zeros: int)
    ensures
        spec_golomb_prefix(s, p, zeros) matches Ok((z, q)) ==> 0 <= z <= 31 && q > p,
    decreases 32 - zeros,
{
    if 0 <= zeros <= 31 && p < 8 * s.len() && bit_at(s, p) != 1 && zeros + 1 <= 31 {
        lemma_golomb_prefix_bound(s, p + 1, zeros + 1);
    }
}

/// The largest code an Exp-Golomb `ue(v)` can hold is `u32::MAX - 1`.
pub proof fn lemma_ue_below_max(s: Seq<u8>, p: int)
    ensures
        spec_read_ue(s, p) matches Ok((v, _)) ==> v < u32::MAX,
{
    lemma_golomb_prefix_bound(s, p, 0);
    if let Ok((zeros, q)) = spec_golomb_prefix(s, p, 0) {
        lemma_bits_value_bound(s, q, zeros as nat);
        lemma_two_to_monotonic(zeros as nat, 31);
        lemma_two_to_large();
    }
}

} // verus!
