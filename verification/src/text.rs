//! Decimal and hexadecimal numbers written as text.

use vstd::prelude::*;

verus! {

/// The decimal digit `d` as text.
pub open spec fn digit_text(d: nat) -> Seq<char> {
    if d == 0 { "0"@ }
    else if d == 1 { "1"@ }
    else if d == 2 { "2"@ }
    else if d == 3 { "3"@ }
    else if d == 4 { "4"@ }
    else if d == 5 { "5"@ }
    else if d == 6 { "6"@ }
    else if d == 7 { "7"@ }
    else if d == 8 { "8"@ }
    else { "9"@ }
}

/// The hexadecimal digit `d` as lower-case text.
pub open spec fn hex_digit_text(d: nat) -> Seq<char> {
    if d < 10 { digit_text(d) }
    else if d == 10 { "a"@ }
    else if d == 11 { "b"@ }
    else if d == 12 { "c"@ }
    else if d == 13 { "d"@ }
    else if d == 14 { "e"@ }
    else { "f"@ }
}

/// `n` written in decimal without leading zeros.
pub open spec fn decimal(n: nat) -> Seq<char>
    decreases n,
{
    if n < 10 {
        digit_text(n)
    } else {
        decimal(n / 10) + digit_text(n % 10)
    }
}

/// `n` written in decimal, padded with leading zeros to at least `width` digits.
pub open spec fn decimal_padded(n: nat, width: nat) -> Seq<char>
    decreases width,
{
    if width <= 1 {
        decimal(n)
    } else if n < pow10((width - 1) as nat) {
        "0"@ + decimal_padded(n, (width - 1) as nat)
    } else {
        decimal(n)
    }
}

/// Ten to the power `k`.
pub open spec fn pow10(k: nat) -> nat
    decreases k,
{
    if k == 0 { 1 } else { 10 * pow10((k - 1) as nat) }
}

/// The byte `b` as exactly two lower-case hexadecimal digits.
pub open spec fn hex2(b: u8) -> Seq<char> {
    hex_digit_text((b / 16) as nat) + hex_digit_text((b % 16) as nat)
}

fn push_digit(s: &mut String, d: u64)
    requires
        d < 16,
    ensures
        final(s)@ == old(s)@ + hex_digit_text(d as nat),
{
    if d == 0 { s.append("0"); }
    else if d == 1 { s.append("1"); }
    else if d == 2 { s.append("2"); }
    else if d == 3 { s.append("3"); }
    else if d == 4 { s.append("4"); }
    else if d == 5 { s.append("5"); }
    else if d == 6 { s.append("6"); }
    else if d == 7 { s.append("7"); }
    else if d == 8 { s.append("8"); }
    else if d == 9 { s.append("9"); }
    else if d == 10 { s.append("a"); }
    else if d == 11 { s.append("b"); }
    else if d == 12 { s.append("c"); }
    else if d == 13 { s.append("d"); }
    else if d == 14 { s.append("e"); }
    else { s.append("f"); }
}

/// Appends `n` in decimal to `s`.
pub fn push_decimal(s: &mut String, n: u64)
    ensures
        final(s)@ == old(s)@ + decimal(n as nat),
    decreases n,
{
    if n < 10 {
        push_digit(s, n);
    } else {
        push_decimal(s, n / 10);
        push_digit(s, n % 10);
        assert(final(s)@ =~= old(s)@ + decimal(n as nat));
    }
}

/// Appends the byte `b` as two lower-case hexadecimal digits to `s`.
pub fn push_hex2(s: &mut String, b: u8)
    ensures
        final(s)@ == old(s)@ + hex2(b),
{
    push_digit(s, (b / 16) as u64);
    push_digit(s, (b % 16) as u64);
    assert(final(s)@ =~= old(s)@ + hex2(b));
}

fn pow10_exec(k: u32) -> (r: u128)
    requires
        k <= 20,
    ensures
        r == pow10(k as nat),
{
    let mut v: u128 = 1;
    let mut i: u32 = 0;
    while i < k
        invariant
            i <= k <= 20,
            v == pow10(i as nat),
            v <= 100_000_000_000_000_000_000,
        decreases k - i,
    {
        proof {
            lemma_pow10_bound(i as nat);
        }
        v = v * 10;
        i = i + 1;
    }
    v
}

proof fn lemma_pow10_bound(k: nat)
    requires
        k < 20,
    ensures
        pow10(k) <= 10_000_000_000_000_000_000,
{
    lemma_pow10_monotonic(k, 19);
    reveal_with_fuel(pow10, 20);
}

proof fn lemma_pow10_monotonic(k: nat, j: nat)
    requires
        k <= j,
    ensures
        pow10(k) <= pow10(j),
    decreases j,
{
    if k < j {
        lemma_pow10_monotonic(k, (j - 1) as nat);
    }
}

/// Appends `n` in decimal to `s`, padded with zeros to at least `width` digits.
pub fn push_decimal_padded(s: &mut String, n: u64, width: u32)
    requires
        width <= 20,
    ensures
        final(s)@ == old(s)@ + decimal_padded(n as nat, width as nat),
    decreases width,
{
    if width <= 1 {
        push_decimal(s, n);
    } else if (n as u128) < pow10_exec(width - 1) {
        s.append("0");
        push_decimal_padded(s, n, width - 1);
        assert(final(s)@ =~= old(s)@ + decimal_padded(n as nat, width as nat));
    } else {
        push_decimal(s, n);
    }
}


/// Whether `c` is a decimal digit.
pub open spec fn is_digit(c: char) -> bool {
    '0' <= c <= '9'
}

/// The number that the decimal digits `s` write, most significant first.
pub open spec fn digits_value(s: Seq<char>) -> int
    decreases s.len(),
{
    if s.len() == 0 {
        0
    } else {
        digits_value(s.drop_last()) * 10 + (s.last() as int - '0' as int)
    }
}

/// The text of digit `d` is the one character `'0' + d`.
proof fn lemma_digit_text(d: nat)
    requires
        d < 10,
    ensures
        digit_text(d).len() == 1,
        digit_text(d)[0] as int == '0' as int + d,
{
    reveal_strlit("0");
    reveal_strlit("1");
    reveal_strlit("2");
    reveal_strlit("3");
    reveal_strlit("4");
    reveal_strlit("5");
    reveal_strlit("6");
    reveal_strlit("7");
    reveal_strlit("8");
    reveal_strlit("9");
}

/// `decimal(n)` is made of decimal digits, opens with a digit other than `0` unless
/// `n` is 0, and reads back as `n`.
pub proof fn lemma_decimal_reads_back(n: nat)
    ensures
        decimal(n).len() >= 1,
        forall|i: int| 0 <= i < decimal(n).len() ==> is_digit(#[trigger] decimal(n)[i]),
        n > 0 ==> decimal(n)[0] != '0',
        digits_value(decimal(n)) == n,
    decreases n,
{
    if n < 10 {
        lemma_digit_text(n);
        let s = decimal(n);
        assert(s.drop_last() =~= Seq::<char>::empty());
        assert(digits_value(Seq::<char>::empty()) == 0);
        assert(s.last() == s[0]);
    } else {
        lemma_decimal_reads_back(n / 10);
        lemma_digit_text(n % 10);
        let head = decimal(n / 10);
        let s = head + digit_text(n % 10);
        assert(s.drop_last() =~= head);
        assert(s.last() == digit_text(n % 10)[0]);
        assert(digits_value(s) == digits_value(head) * 10 + (s.last() as int - '0' as int));
        assert forall|i: int| 0 <= i < s.len() implies is_digit(#[trigger] s[i]) by {
            if i < head.len() {
                assert(s[i] == head[i]);
            }
        }
        assert(s[0] == head[0]);
    }
}

/// Leading zeros do not change the number that digits write.
proof fn lemma_zero_prefix_value(s: Seq<char>)
    ensures
        digits_value(seq!['0'] + s) == digits_value(s),
    decreases s.len(),
{
    let z = seq!['0'] + s;
    assert(digits_value(Seq::<char>::empty()) == 0);
    if s.len() == 0 {
        assert(z.drop_last() =~= Seq::<char>::empty());
        assert(z.last() == '0');
    } else {
        lemma_zero_prefix_value(s.drop_last());
        assert(z.drop_last() =~= seq!['0'] + s.drop_last());
        assert(z.last() == s.last());
    }
}

/// `decimal_padded(n, width)` is made of decimal digits, at least `width` of them,
/// and reads back as `n`.
pub proof fn lemma_decimal_padded_reads_back(n: nat, width: nat)
    ensures
        decimal_padded(n, width).len() >= width,
        forall|i: int| 0 <= i < decimal_padded(n, width).len() ==> is_digit(#[trigger] decimal_padded(n, width)[i]),
        digits_value(decimal_padded(n, width)) == n,
    decreases width,
{
    lemma_decimal_reads_back(n);
    if width > 1 && n < pow10((width - 1) as nat) {
        lemma_decimal_padded_reads_back(n, (width - 1) as nat);
        let rest = decimal_padded(n, (width - 1) as nat);
        reveal_strlit("0");
        assert("0"@ =~= seq!['0']);
        lemma_zero_prefix_value(rest);
        let s = "0"@ + rest;
        assert forall|i: int| 0 <= i < s.len() implies is_digit(#[trigger] s[i]) by {
            if i > 0 {
                assert(s[i] == rest[i - 1]);
            }
        }
    } else if width > 1 {
        lemma_decimal_length(n, (width - 1) as nat);
    }
}

/// A number of at least `10^k` has more than `k` decimal digits.
proof fn lemma_decimal_length(n: nat, k: nat)
    requires
        n >= pow10(k),
    ensures
        decimal(n).len() >= k + 1,
    decreases n,
{
    if k > 0 {
        assert(n >= 10) by {
            lemma_pow10_monotonic(1, k);
            reveal_with_fuel(pow10, 2);
        }
        assert(n / 10 >= pow10((k - 1) as nat));
        lemma_decimal_length(n / 10, (k - 1) as nat);
        lemma_digit_text(n % 10);
    } else if n < 10 {
        lemma_digit_text(n);
    } else {
        lemma_digit_text(n % 10);
    }
}

/// The value of the hexadecimal digit `c`, lower case.
pub open spec fn hex_digit_value(c: char) -> int {
    if '0' <= c <= '9' { c as int - '0' as int } else { c as int - 'a' as int + 10 }
}

/// `hex2(b)` is two lower-case hexadecimal digits that read back as `b`.
pub proof fn lemma_hex2_reads_back(b: u8)
    ensures
        hex2(b).len() == 2,
        forall|i: int| 0 <= i < 2 ==> ('0' <= #[trigger] hex2(b)[i] <= '9' || 'a' <= hex2(b)[i] <= 'f'),
        hex_digit_value(hex2(b)[0]) * 16 + hex_digit_value(hex2(b)[1]) == b,
{
    reveal_strlit("a");
    reveal_strlit("b");
    reveal_strlit("c");
    reveal_strlit("d");
    reveal_strlit("e");
    reveal_strlit("f");
    if b / 16 < 10 {
        lemma_digit_text((b / 16) as nat);
    }
    if b % 16 < 10 {
        lemma_digit_text((b % 16) as nat);
    }
    let s = hex2(b);
    assert(s[0] == hex_digit_text((b / 16) as nat)[0]);
    assert(s[1] == hex_digit_text((b % 16) as nat)[0]);
}

} // verus!
