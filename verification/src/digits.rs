//! The mathematical model of a textual number.
//!
//! `dec_digits` and `hex_digits` give, for every natural number, the exact
//! byte sequence of its decimal and hexadecimal form; `dec_val` and `hex_val`
//! read such a sequence back.  Everything the encoders promise is stated in
//! terms of these functions, and the lemmas here supply the facts the
//! encoders' proofs need: lengths, digit ranges, round trips, and how the
//! digits of `q * 10^k + r` decompose into groups.

use vstd::prelude::*;

verus! {

/// The decimal digit bytes of `v`, most significant first.
pub open spec fn dec_digits(v: nat) -> Seq<u8>
    decreases v,
{
    if v < 10 {
        seq![(48 + v) as u8]
    } else {
        dec_digits(v / 10).push((48 + v % 10) as u8)
    }
}

/// The byte of a single hexadecimal digit: `0`-`9`, then lower-case `a`-`f`.
pub open spec fn hex_digit_byte(d: nat) -> u8 {
    if d < 10 {
        (48 + d) as u8
    } else {
        (87 + d) as u8
    }
}

/// The hexadecimal digit bytes of `v`, most significant first.
pub open spec fn hex_digits(v: nat) -> Seq<u8>
    decreases v,
{
    if v < 16 {
        seq![hex_digit_byte(v)]
    } else {
        hex_digits(v / 16).push(hex_digit_byte(v % 16))
    }
}

/// The number a decimal digit byte sequence denotes.
pub open spec fn dec_val(s: Seq<u8>) -> nat
    decreases s.len(),
{
    if s.len() == 0 {
        0
    } else {
        (dec_val(s.drop_last()) * 10 + (s.last() - 48)) as nat
    }
}

/// The number a hexadecimal digit byte sequence denotes.
pub open spec fn hex_val(s: Seq<u8>) -> nat
    decreases s.len(),
{
    if s.len() == 0 {
        0
    } else if s.last() < 58 {
        (hex_val(s.drop_last()) * 16 + (s.last() - 48)) as nat
    } else {
        (hex_val(s.drop_last()) * 16 + (s.last() - 87)) as nat
    }
}

/// `n` ASCII `'0'` bytes, the padding of a short digit group.
pub open spec fn zero_bytes(n: nat) -> Seq<u8> {
    Seq::new(n, |i: int| 48u8)
}

/// `10^k`.
pub open spec fn pow10(k: nat) -> nat
    decreases k,
{
    if k == 0 {
        1
    } else {
        10 * pow10((k - 1) as nat)
    }
}

/// `16^k`.
pub open spec fn pow16(k: nat) -> nat
    decreases k,
{
    if k == 0 {
        1
    } else {
        16 * pow16((k - 1) as nat)
    }
}

/// The textual form of a signed value: a `'-'` and the magnitude's digits
/// when negative, the plain digits otherwise.
pub open spec fn signed_text(v: int) -> Seq<u8> {
    if v < 0 {
        seq![45u8] + dec_digits((-v) as nat)
    } else {
        dec_digits(v as nat)
    }
}

/// The textual form of a machine address: `"0x"` and the hexadecimal digits.
pub open spec fn addr_text(v: nat) -> Seq<u8> {
    seq![48u8, 120u8] + hex_digits(v)
}

/// The characters a byte sequence of ASCII text decodes to, one per byte.
pub open spec fn ascii_chars(s: Seq<u8>) -> Seq<char> {
    Seq::new(s.len(), |i: int| s[i] as char)
}

/// The two digit bytes of a number below one hundred.
pub open spec fn dec_pair_bytes(x: nat) -> Seq<u8> {
    seq![(48 + x / 10) as u8, (48 + x % 10) as u8]
}

/// Every decimal form is non-empty and consists of the bytes `'0'`-`'9'`.
pub proof fn lemma_dec_digits_range(v: nat)
    ensures
        dec_digits(v).len() >= 1,
        forall|i: int| 0 <= i < dec_digits(v).len() ==> 48 <= #[trigger] dec_digits(v)[i] <= 57,
    decreases v,
{
    if v >= 10 {
        lemma_dec_digits_range(v / 10);
    }
}

/// Every hexadecimal form is non-empty and consists of the bytes
/// `'0'`-`'9'` and `'a'`-`'f'`.
pub proof fn lemma_hex_digits_range(v: nat)
    ensures
        hex_digits(v).len() >= 1,
        forall|i: int| 0 <= i < hex_digits(v).len() ==> (48 <= #[trigger] hex_digits(v)[i] <= 57
            || 97 <= hex_digits(v)[i] <= 102),
    decreases v,
{
    if v >= 16 {
        lemma_hex_digits_range(v / 16);
    }
}

/// Appending a final digit `d` to a non-zero number `v` appends its byte.
pub proof fn lemma_dec_digits_push(v: nat, d: nat)
    requires
        1 <= v,
        d < 10,
    ensures
        dec_digits(v * 10 + d) == dec_digits(v).push((48 + d) as u8),
{
    let n = v * 10 + d;
    assert(v * 10 + d >= 10) by (nonlinear_arith)
        requires 1 <= v && 0 <= d;
    assert(n / 10 == v && n % 10 == d) by {
        vstd::arithmetic::div_mod::lemma_fundamental_div_mod_converse(n as int, 10, v as int, d as int);
    }
}

/// A number below `10^k` has at most `k` decimal digits.
pub proof fn lemma_dec_len_le(v: nat, k: nat)
    requires
        1 <= k,
        v < pow10(k),
    ensures
        dec_digits(v).len() <= k,
    decreases k,
{
    if v >= 10 {
        assert(v / 10 < pow10((k - 1) as nat)) by {
            assert(pow10(k) == 10 * pow10((k - 1) as nat));
            assert(v / 10 < pow10((k - 1) as nat)) by (nonlinear_arith)
                requires v < 10 * pow10((k - 1) as nat) && pow10((k - 1) as nat) >= 0;
        }
        assert(k >= 2) by {
            if k == 1 {
                assert(pow10(1) == 10);
            }
        }
        lemma_dec_len_le(v / 10, (k - 1) as nat);
    }
}

/// A number at least `10^k` has more than `k` decimal digits.
pub proof fn lemma_dec_len_ge(v: nat, k: nat)
    requires
        pow10(k) <= v,
    ensures
        dec_digits(v).len() >= k + 1,
    decreases k,
{
    if k >= 1 {
        assert(pow10(k) == 10 * pow10((k - 1) as nat));
        assert(pow10((k - 1) as nat) >= 1) by { lemma_pow10_pos((k - 1) as nat); }
        assert(v >= 10);
        assert(v / 10 >= pow10((k - 1) as nat)) by (nonlinear_arith)
            requires v >= 10 * pow10((k - 1) as nat) && pow10((k - 1) as nat) >= 1;
        lemma_dec_len_ge(v / 10, (k - 1) as nat);
    }
}

/// A number below `16^k` has at most `k` hexadecimal digits.
pub proof fn lemma_hex_len_le(v: nat, k: nat)
    requires
        1 <= k,
        v < pow16(k),
    ensures
        hex_digits(v).len() <= k,
    decreases k,
{
    if v >= 16 {
        assert(pow16(k) == 16 * pow16((k - 1) as nat));
        assert(v / 16 < pow16((k - 1) as nat)) by (nonlinear_arith)
            requires
                v < 16 * pow16((k - 1) as nat) && pow16((k - 1) as nat) >= 0;
        assert(k >= 2) by {
            if k == 1 {
                assert(pow16(1) == 16);
            }
        }
        lemma_hex_len_le(v / 16, (k - 1) as nat);
    }
}

/// `16^k` is positive.
pub proof fn lemma_pow16_pos(k: nat)
    ensures
        pow16(k) >= 1,
    decreases k,
{
    if k > 0 {
        lemma_pow16_pos((k - 1) as nat);
    }
}

/// The values of `16^k` the address encoder's proofs refer to.
pub proof fn lemma_pow16_values()
    ensures
        pow16(8) == 0x100000000,
        pow16(15) == 0x1000000000000000,
        pow16(16) == 0x10000000000000000,
{
    reveal_with_fuel(pow16, 17);
}

/// `10^k` is positive.
pub proof fn lemma_pow10_pos(k: nat)
    ensures
        pow10(k) >= 1,
    decreases k,
{
    if k > 0 {
        lemma_pow10_pos((k - 1) as nat);
    }
}

/// The values of `10^k` the encoders' proofs refer to.
pub proof fn lemma_pow10_values()
    ensures
        pow10(2) == 100,
        pow10(3) == 1000,
        pow10(4) == 10000,
        pow10(5) == 100000,
        pow10(9) == 1000000000,
        pow10(10) == 10000000000,
        pow10(18) == 1000000000000000000,
        pow10(19) == 10000000000000000000,
        pow10(20) == 100000000000000000000,
        pow10(38) == 100000000000000000000000000000000000000,
        pow10(39) == 1000000000000000000000000000000000000000,
{
    reveal_with_fuel(pow10, 40);
}

/// Reading the decimal form of `v` back yields `v`.
pub proof fn lemma_dec_round_trip(v: nat)
    ensures
        dec_val(dec_digits(v)) == v,
    decreases v,
{
    if v < 10 {
        let s = dec_digits(v);
        assert(s.drop_last() =~= Seq::<u8>::empty());
        assert(dec_val(Seq::<u8>::empty()) == 0);
    } else {
        lemma_dec_round_trip(v / 10);
        let s = dec_digits(v);
        let prefix = dec_digits(v / 10);
        assert(s.drop_last() =~= prefix);
        assert(dec_val(s) == (v / 10) * 10 + v % 10);
        assert((v / 10) * 10 + v % 10 == v) by {
            vstd::arithmetic::div_mod::lemma_fundamental_div_mod(v as int, 10);
        }
    }
}

/// Reading the hexadecimal form of `v` back yields `v`.
pub proof fn lemma_hex_round_trip(v: nat)
    ensures
        hex_val(hex_digits(v)) == v,
    decreases v,
{
    if v < 16 {
        let s = hex_digits(v);
        assert(s.drop_last() =~= Seq::<u8>::empty());
        assert(hex_val(Seq::<u8>::empty()) == 0);
    } else {
        lemma_hex_round_trip(v / 16);
        let s = hex_digits(v);
        let prefix = hex_digits(v / 16);
        assert(s.drop_last() =~= prefix);
        assert(hex_val(s) == (v / 16) * 16 + v % 16);
        assert((v / 16) * 16 + v % 16 == v) by {
            vstd::arithmetic::div_mod::lemma_fundamental_div_mod(v as int, 16);
        }
    }
}

/// A number of two digits reads as its digit pair.
pub proof fn lemma_dec_digits_two(v: nat)
    requires
        10 <= v < 100,
    ensures
        dec_digits(v) == dec_pair_bytes(v),
{
    lemma_dec_digits_push(v / 10, v % 10);
    assert(v == (v / 10) * 10 + v % 10) by {
        vstd::arithmetic::div_mod::lemma_fundamental_div_mod(v as int, 10);
    }
    assert(dec_digits(v) =~= dec_pair_bytes(v));
}

/// Appending two final digits `x` to a non-zero number `v` appends its pair.
pub proof fn lemma_dec_digits_push_pair(v: nat, x: nat)
    requires
        1 <= v,
        x < 100,
    ensures
        dec_digits(v * 100 + x) == dec_digits(v) + dec_pair_bytes(x),
{
    let t = v * 10 + x / 10;
    assert(x == (x / 10) * 10 + x % 10) by {
        vstd::arithmetic::div_mod::lemma_fundamental_div_mod(x as int, 10);
    }
    assert(v * 100 + x == t * 10 + x % 10) by (nonlinear_arith)
        requires x == (x / 10) * 10 + x % 10 && t == v * 10 + x / 10;
    lemma_dec_digits_push(v, x / 10);
    lemma_dec_digits_push(t, x % 10);
    assert(dec_digits(v).push((48 + x / 10) as u8).push((48 + x % 10) as u8) =~= dec_digits(v)
        + dec_pair_bytes(x));
}

/// One step of the four-digits-per-iteration loop: the digits of `n` are the
/// digits of `n / 10000` followed by the two digit pairs of `n % 10000`.
pub proof fn lemma_dec_digits_chunk4(n: nat)
    requires
        10000 <= n,
    ensures
        dec_digits(n) == dec_digits(n / 10000) + dec_pair_bytes((n % 10000) / 100)
            + dec_pair_bytes((n % 10000) % 100),
{
    let q = n / 10000;
    let m = n % 10000;
    assert(n == q * 10000 + m && m < 10000 && q >= 1) by {
        vstd::arithmetic::div_mod::lemma_fundamental_div_mod(n as int, 10000);
        vstd::arithmetic::div_mod::lemma_mod_bound(n as int, 10000);
    }
    assert(m == (m / 100) * 100 + m % 100) by {
        vstd::arithmetic::div_mod::lemma_fundamental_div_mod(m as int, 100);
    }
    let mid = q * 100 + m / 100;
    assert(n == mid * 100 + m % 100) by (nonlinear_arith)
        requires
            n == q * 10000 + m && m == (m / 100) * 100 + m % 100 && mid == q * 100 + m / 100;
    lemma_dec_digits_push_pair(mid, m % 100);
    lemma_dec_digits_push_pair(q, m / 100);
    assert(dec_digits(n) =~= dec_digits(q) + dec_pair_bytes(m / 100) + dec_pair_bytes(m % 100));
}

/// The digits of `q * 10^k + r` are the digits of `q`, then the digits of
/// `r` left-padded with `'0'` bytes to exactly `k` places.
pub proof fn lemma_dec_digits_group(q: nat, r: nat, k: nat)
    requires
        1 <= q,
        1 <= k,
        r < pow10(k),
    ensures
        dec_digits(r).len() <= k,
        dec_digits(q * pow10(k) + r) == dec_digits(q) + zero_bytes(
            (k - dec_digits(r).len()) as nat,
        ) + dec_digits(r),
    decreases k,
{
    lemma_dec_len_le(r, k);
    if k == 1 {
        lemma_dec_digits_push(q, r);
        assert(dec_digits(q).push((48 + r) as u8) =~= dec_digits(q) + zero_bytes(0)
            + dec_digits(r));
    } else {
        let n = q * pow10(k) + r;
        let p = pow10((k - 1) as nat);
        assert(pow10(k) == 10 * p);
        lemma_pow10_pos((k - 1) as nat);
        assert(r == (r / 10) * 10 + r % 10 && r % 10 < 10) by {
            vstd::arithmetic::div_mod::lemma_fundamental_div_mod(r as int, 10);
            vstd::arithmetic::div_mod::lemma_mod_bound(r as int, 10);
        }
        assert(n == (q * p + r / 10) * 10 + r % 10) by (nonlinear_arith)
            requires
                n == q * (10 * p) + r && r == (r / 10) * 10 + r % 10;
        assert(r / 10 < p) by (nonlinear_arith)
            requires
                r < 10 * p && r == (r / 10) * 10 + r % 10 && r % 10 < 10 && p >= 1;
        assert(q * p + r / 10 >= 1) by (nonlinear_arith)
            requires
                q >= 1 && p >= 1 && r / 10 >= 0;
        assert(n >= 10) by (nonlinear_arith)
            requires
                n == (q * p + r / 10) * 10 + r % 10 && q * p + r / 10 >= 1;
        assert(n / 10 == q * p + r / 10 && n % 10 == r % 10) by {
            vstd::arithmetic::div_mod::lemma_fundamental_div_mod_converse(
                n as int,
                10,
                (q * p + r / 10) as int,
                (r % 10) as int,
            );
        }
        lemma_dec_digits_group(q, r / 10, (k - 1) as nat);
        let lead = dec_digits(q);
        let inner = zero_bytes(((k - 1) - dec_digits(r / 10).len()) as nat) + dec_digits(r / 10);
        assert(dec_digits(n) == (lead + inner).push((48 + r % 10) as u8));
        if r < 10 {
            assert(dec_digits(r / 10) =~= seq![48u8]);
            assert(inner.push((48 + r % 10) as u8) =~= zero_bytes((k - 1) as nat)
                + dec_digits(r));
            assert((lead + inner).push((48 + r % 10) as u8) =~= lead + zero_bytes(
                (k - dec_digits(r).len()) as nat,
            ) + dec_digits(r));
        } else {
            assert(dec_digits(r) == dec_digits(r / 10).push((48 + r % 10) as u8));
            assert((lead + inner).push((48 + r % 10) as u8) =~= lead + zero_bytes(
                (k - dec_digits(r).len()) as nat,
            ) + dec_digits(r));
        }
    }
}

/// No decimal form starts with `'0'`, except the single digit of zero itself.
pub proof fn lemma_dec_no_leading_zero(v: nat)
    requires
        1 <= v,
    ensures
        dec_digits(v)[0] != 48,
    decreases v,
{
    if v < 10 {
    } else {
        lemma_dec_digits_range(v / 10);
        lemma_dec_no_leading_zero(v / 10);
    }
}

/// Two numbers with the same decimal form are equal: each value has exactly
/// one textual representation and each representation one value.
pub proof fn lemma_dec_digits_injective(a: nat, b: nat)
    requires
        dec_digits(a) == dec_digits(b),
    ensures
        a == b,
{
    lemma_dec_round_trip(a);
    lemma_dec_round_trip(b);
}

/// Two numbers with the same hexadecimal form are equal.
pub proof fn lemma_hex_digits_injective(a: nat, b: nat)
    requires
        hex_digits(a) == hex_digits(b),
    ensures
        a == b,
{
    lemma_hex_round_trip(a);
    lemma_hex_round_trip(b);
}

/// The text of a negative value is `'-'` followed by the digits of its
/// magnitude, and those digits never start with `'0'`.
pub proof fn lemma_signed_text_negative(v: int)
    requires
        v < 0,
    ensures
        signed_text(v) == seq![45u8] + dec_digits((-v) as nat),
        signed_text(v)[0] == 45,
        dec_digits((-v) as nat)[0] != 48,
{
    lemma_dec_no_leading_zero((-v) as nat);
}

/// The text of an address is the two bytes `"0x"` and then the hexadecimal
/// digits, which never start with `'0'` unless the address is zero.
pub proof fn lemma_addr_text_form(v: nat)
    ensures
        addr_text(v).len() == 2 + hex_digits(v).len(),
        addr_text(v)[0] == 48,
        addr_text(v)[1] == 120,
        1 <= v ==> addr_text(v)[2] != 48,
{
    if 1 <= v {
        lemma_hex_no_leading_zero(v);
        lemma_hex_digits_range(v);
    }
}

/// The decimal form of the extreme value of each width fills that width's
/// declared text size exactly, with one exception: the magnitude of the
/// 64-bit signed minimum has a digit fewer than the largest unsigned 64-bit
/// value, so its text stays one byte under the declared size.
pub proof fn lemma_text_size_extremes()
    ensures
        dec_digits(0xffnat).len() == 3,
        dec_digits(0xffffnat).len() == 5,
        dec_digits(0xffffffffnat).len() == 10,
        dec_digits(0xffffffffffffffffnat).len() == 20,
        dec_digits(0xffffffffffffffffffffffffffffffffnat).len() == 39,
        signed_text(-0x80).len() == 4,
        signed_text(-0x8000).len() == 6,
        signed_text(-0x80000000).len() == 11,
        signed_text(-0x8000000000000000).len() == 20,
        signed_text(-0x80000000000000000000000000000000).len() == 40,
{
    lemma_pow10_values();
    lemma_dec_len_le(0xffnat, 3);
    lemma_dec_len_ge(0xffnat, 2);
    lemma_dec_len_le(0xffffnat, 5);
    lemma_dec_len_ge(0xffffnat, 4);
    lemma_dec_len_le(0xffffffffnat, 10);
    lemma_dec_len_ge(0xffffffffnat, 9);
    lemma_dec_len_le(0xffffffffffffffffnat, 20);
    lemma_dec_len_ge(0xffffffffffffffffnat, 19);
    lemma_dec_len_le(0xffffffffffffffffffffffffffffffffnat, 39);
    lemma_dec_len_ge(0xffffffffffffffffffffffffffffffffnat, 38);
    lemma_dec_len_le(0x80nat, 3);
    lemma_dec_len_ge(0x80nat, 2);
    lemma_dec_len_le(0x8000nat, 5);
    lemma_dec_len_ge(0x8000nat, 4);
    lemma_dec_len_le(0x80000000nat, 10);
    lemma_dec_len_ge(0x80000000nat, 9);
    lemma_dec_len_le(0x8000000000000000nat, 19);
    lemma_dec_len_ge(0x8000000000000000nat, 18);
    lemma_dec_len_le(0x80000000000000000000000000000000nat, 39);
    lemma_dec_len_ge(0x80000000000000000000000000000000nat, 38);
}

/// No hexadecimal form starts with `'0'`, except the single digit of zero.
pub proof fn lemma_hex_no_leading_zero(v: nat)
    requires
        1 <= v,
    ensures
        hex_digits(v)[0] != 48,
    decreases v,
{
    if v < 16 {
    } else {
        lemma_hex_digits_range(v / 16);
        lemma_hex_no_leading_zero(v / 16);
    }
}

} // verus!
