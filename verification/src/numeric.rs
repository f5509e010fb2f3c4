//! The per-width encoders and the `ToStr` impls of the integer types.
//!
//! Each writer puts digits into the destination back to front, immediately
//! before a caller-chosen cursor, and returns the offset of the first digit
//! written.  Every writer's contract says that the bytes between the returned
//! offset and the cursor are exactly the digit sequence of the value, and
//! that nothing else moved.

use vstd::prelude::*;

verus! {

use crate::ToStr;
use crate::ascii_tail_to_str;
use vstd::string::StringSliceAdditionalSpecFns;
use vstd::arithmetic::power2::pow2;
use crate::digits::ascii_chars;
use crate::digits::dec_digits;
use crate::digits::dec_pair_bytes;
use crate::digits::lemma_dec_digits_push_pair;
use crate::digits::lemma_dec_digits_range;
use crate::digits::lemma_dec_len_ge;
use crate::digits::lemma_dec_len_le;
use crate::digits::lemma_pow10_values;
use crate::digits::pow10;
use crate::digits::hex_digits;

/// Writes the decimal digits of `num` into `buffer` immediately before
/// `cursor`, back to front, and returns the offset of the first digit.
pub fn write_u8_to_buf(num: u8, buffer: &mut [u8], cursor: usize) -> (r: usize)
    requires
        cursor <= old(buffer)@.len(),
        dec_digits(num as nat).len() <= cursor,
    ensures
        r + dec_digits(num as nat).len() == cursor,
        final(buffer)@ == old(buffer)@.take(r as int) + dec_digits(num as nat) + old(
            buffer,
        )@.skip(cursor as int),
{
    proof {
        lemma_pow10_values();
        lemma_dec_digits_range(num as nat);
    }
    if num >= 100 {
        proof {
            lemma_dec_len_ge(num as nat, 2);
            lemma_dec_digits_push_pair((num / 100) as nat, (num % 100) as nat);
            assert(dec_digits((num / 100) as nat) =~= seq![(48 + num / 100) as u8]);
        }
        let rem: u8 = num % 100;
        buffer[cursor - 3] = 48 + num / 100;
        buffer[cursor - 2] = 48 + rem / 10;
        buffer[cursor - 1] = 48 + rem % 10;
        proof {
            assert(buffer@ =~= old(buffer)@.take(cursor - 3) + dec_digits(num as nat)
                + old(buffer)@.skip(cursor as int));
        }
        cursor - 3
    } else if num <= 9 {
        buffer[cursor - 1] = 48 + num;
        proof {
            assert(buffer@ =~= old(buffer)@.take(cursor - 1) + dec_digits(num as nat)
                + old(buffer)@.skip(cursor as int));
        }
        cursor - 1
    } else {
        proof {
            lemma_dec_len_ge(num as nat, 1);
            crate::digits::lemma_dec_digits_two(num as nat);
        }
        buffer[cursor - 2] = 48 + num / 10;
        buffer[cursor - 1] = 48 + num % 10;
        proof {
            assert(buffer@ =~= old(buffer)@.take(cursor - 2) + dec_digits(num as nat)
                + old(buffer)@.skip(cursor as int));
        }
        cursor - 2
    }
}

/// Writes the decimal digits of `num` into `buffer` immediately before
/// `cursor`, four digits per iteration while the value is large, and returns
/// the offset of the first digit.
#[verifier::loop_isolation(false)]
#[verifier::rlimit(60)]
pub fn write_u64_to_buf(num: u64, buffer: &mut [u8], cursor: usize) -> (r: usize)
    requires
        cursor <= old(buffer)@.len(),
        dec_digits(num as nat).len() <= cursor,
    ensures
        r + dec_digits(num as nat).len() == cursor,
        final(buffer)@ == old(buffer)@.take(r as int) + dec_digits(num as nat) + old(
            buffer,
        )@.skip(cursor as int),
{
    let ghost num0: nat = num as nat;
    let mut num: u64 = num;
    let mut cur: usize = cursor;
    proof {
        lemma_pow10_values();
        assert(dec_digits(num0) =~= dec_digits(num as nat) + buffer@.subrange(
            cur as int,
            cursor as int,
        ));
    }
    while num >= 10000
        invariant
            cur <= cursor,
            buffer@.len() == old(buffer)@.len(),
            dec_digits(num as nat).len() <= cur,
            dec_digits(num0) == dec_digits(num as nat) + buffer@.subrange(
                cur as int,
                cursor as int,
            ),
            buffer@.take(cur as int) == old(buffer)@.take(cur as int),
            buffer@.skip(cursor as int) == old(buffer)@.skip(cursor as int),
        decreases num,
    {
        proof {
            crate::digits::lemma_dec_digits_chunk4(num as nat);
            lemma_dec_len_ge((num / 10000) as nat, 0);
        }
        let ghost prev: Seq<u8> = buffer@;
        let ghost written: Seq<u8> = buffer@.subrange(cur as int, cursor as int);
        let ghost chunk: Seq<u8> = dec_pair_bytes(((num % 10000) / 100) as nat) + dec_pair_bytes(
            ((num % 10000) % 100) as nat,
        );
        let rem: u64 = num % 10000;
        num = num / 10000;
        let idx1: u64 = rem / 100;
        let idx2: u64 = rem % 100;
        buffer[cur - 4] = (48 + idx1 / 10) as u8;
        buffer[cur - 3] = (48 + idx1 % 10) as u8;
        buffer[cur - 2] = (48 + idx2 / 10) as u8;
        buffer[cur - 1] = (48 + idx2 % 10) as u8;
        cur = cur - 4;
        proof {
            assert(buffer@.subrange(cur as int, cursor as int) =~= chunk + written);
            assert(dec_digits(num0) =~= dec_digits(num as nat) + buffer@.subrange(
                cur as int,
                cursor as int,
            ));
            assert(buffer@.take(cur as int) =~= prev.take(cur as int));
            assert(buffer@.skip(cursor as int) =~= prev.skip(cursor as int));
        }
    }
    if num >= 100 {
        proof {
            lemma_dec_digits_push_pair((num / 100) as nat, (num % 100) as nat);
            lemma_dec_len_ge((num / 100) as nat, 0);
        }
        let ghost prev: Seq<u8> = buffer@;
        let ghost written: Seq<u8> = buffer@.subrange(cur as int, cursor as int);
        let rem: u64 = num % 100;
        let ghost pair: Seq<u8> = dec_pair_bytes(rem as nat);
        num = num / 100;
        buffer[cur - 2] = (48 + rem / 10) as u8;
        buffer[cur - 1] = (48 + rem % 10) as u8;
        cur = cur - 2;
        proof {
            assert(buffer@.subrange(cur as int, cursor as int) =~= pair + written);
            assert(dec_digits(num0) =~= dec_digits(num as nat) + buffer@.subrange(
                cur as int,
                cursor as int,
            ));
            assert(buffer@.take(cur as int) =~= prev.take(cur as int));
            assert(buffer@.skip(cursor as int) =~= prev.skip(cursor as int));
        }
    }
    let ghost prev: Seq<u8> = buffer@;
    let ghost written: Seq<u8> = buffer@.subrange(cur as int, cursor as int);
    if num < 10 {
        buffer[cur - 1] = 48 + num as u8;
        cur = cur - 1;
        proof {
            assert(buffer@.subrange(cur as int, cursor as int) =~= dec_digits(num as nat)
                + written);
        }
    } else {
        proof {
            crate::digits::lemma_dec_digits_two(num as nat);
        }
        buffer[cur - 2] = (48 + num / 10) as u8;
        buffer[cur - 1] = (48 + num % 10) as u8;
        cur = cur - 2;
        proof {
            assert(buffer@.subrange(cur as int, cursor as int) =~= dec_digits(num as nat)
                + written);
        }
    }
    proof {
        assert(dec_digits(num0) =~= buffer@.subrange(cur as int, cursor as int));
        assert(buffer@ =~= old(buffer)@.take(cur as int) + dec_digits(num0) + old(
            buffer,
        )@.skip(cursor as int));
    }
    cur
}

/// The high 128 bits of the 256-bit product of `x` and `y`, computed from
/// 64-bit halves so that no multiplication overflows.
#[verifier::rlimit(100)]
fn u128_mulhi(x: u128, y: u128) -> (r: u128)
    ensures
        r == (x * y) / 0x100000000000000000000000000000000int,
{
    let x_lo: u128 = x % 0x10000000000000000;
    let x_hi: u128 = x / 0x10000000000000000;
    let y_lo: u128 = y % 0x10000000000000000;
    let y_hi: u128 = y / 0x10000000000000000;
    proof {
        let b: int = 0x10000000000000000;
        vstd::arithmetic::div_mod::lemma_multiply_divide_lt(x as int, b, b);
        vstd::arithmetic::div_mod::lemma_multiply_divide_lt(y as int, b, b);
        assert(x_lo * y_lo <= (b - 1) * (b - 1)) by (nonlinear_arith)
            requires
                0 <= x_lo <= b - 1 && 0 <= y_lo <= b - 1;
        assert(x_lo * y_hi <= (b - 1) * (b - 1)) by (nonlinear_arith)
            requires
                0 <= x_lo <= b - 1 && 0 <= y_hi <= b - 1;
        assert(x_hi * y_lo <= (b - 1) * (b - 1)) by (nonlinear_arith)
            requires
                0 <= x_hi <= b - 1 && 0 <= y_lo <= b - 1;
        assert(x_hi * y_hi <= (b - 1) * (b - 1)) by (nonlinear_arith)
            requires
                0 <= x_hi <= b - 1 && 0 <= y_hi <= b - 1;
    }
    let carry: u128 = (x_lo * y_lo) / 0x10000000000000000;
    let m: u128 = x_lo * y_hi + carry;
    let high1: u128 = m / 0x10000000000000000;
    let m_lo: u128 = m % 0x10000000000000000;
    let high2: u128 = (x_hi * y_lo + m_lo) / 0x10000000000000000;
    proof {
        let b: int = 0x10000000000000000;
        vstd::arithmetic::div_mod::lemma_multiply_divide_lt(m as int, b, b);
        vstd::arithmetic::div_mod::lemma_multiply_divide_lt((x_hi * y_lo + m_lo) as int, b, b);
    }
    let r: u128 = x_hi * y_hi + high1 + high2;
    proof {
        let b: int = 0x10000000000000000;
        let bb: int = 0x100000000000000000000000000000000int;
        let p: int = (x_lo * y_lo) as int;
        let s: int = p % b;
        let u: int = (x_hi * y_lo + m_lo) as int;
        let t: int = u % b;
        vstd::arithmetic::div_mod::lemma_fundamental_div_mod(x as int, b);
        vstd::arithmetic::div_mod::lemma_fundamental_div_mod(y as int, b);
        vstd::arithmetic::div_mod::lemma_fundamental_div_mod(p, b);
        vstd::arithmetic::div_mod::lemma_fundamental_div_mod(m as int, b);
        vstd::arithmetic::div_mod::lemma_fundamental_div_mod(u, b);
        vstd::arithmetic::div_mod::lemma_mod_bound(p, b);
        vstd::arithmetic::div_mod::lemma_mod_bound(u, b);
        let xt: int = b * x_hi + x_lo;
        let yt: int = b * y_hi + y_lo;
        assert(x * y == xt * yt) by (nonlinear_arith)
            requires
                x == xt && y == yt;
        vstd::arithmetic::mul::lemma_mul_is_distributive_add_other_way(yt, b * x_hi, x_lo as int);
        vstd::arithmetic::mul::lemma_mul_is_distributive_add(b * x_hi, b * y_hi, y_lo as int);
        vstd::arithmetic::mul::lemma_mul_is_distributive_add(x_lo as int, b * y_hi, y_lo as int);
        assert((b * x_hi) * (b * y_hi) == bb * (x_hi * y_hi)) by (nonlinear_arith)
            requires
                bb == b * b;
        assert((b * x_hi) * y_lo == b * (x_hi * y_lo)) by (nonlinear_arith);
        assert(x_lo * (b * y_hi) == b * (x_lo * y_hi)) by (nonlinear_arith);
        assert(x * y == bb * (x_hi * y_hi) + b * (x_hi * y_lo) + b * (x_lo * y_hi) + p);
        assert(b * (x_lo * y_hi) + p == b * m + s) by (nonlinear_arith)
            requires
                p == b * carry + s,
                m == x_lo * y_hi + carry;
        assert(b * m == bb * high1 + b * m_lo) by (nonlinear_arith)
            requires
                m == b * high1 + m_lo,
                bb == b * b;
        assert(b * (x_hi * y_lo) + b * m_lo == b * u) by (nonlinear_arith)
            requires
                u == x_hi * y_lo + m_lo;
        assert(b * u == bb * high2 + b * t) by (nonlinear_arith)
            requires
                u == b * high2 + t,
                bb == b * b;
        assert(bb * (x_hi * y_hi) + bb * high1 + bb * high2 == bb * r) by (nonlinear_arith)
            requires
                r == x_hi * y_hi + high1 + high2;
        assert(x * y == bb * r + (t * b + s));
        assert(0 <= t * b + s < bb) by (nonlinear_arith)
            requires
                0 <= t < b && 0 <= s < b && bb == b * b;
        vstd::arithmetic::div_mod::lemma_fundamental_div_mod_converse(
            (x * y) as int,
            bb,
            r as int,
            t * b + s,
        );
    }
    r
}

/// Dividing any 128-bit value by `10^19` agrees with multiplying by the
/// precomputed reciprocal and dropping the low 190 bits.  The reciprocal is
/// the 128-bit constant rounded up from `2^190 / 10^19`; rounding up leaves
/// it short of the true quotient by less than one part in `2^128`, which the
/// bound on the quotient absorbs.
proof fn lemma_reciprocal_1e19(n: int)
    requires
        0 <= n < 0x100000000000000000000000000000000int,
    ensures
        (n * 156927543384667019095894735580191660403)
            / 1569275433846670190958947355801916604025588861116008628224int == n
            / 10000000000000000000,
{
    let c: int = 156927543384667019095894735580191660403;
    let d: int = 10000000000000000000;
    let t: int = 1569275433846670190958947355801916604025588861116008628224int;
    let eps: int = 4411138883991371776;
    let qmax: int = 34028236692093846346;
    assert(d * c == t + eps);
    let q: int = n / d;
    let r: int = n % d;
    vstd::arithmetic::div_mod::lemma_fundamental_div_mod(n, d);
    vstd::arithmetic::div_mod::lemma_mod_bound(n, d);
    vstd::arithmetic::div_mod::lemma_div_pos_is_pos(n, d);
    assert(q <= qmax) by {
        vstd::arithmetic::div_mod::lemma_fundamental_div_mod_converse(
            0xffffffffffffffffffffffffffffffffint,
            d,
            qmax,
            3374607431768211455,
        );
        vstd::arithmetic::div_mod::lemma_div_is_ordered(
            n,
            0xffffffffffffffffffffffffffffffffint,
            d,
        );
    }
    assert(n * c == q * t + (q * eps + r * c)) by (nonlinear_arith)
        requires
            n == d * q + r && d * c == t + eps;
    assert(0 <= q * eps + r * c) by (nonlinear_arith)
        requires
            0 <= q && 0 <= eps && 0 <= r && 0 <= c;
    assert(q * eps + r * c <= qmax * eps + (d - 1) * c) by (nonlinear_arith)
        requires
            0 <= q <= qmax && 0 <= eps && 0 <= r <= d - 1 && 0 <= c;
    assert(qmax * eps + (d - 1) * c < t);
    vstd::arithmetic::div_mod::lemma_fundamental_div_mod_converse(
        n * c,
        t,
        q,
        q * eps + r * c,
    );
}

/// Replaces `num` with `num / 10^19` and returns `num % 10^19`, dividing by
/// the constant through its reciprocal rather than a native 128-bit divide.
pub fn udivmod_1e19(num: &mut u128) -> (r: u64)
    ensures
        *final(num) == *old(num) / 10000000000000000000,
        r == *old(num) % 10000000000000000000,
{
    let n: u128 = *num;
    let quot: u128;
    if n < 0x800000000000000000000 {
        proof {
            vstd::arithmetic::power2::lemma2_to64();
            vstd::bits::lemma_u128_shr_is_div(n, 19);
            assert(0x800000000000000000000 == 0x80000int * 0x10000000000000000);
            vstd::arithmetic::div_mod::lemma_multiply_divide_lt(
                n as int,
                0x80000,
                0x10000000000000000,
            );
            vstd::arithmetic::div_mod::lemma_div_denominator(n as int, 0x80000, 19073486328125);
            assert(0x80000int * 19073486328125 == 10000000000000000000);
        }
        quot = (((n >> 19u128) as u64) / 19073486328125) as u128;
        proof {
            assert((n >> 19u128) == n as nat / pow2(19));
            assert(pow2(19) == 0x80000);
            assert((n >> 19u128) as u64 == n as int / 0x80000);
            assert(quot == (n as int / 0x80000) / 19073486328125);
            assert(quot == n as int / (0x80000int * 19073486328125));
            assert(0x80000int * 19073486328125 == 10000000000000000000int);
            assert(quot == n as int / 10000000000000000000int);
            assert(quot == n / 10000000000000000000);
        }
    } else {
        let hi: u128 = u128_mulhi(n, 156927543384667019095894735580191660403);
        quot = hi >> 62u128;
        proof {
            vstd::arithmetic::power2::lemma2_to64();
            vstd::arithmetic::power2::lemma2_to64_rest();
            vstd::bits::lemma_u128_shr_is_div(hi, 62);
            vstd::arithmetic::div_mod::lemma_div_denominator(
                (n * 156927543384667019095894735580191660403) as int,
                0x100000000000000000000000000000000int,
                0x4000000000000000,
            );
            assert(0x100000000000000000000000000000000int * 0x4000000000000000
                == 1569275433846670190958947355801916604025588861116008628224int);
            lemma_reciprocal_1e19(n as int);
            assert(quot == hi as int / 0x4000000000000000);
            assert(hi == (n * 156927543384667019095894735580191660403) as int
                / 0x100000000000000000000000000000000int);
            assert(quot == (n * 156927543384667019095894735580191660403) as int / (
            0x100000000000000000000000000000000int * 0x4000000000000000));
            assert(quot == (n * 156927543384667019095894735580191660403) as int
                / 1569275433846670190958947355801916604025588861116008628224int);
            assert(quot == n as int / 10000000000000000000int);
            assert(quot == n / 10000000000000000000);
        }
    }
    proof {
        vstd::arithmetic::div_mod::lemma_fundamental_div_mod(n as int, 10000000000000000000);
        vstd::arithmetic::div_mod::lemma_mod_bound(n as int, 10000000000000000000);
        assert(quot * 10000000000000000000 <= n);
    }
    let rem: u64 = (n - quot * 10000000000000000000) as u64;
    *num = quot;
    rem
}

/// Fills `buffer` with ASCII `'0'` bytes from `from` up to `to`, the padding
/// of a decimal group shorter than its 19 places.
#[verifier::loop_isolation(false)]
fn fill_zero(buffer: &mut [u8], from: usize, to: usize)
    requires
        from <= to <= old(buffer)@.len(),
    ensures
        final(buffer)@ == old(buffer)@.take(from as int) + crate::digits::zero_bytes(
            (to - from) as nat,
        ) + old(buffer)@.skip(to as int),
{
    let mut i: usize = from;
    while i < to
        invariant
            from <= i <= to,
            buffer@.len() == old(buffer)@.len(),
            forall|j: int| 0 <= j < from ==> buffer@[j] == old(buffer)@[j],
            forall|j: int| i <= j < buffer@.len() ==> buffer@[j] == old(buffer)@[j],
            forall|j: int| from <= j < i ==> buffer@[j] == 48u8,
        decreases to - i,
    {
        buffer[i] = 48;
        i = i + 1;
    }
    proof {
        assert(buffer@ =~= old(buffer)@.take(from as int) + crate::digits::zero_bytes(
            (to - from) as nat,
        ) + old(buffer)@.skip(to as int));
    }
}

/// Splicing a further group `next`, with the padding `pad` before the group
/// `first`, into an already spliced buffer yields one larger splice.
proof fn lemma_splice_left(
    base: Seq<u8>,
    cursor: int,
    first: Seq<u8>,
    pad: Seq<u8>,
    next: Seq<u8>,
    state1: Seq<u8>,
    state2: Seq<u8>,
    state3: Seq<u8>,
)
    requires
        0 <= cursor - first.len() - pad.len() - next.len(),
        cursor <= base.len(),
        state1 == base.take(cursor - first.len()) + first + base.skip(cursor),
        state2 == state1.take(cursor - first.len() - pad.len()) + pad + state1.skip(
            cursor - first.len(),
        ),
        state3 == state2.take(cursor - first.len() - pad.len() - next.len()) + next + state2.skip(
            cursor - first.len() - pad.len(),
        ),
    ensures
        state3 == base.take(cursor - first.len() - pad.len() - next.len()) + (next + pad + first)
            + base.skip(cursor),
{
    assert(state3 =~= base.take(cursor - first.len() - pad.len() - next.len()) + (next + pad
        + first) + base.skip(cursor));
}

/// Writes the decimal digits of `num` into `buffer` immediately before
/// `cursor` as up to three 19-digit groups, the inner ones zero-padded, and
/// returns the offset of the first digit.
#[verifier::rlimit(60)]
pub fn write_u128_to_buf(num: u128, buffer: &mut [u8], cursor: usize) -> (r: usize)
    requires
        cursor <= old(buffer)@.len(),
        dec_digits(num as nat).len() <= cursor,
    ensures
        r + dec_digits(num as nat).len() == cursor,
        final(buffer)@ == old(buffer)@.take(r as int) + dec_digits(num as nat) + old(
            buffer,
        )@.skip(cursor as int),
{
    let ghost num0: nat = num as nat;
    let mut num: u128 = num;
    let r0: u64 = udivmod_1e19(&mut num);
    proof {
        lemma_pow10_values();
        lemma_dec_len_le(r0 as nat, 19);
        if num != 0 {
            crate::digits::lemma_dec_digits_group((num0 / pow10(19)) as nat, r0 as nat, 19);
        }
    }
    let written: usize = write_u64_to_buf(r0, buffer, cursor);
    if num != 0 {
        let ghost q1: nat = num as nat;
        let ghost state1: Seq<u8> = buffer@;
        let ghost r0d: Seq<u8> = dec_digits(r0 as nat);
        let ghost pad1: Seq<u8> = crate::digits::zero_bytes((19 - r0d.len()) as nat);
        let target: usize = cursor - 19;
        fill_zero(buffer, target, written);
        let ghost state2: Seq<u8> = buffer@;
        let r1: u64 = udivmod_1e19(&mut num);
        proof {
            lemma_dec_len_le(r1 as nat, 19);
            if num != 0 {
                crate::digits::lemma_dec_digits_group((q1 / pow10(19)) as nat, r1 as nat, 19);
            } else {
                assert(r1 == q1);
            }
            assert(dec_digits(q1).len() + 19 == dec_digits(num0).len());
        }
        let written2: usize = write_u64_to_buf(r1, buffer, target);
        let ghost r1d: Seq<u8> = dec_digits(r1 as nat);
        proof {
            lemma_splice_left(
                old(buffer)@,
                cursor as int,
                r0d,
                pad1,
                r1d,
                state1,
                state2,
                buffer@,
            );
        }
        if num != 0 {
            let ghost m: Seq<u8> = r1d + pad1 + r0d;
            let ghost state3: Seq<u8> = buffer@;
            let ghost h: nat = num as nat;
            let ghost pad2: Seq<u8> = crate::digits::zero_bytes((19 - r1d.len()) as nat);
            let target2: usize = target - 19;
            fill_zero(buffer, target2, written2);
            let ghost state4: Seq<u8> = buffer@;
            proof {
                assert(h == (num0 / pow10(19)) / pow10(19));
                assert((0xffffffffffffffffffffffffffffffffint / 10000000000000000000)
                    / 10000000000000000000 == 3);
                vstd::arithmetic::div_mod::lemma_div_is_ordered(
                    num0 as int,
                    0xffffffffffffffffffffffffffffffffint,
                    10000000000000000000,
                );
                vstd::arithmetic::div_mod::lemma_div_is_ordered(
                    (num0 / pow10(19)) as int,
                    0xffffffffffffffffffffffffffffffffint / 10000000000000000000,
                    10000000000000000000,
                );
                assert(h <= 3);
                assert(dec_digits(h) =~= seq![(48 + h) as u8]);
            }
            buffer[target2 - 1] = 48 + num as u8;
            proof {
                let digit: Seq<u8> = seq![(48 + h) as u8];
                assert(buffer@ =~= state4.take(target2 - 1) + digit + state4.skip(target2 as int));
                lemma_splice_left(
                    old(buffer)@,
                    cursor as int,
                    m,
                    pad2,
                    digit,
                    state3,
                    state4,
                    buffer@,
                );
                assert(dec_digits(num0) =~= digit + pad2 + m);
            }
            target2 - 1
        } else {
            proof {
                assert(dec_digits(num0) =~= r1d + pad1 + r0d);
            }
            written2
        }
    } else {
        proof {
            assert(r0 == num0);
        }
        written
    }
}

/// Writes the hexadecimal digits of `num` into `buffer` immediately before
/// `cursor`, one nibble per character from the least significant on, and
/// returns the offset of the first digit.  The loop runs at least once, so
/// the value zero still yields its single `'0'`.
pub fn write_hex_to_buf(num: usize, buffer: &mut [u8], cursor: usize) -> (r: usize)
    requires
        cursor <= old(buffer)@.len(),
        hex_digits(num as nat).len() <= cursor,
    ensures
        r + hex_digits(num as nat).len() == cursor,
        final(buffer)@ == old(buffer)@.take(r as int) + hex_digits(num as nat) + old(
            buffer,
        )@.skip(cursor as int),
{
    let ghost num0: nat = num as nat;
    let mut num: usize = num;
    let mut cur: usize = cursor;
    proof {
        crate::digits::lemma_hex_digits_range(num0);
    }
    loop
        invariant_except_break
            cur <= cursor <= buffer@.len(),
            hex_digits(num0).len() <= cursor,
            buffer@.len() == old(buffer)@.len(),
            forall|j: int| 0 <= j < cur ==> buffer@[j] == old(buffer)@[j],
            forall|j: int| cursor <= j < buffer@.len() ==> buffer@[j] == old(buffer)@[j],
            (cur == cursor && num == num0) || (1 <= num && hex_digits(num0) == hex_digits(
                num as nat,
            ) + buffer@.subrange(cur as int, cursor as int) && hex_digits(num as nat).len()
                <= cur),
        ensures
            cur + hex_digits(num0).len() == cursor,
            cursor <= buffer@.len(),
            buffer@.len() == old(buffer)@.len(),
            buffer@.subrange(cur as int, cursor as int) == hex_digits(num0),
            forall|j: int| 0 <= j < cur ==> buffer@[j] == old(buffer)@[j],
            forall|j: int| cursor <= j < buffer@.len() ==> buffer@[j] == old(buffer)@[j],
        decreases num,
    {
        let ghost entry_num: nat = num as nat;
        let digit: usize = num % 16;
        let byte: u8 = if digit < 10 {
            (48 + digit) as u8
        } else {
            (87 + digit) as u8
        };
        proof {
            assert(byte == crate::digits::hex_digit_byte((entry_num % 16) as nat));
            assert(hex_digits(entry_num).len() >= 1) by {
                crate::digits::lemma_hex_digits_range(entry_num);
            }
        }
        cur = cur - 1;
        buffer[cur] = byte;
        num = num / 16;
        proof {
            if entry_num < 16 {
                assert(hex_digits(entry_num) =~= seq![byte]);
            }
            if num >= 1 {
                assert(hex_digits(entry_num) == hex_digits(num as nat).push(byte));
                assert(hex_digits(num0) =~= hex_digits(num as nat) + buffer@.subrange(
                    cur as int,
                    cursor as int,
                ));
            } else {
                assert(entry_num < 16);
                assert(hex_digits(num0) =~= buffer@.subrange(cur as int, cursor as int));
            }
        }
        if num == 0 {
            break;
        }
    }
    proof {
        assert(buffer@ =~= old(buffer)@.take(cur as int) + hex_digits(num0) + old(
            buffer,
        )@.skip(cursor as int));
    }
    cur
}

/// Writes a machine address into `buffer` immediately before `cursor`: its
/// hexadecimal digits, preceded by the fixed `"0x"` prefix.
pub fn write_ptr_to_buf(num: usize, buffer: &mut [u8], cursor: usize) -> (r: usize)
    requires
        cursor <= old(buffer)@.len(),
        hex_digits(num as nat).len() + 2 <= cursor,
    ensures
        r + crate::digits::addr_text(num as nat).len() == cursor,
        final(buffer)@ == old(buffer)@.take(r as int) + crate::digits::addr_text(num as nat)
            + old(buffer)@.skip(cursor as int),
{
    let start: usize = write_hex_to_buf(num, buffer, cursor);
    let ghost mid: Seq<u8> = buffer@;
    buffer[start - 2] = 48;
    buffer[start - 1] = 120;
    proof {
        assert(buffer@ =~= old(buffer)@.take(start - 2) + crate::digits::addr_text(num as nat)
            + old(buffer)@.skip(cursor as int));
    }
    start - 2
}

/// Writes the decimal form of `num` into the tail of `buffer` and returns it
/// as text.
fn dec_u64_to_str<'a>(num: u64, buffer: &'a mut [u8]) -> (r: &'a str)
    requires
        dec_digits(num as nat).len() <= old(buffer)@.len(),
    ensures
        final(buffer)@ == old(buffer)@.take(
            old(buffer)@.len() - dec_digits(num as nat).len(),
        ) + dec_digits(num as nat),
        r@ == ascii_chars(dec_digits(num as nat)),
        r.spec_bytes() == dec_digits(num as nat),
{
    let len: usize = buffer.len();
    proof {
        lemma_dec_digits_range(num as nat);
    }
    let start: usize = write_u64_to_buf(num, buffer, len);
    proof {
        assert(buffer@ =~= old(buffer)@.take(len - dec_digits(num as nat).len()) + dec_digits(
            num as nat,
        ));
        assert(buffer@.skip(start as int) =~= dec_digits(num as nat));
    }
    ascii_tail_to_str(buffer, start)
}

/// Writes the decimal form of `num` into the tail of `buffer` and returns it
/// as text.
fn dec_u128_to_str<'a>(num: u128, buffer: &'a mut [u8]) -> (r: &'a str)
    requires
        dec_digits(num as nat).len() <= old(buffer)@.len(),
    ensures
        final(buffer)@ == old(buffer)@.take(
            old(buffer)@.len() - dec_digits(num as nat).len(),
        ) + dec_digits(num as nat),
        r@ == ascii_chars(dec_digits(num as nat)),
        r.spec_bytes() == dec_digits(num as nat),
{
    let len: usize = buffer.len();
    proof {
        lemma_dec_digits_range(num as nat);
    }
    let start: usize = write_u128_to_buf(num, buffer, len);
    proof {
        assert(buffer@ =~= old(buffer)@.take(len - dec_digits(num as nat).len()) + dec_digits(
            num as nat,
        ));
        assert(buffer@.skip(start as int) =~= dec_digits(num as nat));
    }
    ascii_tail_to_str(buffer, start)
}

/// Writes an optional `'-'` and the decimal form of the magnitude `mag` into
/// the tail of `buffer` and returns the written text.
fn signed_dec_to_str<'a>(negative: bool, mag: u64, buffer: &'a mut [u8]) -> (r: &'a str)
    requires
        dec_digits(mag as nat).len() + (if negative { 1int } else { 0int }) <= old(
            buffer,
        )@.len(),
    ensures
        ({
            let text = if negative {
                seq![45u8] + dec_digits(mag as nat)
            } else {
                dec_digits(mag as nat)
            };
            final(buffer)@ == old(buffer)@.take(old(buffer)@.len() - text.len()) + text && r@
                == ascii_chars(text) && r.spec_bytes() == text
        }),
{
    let len: usize = buffer.len();
    proof {
        lemma_dec_digits_range(mag as nat);
    }
    let start: usize = write_u64_to_buf(mag, buffer, len);
    if negative {
        buffer[start - 1] = 45;
        proof {
            let text = seq![45u8] + dec_digits(mag as nat);
            assert(buffer@ =~= old(buffer)@.take(len - text.len()) + text);
            assert(buffer@.skip(start - 1) =~= text);
        }
        ascii_tail_to_str(buffer, start - 1)
    } else {
        proof {
            assert(buffer@ =~= old(buffer)@.take(len - dec_digits(mag as nat).len())
                + dec_digits(mag as nat));
            assert(buffer@.skip(start as int) =~= dec_digits(mag as nat));
        }
        ascii_tail_to_str(buffer, start)
    }
}

/// Writes an optional `'-'` and the decimal form of the 128-bit magnitude
/// `mag` into the tail of `buffer` and returns the written text.
fn signed_dec128_to_str<'a>(negative: bool, mag: u128, buffer: &'a mut [u8]) -> (r: &'a str)
    requires
        dec_digits(mag as nat).len() + (if negative { 1int } else { 0int }) <= old(
            buffer,
        )@.len(),
    ensures
        ({
            let text = if negative {
                seq![45u8] + dec_digits(mag as nat)
            } else {
                dec_digits(mag as nat)
            };
            final(buffer)@ == old(buffer)@.take(old(buffer)@.len() - text.len()) + text && r@
                == ascii_chars(text) && r.spec_bytes() == text
        }),
{
    let len: usize = buffer.len();
    proof {
        lemma_dec_digits_range(mag as nat);
    }
    let start: usize = write_u128_to_buf(mag, buffer, len);
    if negative {
        buffer[start - 1] = 45;
        proof {
            let text = seq![45u8] + dec_digits(mag as nat);
            assert(buffer@ =~= old(buffer)@.take(len - text.len()) + text);
            assert(buffer@.skip(start - 1) =~= text);
        }
        ascii_tail_to_str(buffer, start - 1)
    } else {
        proof {
            assert(buffer@ =~= old(buffer)@.take(len - dec_digits(mag as nat).len())
                + dec_digits(mag as nat));
            assert(buffer@.skip(start as int) =~= dec_digits(mag as nat));
        }
        ascii_tail_to_str(buffer, start)
    }
}

impl ToStr for u16 {
    open spec fn text(&self) -> Seq<u8> {
        dec_digits(*self as nat)
    }

    open spec fn spec_text_size() -> nat {
        5
    }

    proof fn lemma_text_size(&self) {
        lemma_pow10_values();
        lemma_dec_len_le(*self as nat, 5);
        lemma_dec_digits_range(*self as nat);
    }

    fn text_size() -> (n: usize) {
        5
    }

    fn to_str<'a>(&self, buffer: &'a mut [u8]) -> (r: &'a str) {
        proof {
            lemma_pow10_values();
            lemma_dec_len_le(*self as nat, 5);
        }
        dec_u64_to_str(*self as u64, buffer)
    }
}

impl ToStr for u32 {
    open spec fn text(&self) -> Seq<u8> {
        dec_digits(*self as nat)
    }

    open spec fn spec_text_size() -> nat {
        10
    }

    proof fn lemma_text_size(&self) {
        lemma_pow10_values();
        lemma_dec_len_le(*self as nat, 10);
        lemma_dec_digits_range(*self as nat);
    }

    fn text_size() -> (n: usize) {
        10
    }

    fn to_str<'a>(&self, buffer: &'a mut [u8]) -> (r: &'a str) {
        proof {
            lemma_pow10_values();
            lemma_dec_len_le(*self as nat, 10);
        }
        dec_u64_to_str(*self as u64, buffer)
    }
}

impl ToStr for u64 {
    open spec fn text(&self) -> Seq<u8> {
        dec_digits(*self as nat)
    }

    open spec fn spec_text_size() -> nat {
        20
    }

    proof fn lemma_text_size(&self) {
        lemma_pow10_values();
        lemma_dec_len_le(*self as nat, 20);
        lemma_dec_digits_range(*self as nat);
    }

    fn text_size() -> (n: usize) {
        20
    }

    fn to_str<'a>(&self, buffer: &'a mut [u8]) -> (r: &'a str) {
        proof {
            lemma_pow10_values();
            lemma_dec_len_le(*self as nat, 20);
        }
        dec_u64_to_str(*self, buffer)
    }
}

impl ToStr for usize {
    open spec fn text(&self) -> Seq<u8> {
        dec_digits(*self as nat)
    }

    open spec fn spec_text_size() -> nat {
        20
    }

    proof fn lemma_text_size(&self) {
        lemma_pow10_values();
        lemma_dec_len_le(*self as nat, 20);
        lemma_dec_digits_range(*self as nat);
    }

    fn text_size() -> (n: usize) {
        20
    }

    fn to_str<'a>(&self, buffer: &'a mut [u8]) -> (r: &'a str) {
        proof {
            lemma_pow10_values();
            lemma_dec_len_le(*self as nat, 20);
        }
        dec_u64_to_str(*self as u64, buffer)
    }
}

impl ToStr for u8 {
    open spec fn text(&self) -> Seq<u8> {
        dec_digits(*self as nat)
    }

    open spec fn spec_text_size() -> nat {
        3
    }

    proof fn lemma_text_size(&self) {
        lemma_pow10_values();
        lemma_dec_len_le(*self as nat, 3);
        lemma_dec_digits_range(*self as nat);
    }

    fn text_size() -> (n: usize) {
        3
    }

    fn to_str<'a>(&self, buffer: &'a mut [u8]) -> (r: &'a str) {
        let len: usize = buffer.len();
        proof {
            lemma_pow10_values();
            lemma_dec_len_le(*self as nat, 3);
            lemma_dec_digits_range(*self as nat);
        }
        let start: usize = write_u8_to_buf(*self, buffer, len);
        proof {
            assert(buffer@ =~= old(buffer)@.take(len - dec_digits(*self as nat).len())
                + dec_digits(*self as nat));
            assert(buffer@.skip(start as int) =~= dec_digits(*self as nat));
        }
        ascii_tail_to_str(buffer, start)
    }
}

impl ToStr for u128 {
    open spec fn text(&self) -> Seq<u8> {
        dec_digits(*self as nat)
    }

    open spec fn spec_text_size() -> nat {
        39
    }

    proof fn lemma_text_size(&self) {
        lemma_pow10_values();
        lemma_dec_len_le(*self as nat, 39);
        lemma_dec_digits_range(*self as nat);
    }

    fn text_size() -> (n: usize) {
        39
    }

    fn to_str<'a>(&self, buffer: &'a mut [u8]) -> (r: &'a str) {
        proof {
            lemma_pow10_values();
            lemma_dec_len_le(*self as nat, 39);
        }
        dec_u128_to_str(*self, buffer)
    }
}

impl ToStr for i8 {
    open spec fn text(&self) -> Seq<u8> {
        crate::digits::signed_text(*self as int)
    }

    open spec fn spec_text_size() -> nat {
        4
    }

    proof fn lemma_text_size(&self) {
        lemma_pow10_values();
        if *self < 0 {
            lemma_dec_len_le((-(*self as int)) as nat, 3);
            lemma_dec_digits_range((-(*self as int)) as nat);
        } else {
            lemma_dec_len_le(*self as nat, 3);
            lemma_dec_digits_range(*self as nat);
        }
    }

    fn text_size() -> (n: usize) {
        4
    }

    fn to_str<'a>(&self, buffer: &'a mut [u8]) -> (r: &'a str) {
        let negative: bool = *self < 0;
        let mag: u64 = if negative {
            (-(*self as i16)) as u64
        } else {
            *self as u64
        };
        proof {
            lemma_pow10_values();
            lemma_dec_len_le(mag as nat, 3);
        }
        signed_dec_to_str(negative, mag, buffer)
    }
}

impl ToStr for i16 {
    open spec fn text(&self) -> Seq<u8> {
        crate::digits::signed_text(*self as int)
    }

    open spec fn spec_text_size() -> nat {
        6
    }

    proof fn lemma_text_size(&self) {
        lemma_pow10_values();
        if *self < 0 {
            lemma_dec_len_le((-(*self as int)) as nat, 5);
            lemma_dec_digits_range((-(*self as int)) as nat);
        } else {
            lemma_dec_len_le(*self as nat, 5);
            lemma_dec_digits_range(*self as nat);
        }
    }

    fn text_size() -> (n: usize) {
        6
    }

    fn to_str<'a>(&self, buffer: &'a mut [u8]) -> (r: &'a str) {
        let negative: bool = *self < 0;
        let mag: u64 = if negative {
            (-(*self as i32)) as u64
        } else {
            *self as u64
        };
        proof {
            lemma_pow10_values();
            lemma_dec_len_le(mag as nat, 5);
        }
        signed_dec_to_str(negative, mag, buffer)
    }
}

impl ToStr for i32 {
    open spec fn text(&self) -> Seq<u8> {
        crate::digits::signed_text(*self as int)
    }

    open spec fn spec_text_size() -> nat {
        11
    }

    proof fn lemma_text_size(&self) {
        lemma_pow10_values();
        if *self < 0 {
            lemma_dec_len_le((-(*self as int)) as nat, 10);
            lemma_dec_digits_range((-(*self as int)) as nat);
        } else {
            lemma_dec_len_le(*self as nat, 10);
            lemma_dec_digits_range(*self as nat);
        }
    }

    fn text_size() -> (n: usize) {
        11
    }

    fn to_str<'a>(&self, buffer: &'a mut [u8]) -> (r: &'a str) {
        let negative: bool = *self < 0;
        let mag: u64 = if negative {
            (-(*self as i64)) as u64
        } else {
            *self as u64
        };
        proof {
            lemma_pow10_values();
            lemma_dec_len_le(mag as nat, 10);
        }
        signed_dec_to_str(negative, mag, buffer)
    }
}

impl ToStr for i64 {
    open spec fn text(&self) -> Seq<u8> {
        crate::digits::signed_text(*self as int)
    }

    open spec fn spec_text_size() -> nat {
        21
    }

    proof fn lemma_text_size(&self) {
        lemma_pow10_values();
        if *self < 0 {
            lemma_dec_len_le((-(*self as int)) as nat, 20);
            lemma_dec_digits_range((-(*self as int)) as nat);
        } else {
            lemma_dec_len_le(*self as nat, 20);
            lemma_dec_digits_range(*self as nat);
        }
    }

    fn text_size() -> (n: usize) {
        21
    }

    fn to_str<'a>(&self, buffer: &'a mut [u8]) -> (r: &'a str) {
        let negative: bool = *self < 0;
        let mag: u64 = if negative {
            (-(*self as i128)) as u64
        } else {
            *self as u64
        };
        proof {
            lemma_pow10_values();
            lemma_dec_len_le(mag as nat, 20);
        }
        signed_dec_to_str(negative, mag, buffer)
    }
}

impl ToStr for isize {
    open spec fn text(&self) -> Seq<u8> {
        crate::digits::signed_text(*self as int)
    }

    open spec fn spec_text_size() -> nat {
        21
    }

    proof fn lemma_text_size(&self) {
        lemma_pow10_values();
        if *self < 0 {
            lemma_dec_len_le((-(*self as int)) as nat, 20);
            lemma_dec_digits_range((-(*self as int)) as nat);
        } else {
            lemma_dec_len_le(*self as nat, 20);
            lemma_dec_digits_range(*self as nat);
        }
    }

    fn text_size() -> (n: usize) {
        21
    }

    fn to_str<'a>(&self, buffer: &'a mut [u8]) -> (r: &'a str) {
        let negative: bool = *self < 0;
        let mag: u64 = if negative {
            (-(*self as i128)) as u64
        } else {
            *self as u64
        };
        proof {
            lemma_pow10_values();
            lemma_dec_len_le(mag as nat, 20);
        }
        signed_dec_to_str(negative, mag, buffer)
    }
}

impl ToStr for i128 {
    open spec fn text(&self) -> Seq<u8> {
        crate::digits::signed_text(*self as int)
    }

    open spec fn spec_text_size() -> nat {
        40
    }

    proof fn lemma_text_size(&self) {
        lemma_pow10_values();
        if *self < 0 {
            lemma_dec_len_le((-(*self as int)) as nat, 39);
            lemma_dec_digits_range((-(*self as int)) as nat);
        } else {
            lemma_dec_len_le(*self as nat, 39);
            lemma_dec_digits_range(*self as nat);
        }
    }

    fn text_size() -> (n: usize) {
        40
    }

    fn to_str<'a>(&self, buffer: &'a mut [u8]) -> (r: &'a str) {
        let negative: bool = *self < 0;
        let mag: u128 = if negative {
            (-(*self + 1)) as u128 + 1
        } else {
            *self as u128
        };
        proof {
            lemma_pow10_values();
            lemma_dec_len_le(mag as nat, 39);
        }
        signed_dec128_to_str(negative, mag, buffer)
    }
}

/// A machine address, carried as the address-sized unsigned integer.
pub struct Address {
    /// The address value.
    pub value: usize,
}

impl Address {
    /// Wraps an address value.
    pub fn new(value: usize) -> (r: Address)
        ensures
            r.value == value,
    {
        Address { value }
    }
}

impl ToStr for Address {
    open spec fn text(&self) -> Seq<u8> {
        crate::digits::addr_text(self.value as nat)
    }

    open spec fn spec_text_size() -> nat {
        22
    }

    proof fn lemma_text_size(&self) {
        crate::digits::lemma_pow16_values();
        crate::digits::lemma_hex_len_le(self.value as nat, 16);
        crate::digits::lemma_hex_digits_range(self.value as nat);
    }

    fn text_size() -> (n: usize) {
        22
    }

    fn to_str<'a>(&self, buffer: &'a mut [u8]) -> (r: &'a str) {
        let len: usize = buffer.len();
        proof {
            crate::digits::lemma_pow16_values();
            crate::digits::lemma_hex_len_le(self.value as nat, 16);
            crate::digits::lemma_hex_digits_range(self.value as nat);
        }
        let start: usize = write_ptr_to_buf(self.value, buffer, len);
        proof {
            let text = crate::digits::addr_text(self.value as nat);
            assert(buffer@ =~= old(buffer)@.take(len - text.len()) + text);
            assert(buffer@.skip(start as int) =~= text);
        }
        ascii_tail_to_str(buffer, start)
    }
}

} // verus!
