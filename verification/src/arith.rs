//! The arithmetic, comparison and bitwise instructions on words.

use vstd::prelude::*;
use vstd::arithmetic::div_mod::*;
use vstd::arithmetic::power2::*;
use vstd::arithmetic::mul::*;
use crate::word::{
    Word, word_of, bool_word, word_modulus, sign_threshold, lemma_word_of_intro,
    lemma_value_bound,
};
use crate::bytes::lemma_pow2_256;
use crate::bigint::{
    Wide, word_add, word_sub, word_mul, word_div, word_rem, word_pow, word_shl, word_shr,
    word_to_be, wide_add, wide_mul, wide_rem,
};
use crate::semantics::{
    binary_op, ternary_op, unary_op, is_binary, magnitude, negated, sdiv, smod, signextend,
    byte_of, shl, shr, sar,
};

verus! {

/// A word whose value is `n`, a number below 2^256, is `word_of(n)`.
proof fn lemma_word_of_small(r: Word, n: nat)
    requires
        n < word_modulus(),
        r.value() == n,
    ensures
        r == word_of(n),
{
    lemma_small_mod(n, word_modulus());
    lemma_word_of_intro(r, n);
}

/// The word 1 or 0.
fn from_bool(b: bool) -> (r: Word)
    ensures
        r == bool_word(b),
{
    if b {
        Word::one()
    } else {
        Word::zero()
    }
}

/// Two's complement negation: `!x + 1`, wrapping.
fn negate(x: Word) -> (r: Word)
    ensures
        r.value() == (word_modulus() - x.value()) as nat % word_modulus(),
{
    let n = x.not();
    let one = Word::one();
    word_add(n, one)
}

/// The magnitude of a word read in two's complement.
fn abs(a: Word) -> (r: Word)
    ensures
        r.value() == magnitude(a),
{
    if a.is_negative() {
        let r = negate(a);
        proof {
            lemma_small_mod((word_modulus() - a.value()) as nat, word_modulus());
        }
        r
    } else {
        a
    }
}

/// SDIV.
fn exec_sdiv(a: Word, b: Word) -> (r: Word)
    ensures
        r == sdiv(a, b),
{
    if b.is_zero() {
        return Word::zero();
    }
    let a_neg = a.is_negative();
    let b_neg = b.is_negative();
    let a_abs = abs(a);
    let b_abs = abs(b);
    let q = word_div(a_abs, b_abs);
    proof {
        lemma_value_bound(a_abs);
        lemma_div_is_ordered_by_denominator(a_abs.value() as int, 1, b_abs.value() as int);
    }
    if q.is_zero() {
        Word::zero()
    } else if a_neg != b_neg {
        let r = negate(q);
        proof {
            lemma_word_of_intro(r, (word_modulus() - q.value()) as nat);
        }
        r
    } else {
        proof {
            lemma_word_of_small(q, q.value());
        }
        q
    }
}

/// SMOD.
fn exec_smod(a: Word, b: Word) -> (r: Word)
    ensures
        r == smod(a, b),
{
    if b.is_zero() {
        return Word::zero();
    }
    let a_neg = a.is_negative();
    let a_abs = abs(a);
    let b_abs = abs(b);
    let m = word_rem(a_abs, b_abs);
    proof {
        lemma_value_bound(m);
    }
    if a_neg {
        let r = negate(m);
        proof {
            lemma_word_of_intro(r, (word_modulus() - m.value()) as nat);
        }
        r
    } else {
        proof {
            lemma_word_of_small(m, m.value());
        }
        m
    }
}

/// Bit 0 of a word: its value modulo 2.
fn low_bit(w: Word) -> (r: bool)
    ensures
        r == (w.value() % 2 == 1),
{
    let b = w.low_byte();
    assert(b & 1 == b % 2) by (bit_vector);
    proof {
        lemma_mod_mod(w.value() as int, 2, 128);
    }
    b & 1 == 1
}

/// SIGNEXTEND.
fn exec_signextend(k: Word, x: Word) -> (r: Option<Word>)
    ensures
        r == signextend(k, x),
{
    let limit = Word::from_u64(32);
    if !k.lt(&limit) {
        return None;
    }
    let kk = k.to_usize();
    let bits: usize = 8 * (kk + 1);
    let ghost p = pow2(bits as nat);
    let ghost xv = x.value();
    proof {
        lemma_pow2_pos(bits as nat);
        lemma_pow2_256();
        lemma_value_bound(x);
        lemma_fundamental_div_mod(xv as int, p as int);
        lemma_mod_bound(xv as int, p as int);
        lemma_div_pos_is_pos(xv as int, p as int);
    }
    let hi = word_shr(x, bits);
    let hs = word_shl(hi, bits);
    proof {
        lemma_mul_is_commutative((xv / p) as int, p as int);
        lemma_small_mod((xv / p * p) as nat, word_modulus());
    }
    let low = word_sub(x, hs);
    proof {
        lemma_small_mod(xv % p, word_modulus());
        assert((xv + word_modulus() - hs.value()) as nat == xv % p + word_modulus());
        lemma_mod_add_multiples_vanish((xv % p) as int, word_modulus() as int);
    }
    assert(low.value() == xv % p);
    let sign_word = word_shr(x, bits - 1);
    let sign = low_bit(sign_word);
    if sign {
        let one = Word::one();
        let mask = word_shl(one, bits);
        let zero = Word::zero();
        let ext = word_sub(zero, mask);
        let r = word_add(low, ext);
        proof {
            if bits < 256 {
                lemma_pow2_strictly_increases(bits as nat, 256);
                lemma_small_mod(p, word_modulus());
                lemma_small_mod((word_modulus() - p) as nat, word_modulus());
                lemma_small_mod((xv % p + word_modulus() - p) as nat, word_modulus());
            } else {
                lemma_mod_self_0(word_modulus() as int);
                lemma_small_mod(0, word_modulus());
                lemma_small_mod(xv % p, word_modulus());
            }
            lemma_word_of_intro(r, (xv % p + word_modulus() - p) as nat);
        }
        Some(r)
    } else {
        proof {
            lemma_word_of_small(low, xv % p);
        }
        Some(low)
    }
}

/// BYTE.
fn exec_byte(i: Word, x: Word) -> (r: Word)
    ensures
        r == byte_of(i, x),
{
    if !i.lt(&Word::from_u64(32)) {
        return Word::zero();
    }
    let iu = i.to_usize();
    let bytes = word_to_be(x);
    Word::from_u64(bytes[iu] as u64)
}

/// SHL.
fn exec_shl(shift: Word, v: Word) -> (r: Option<Word>)
    ensures
        r == shl(shift, v),
{
    if !shift.fits_usize() {
        return None;
    }
    let s = shift.to_usize();
    if s >= 256 {
        return Some(Word::zero());
    }
    let r = word_shl(v, s);
    proof {
        lemma_word_of_intro(r, v.value() * pow2(s as nat));
    }
    Some(r)
}

/// SHR.
fn exec_shr(shift: Word, v: Word) -> (r: Option<Word>)
    ensures
        r == shr(shift, v),
{
    if !shift.fits_usize() {
        return None;
    }
    let s = shift.to_usize();
    if s >= 256 {
        return Some(Word::zero());
    }
    let r = word_shr(v, s);
    proof {
        lemma_pow2_pos(s as nat);
        lemma_value_bound(v);
        lemma_div_is_ordered_by_denominator(v.value() as int, 1, pow2(s as nat) as int);
        lemma_word_of_small(r, r.value());
    }
    Some(r)
}

/// `M - 1 - (M - 1 - v) / 2^s == v / 2^s + M - 2^(256 - s)` for `0 < s < 256`.
proof fn lemma_sar_negative(v: nat, s: nat)
    requires
        0 < s < 256,
        v < word_modulus(),
    ensures
        (word_modulus() - 1 - (word_modulus() - 1 - v) as nat / pow2(s)) as nat == v / pow2(s)
            + word_modulus() - pow2((256 - s) as nat),
{
    let p = pow2(s) as int;
    let big_p = pow2((256 - s) as nat) as int;
    let m = word_modulus() as int;
    lemma_pow2_pos(s);
    lemma_pow2_pos((256 - s) as nat);
    lemma_pow2_adds((256 - s) as nat, s);
    lemma_pow2_256();
    assert(big_p * p == m);
    let q = v as int / p;
    let r = v as int % p;
    lemma_fundamental_div_mod(v as int, p);
    lemma_mod_bound(v as int, p);
    assert(q < big_p) by (nonlinear_arith)
        requires
            v == p * q + r,
            0 <= r,
            v < m,
            big_p * p == m,
            p > 0,
    ;
    assert(m - 1 - v == (big_p - 1 - q) * p + (p - 1 - r)) by (nonlinear_arith)
        requires
            v == p * q + r,
            big_p * p == m,
    ;
    lemma_fundamental_div_mod_converse(m - 1 - v, p, big_p - 1 - q, p - 1 - r);
}

/// The value SAR computes for a negative word, shifted by less than 256.
proof fn lemma_sar_neg_case(shift: Word, v: Word, r: Word)
    requires
        shift.value() < 256,
        v.is_neg(),
        r.value() == word_modulus() - 1 - (word_modulus() - 1 - v.value()) as nat / pow2(
            shift.value(),
        ),
    ensures
        r == sar(shift, v),
{
    let s = shift.value();
    let q = v.value() / pow2(s);
    lemma_value_bound(v);
    if s > 0 {
        lemma_sar_negative(v.value(), s);
        lemma_pow2_pos((256 - s) as nat);
        lemma_word_of_small(r, (q + word_modulus() - pow2((256 - s) as nat)) as nat);
    } else {
        lemma2_to64();
        let x = v.value() as int;
        let y = (word_modulus() - 1 - v.value()) as int;
        lemma_fundamental_div_mod_converse(x, 1, x, 0);
        lemma_fundamental_div_mod_converse(y, 1, y, 0);
        lemma_word_of_small(r, q);
    }
}

/// The value SAR computes for a non-negative word, shifted by less than 256.
proof fn lemma_sar_pos_case(shift: Word, v: Word, r: Word)
    requires
        shift.value() < 256,
        !v.is_neg(),
        r.value() == v.value() / pow2(shift.value()),
    ensures
        r == sar(shift, v),
{
    let s = shift.value();
    lemma_pow2_pos(s);
    lemma_value_bound(v);
    lemma_div_is_ordered_by_denominator(v.value() as int, 1, pow2(s) as int);
    lemma_word_of_small(r, r.value());
}

/// SAR. A negative word is shifted as the complement of the shifted
/// complement, which fills the vacated bits with ones.
fn exec_sar(shift: Word, v: Word) -> (r: Word)
    ensures
        r == sar(shift, v),
{
    let neg = v.is_negative();
    let limit = Word::from_u64(256);
    if !shift.lt(&limit) {
        if neg {
            let r = Word::max();
            proof {
                lemma_word_of_small(r, (word_modulus() - 1) as nat);
            }
            return r;
        } else {
            return Word::zero();
        }
    }
    let s = shift.to_usize();
    if neg {
        let inverted = v.not();
        let shifted = word_shr(inverted, s);
        let r = shifted.not();
        proof {
            lemma_sar_neg_case(shift, v, r);
        }
        r
    } else {
        let r = word_shr(v, s);
        proof {
            lemma_sar_pos_case(shift, v, r);
        }
        r
    }
}

/// Signed less-than, decided as follows: equal words are not less,
/// words of different signs by their signs, others as unsigned numbers.
fn signed_lt(a: Word, b: Word) -> (r: bool)
    ensures
        r == (a.signed() < b.signed()),
{
    let a_neg = a.is_negative();
    let b_neg = b.is_negative();
    if a.eq(&b) {
        false
    } else if a_neg != b_neg {
        a_neg
    } else {
        a.lt(&b)
    }
}

/// A two-operand instruction; `a` is the top of the stack.
pub fn exec_binary(op: u8, a: Word, b: Word) -> (r: Option<Word>)
    requires
        is_binary(op),
    ensures
        r == binary_op(op, a, b),
{
    if op == 0x01 {
        let r = word_add(a, b);
        proof {
            lemma_word_of_intro(r, a.value() + b.value());
        }
        Some(r)
    } else if op == 0x02 {
        let r = word_mul(a, b);
        proof {
            lemma_word_of_intro(r, a.value() * b.value());
        }
        Some(r)
    } else if op == 0x03 {
        let r = word_sub(a, b);
        proof {
            lemma_value_bound(b);
            lemma_word_of_intro(r, (a.value() + word_modulus() - b.value()) as nat);
        }
        Some(r)
    } else if op == 0x04 {
        if b.is_zero() {
            Some(Word::zero())
        } else {
            let r = word_div(a, b);
            proof {
                lemma_value_bound(a);
                lemma_div_is_ordered_by_denominator(a.value() as int, 1, b.value() as int);
                lemma_word_of_small(r, r.value());
            }
            Some(r)
        }
    } else if op == 0x05 {
        Some(exec_sdiv(a, b))
    } else if op == 0x06 {
        if b.is_zero() {
            Some(Word::zero())
        } else {
            let r = word_rem(a, b);
            proof {
                lemma_value_bound(r);
                lemma_word_of_small(r, r.value());
            }
            Some(r)
        }
    } else if op == 0x07 {
        Some(exec_smod(a, b))
    } else if op == 0x0a {
        let r = word_pow(a, b);
        proof {
            lemma_value_bound(r);
            lemma_small_mod(r.value(), word_modulus());
            lemma_word_of_intro(r, r.value());
        }
        Some(r)
    } else if op == 0x0b {
        exec_signextend(a, b)
    } else if op == 0x10 {
        Some(from_bool(a.lt(&b)))
    } else if op == 0x11 {
        Some(from_bool(b.lt(&a)))
    } else if op == 0x12 {
        Some(from_bool(signed_lt(a, b)))
    } else if op == 0x13 {
        Some(from_bool(signed_lt(b, a)))
    } else if op == 0x14 {
        Some(from_bool(a.eq(&b)))
    } else if op == 0x16 {
        Some(a.and(&b))
    } else if op == 0x17 {
        Some(a.or(&b))
    } else if op == 0x18 {
        Some(a.xor(&b))
    } else if op == 0x1a {
        Some(exec_byte(a, b))
    } else if op == 0x1b {
        exec_shl(a, b)
    } else if op == 0x1c {
        exec_shr(a, b)
    } else {
        Some(exec_sar(a, b))
    }
}

/// ADDMOD and MULMOD, computed in 512 bits.
pub fn exec_ternary(op: u8, a: Word, b: Word, n: Word) -> (r: Option<Word>)
    requires
        op == 0x08 || op == 0x09,
    ensures
        r == ternary_op(op, a, b, n),
{
    if n.is_zero() {
        return None;
    }
    let zero = Word::zero();
    let wa = Wide { lo: a, hi: zero };
    let wb = Wide { lo: b, hi: zero };
    let wn = Wide { lo: n, hi: zero };
    proof {
        lemma_value_bound(a);
        lemma_value_bound(b);
        lemma_value_bound(n);
    }
    let total = if op == 0x08 {
        wide_add(wa, wb)
    } else {
        let ghost (x, y) = (a.value(), b.value());
        assert(x * y < word_modulus() * word_modulus()) by (nonlinear_arith)
            requires
                x < word_modulus(),
                y < word_modulus(),
        ;
        wide_mul(wa, wb)
    };
    let r = wide_rem(total, wn);
    proof {
        lemma_mod_bound(total.value() as int, n.value() as int);
        lemma_value_bound(r.lo);
        lemma_word_of_small(r.lo, r.value());
    }
    Some(r.lo)
}

/// ISZERO and NOT.
pub fn exec_unary(op: u8, a: Word) -> (r: Word)
    requires
        op == 0x15 || op == 0x19,
    ensures
        r == unary_op(op, a),
{
    if op == 0x15 {
        from_bool(a.is_zero())
    } else {
        a.not()
    }
}

} // verus!
