//! Word arithmetic carried out by `primitive_types`. Each function here is
//! trusted: its body converts the words to `primitive_types` integers, makes
//! one call and converts the result back.

use vstd::prelude::*;
use vstd::arithmetic::power::pow;
use vstd::arithmetic::power2::pow2;
use crate::word::{Word, word_modulus};
use crate::bytes::{be_value, word_bytes};

verus! {

/// `primitive_types::U256::overflowing_add`: the sum modulo 2^256.
#[verifier::external_body]
pub(crate) fn word_add(a: Word, b: Word) -> (r: Word)
    ensures
        r.value() == (a.value() + b.value()) % word_modulus(),
{
    let (s, _) = primitive_types::U256([a.l0, a.l1, a.l2, a.l3]).overflowing_add(
        primitive_types::U256([b.l0, b.l1, b.l2, b.l3]),
    );
    Word { l0: s.0[0], l1: s.0[1], l2: s.0[2], l3: s.0[3] }
}

/// `primitive_types::U256::overflowing_sub`: the difference modulo 2^256.
#[verifier::external_body]
pub(crate) fn word_sub(a: Word, b: Word) -> (r: Word)
    ensures
        r.value() == (a.value() + word_modulus() - b.value()) as nat % word_modulus(),
{
    let (s, _) = primitive_types::U256([a.l0, a.l1, a.l2, a.l3]).overflowing_sub(
        primitive_types::U256([b.l0, b.l1, b.l2, b.l3]),
    );
    Word { l0: s.0[0], l1: s.0[1], l2: s.0[2], l3: s.0[3] }
}

/// `primitive_types::U256::overflowing_mul`: the product modulo 2^256.
#[verifier::external_body]
pub(crate) fn word_mul(a: Word, b: Word) -> (r: Word)
    ensures
        r.value() == (a.value() * b.value()) % word_modulus(),
{
    let (s, _) = primitive_types::U256([a.l0, a.l1, a.l2, a.l3]).overflowing_mul(
        primitive_types::U256([b.l0, b.l1, b.l2, b.l3]),
    );
    Word { l0: s.0[0], l1: s.0[1], l2: s.0[2], l3: s.0[3] }
}

/// `/` on `primitive_types::U256`: the quotient, rounded down. It panics
/// on a zero divisor, which `requires` rules out.
#[verifier::external_body]
pub(crate) fn word_div(a: Word, b: Word) -> (r: Word)
    requires
        b.value() != 0,
    ensures
        r.value() == a.value() / b.value(),
{
    let s = primitive_types::U256([a.l0, a.l1, a.l2, a.l3]) / primitive_types::U256(
        [b.l0, b.l1, b.l2, b.l3],
    );
    Word { l0: s.0[0], l1: s.0[1], l2: s.0[2], l3: s.0[3] }
}

/// `%` on `primitive_types::U256`: the remainder. It panics on a zero
/// divisor, which `requires` rules out.
#[verifier::external_body]
pub(crate) fn word_rem(a: Word, b: Word) -> (r: Word)
    requires
        b.value() != 0,
    ensures
        r.value() == a.value() % b.value(),
{
    let s = primitive_types::U256([a.l0, a.l1, a.l2, a.l3]) % primitive_types::U256(
        [b.l0, b.l1, b.l2, b.l3],
    );
    Word { l0: s.0[0], l1: s.0[1], l2: s.0[2], l3: s.0[3] }
}

/// `primitive_types::U256::overflowing_pow`: the power modulo 2^256.
#[verifier::external_body]
pub(crate) fn word_pow(a: Word, e: Word) -> (r: Word)
    ensures
        r.value() as int == pow(a.value() as int, e.value()) % (word_modulus() as int),
{
    let (s, _) = primitive_types::U256([a.l0, a.l1, a.l2, a.l3]).overflowing_pow(
        primitive_types::U256([e.l0, e.l1, e.l2, e.l3]),
    );
    Word { l0: s.0[0], l1: s.0[1], l2: s.0[2], l3: s.0[3] }
}

/// `<<` on `primitive_types::U256`: bits shifted out at the top are lost.
#[verifier::external_body]
pub(crate) fn word_shl(a: Word, shift: usize) -> (r: Word)
    ensures
        r.value() == (a.value() * pow2(shift as nat)) % word_modulus(),
{
    let s = primitive_types::U256([a.l0, a.l1, a.l2, a.l3]) << shift;
    Word { l0: s.0[0], l1: s.0[1], l2: s.0[2], l3: s.0[3] }
}

/// `>>` on `primitive_types::U256`: the quotient by `2^shift`.
#[verifier::external_body]
pub(crate) fn word_shr(a: Word, shift: usize) -> (r: Word)
    ensures
        r.value() == a.value() / pow2(shift as nat),
{
    let s = primitive_types::U256([a.l0, a.l1, a.l2, a.l3]) >> shift;
    Word { l0: s.0[0], l1: s.0[1], l2: s.0[2], l3: s.0[3] }
}

/// `primitive_types::U256::from_big_endian`: the number that at most 32
/// big-endian bytes encode. It panics on a longer slice, which `requires`
/// rules out.
#[verifier::external_body]
pub(crate) fn word_from_be(bytes: &[u8]) -> (r: Word)
    requires
        bytes@.len() <= 32,
    ensures
        r.value() == be_value(bytes@),
{
    let s = primitive_types::U256::from_big_endian(bytes);
    Word { l0: s.0[0], l1: s.0[1], l2: s.0[2], l3: s.0[3] }
}

/// `primitive_types::U256::to_big_endian`: the 32 bytes of the word, most
/// significant first.
#[verifier::external_body]
pub(crate) fn word_to_be(a: Word) -> (r: [u8; 32])
    ensures
        r@ == word_bytes(a),
{
    primitive_types::U256([a.l0, a.l1, a.l2, a.l3]).to_big_endian()
}

/// A 512-bit number: `lo + 2^256 * hi`.
#[derive(Clone, Copy, Debug)]
pub struct Wide {
    pub lo: Word,
    pub hi: Word,
}

impl Wide {
    /// The number the pair of words stands for.
    pub open spec fn value(self) -> nat {
        self.lo.value() + word_modulus() * self.hi.value()
    }
}

/// `+` on `primitive_types::U512`. It panics on overflow, which
/// `requires` rules out.
#[verifier::external_body]
pub(crate) fn wide_add(a: Wide, b: Wide) -> (r: Wide)
    requires
        a.value() + b.value() < word_modulus() * word_modulus(),
    ensures
        r.value() == a.value() + b.value(),
{
    let s = primitive_types::U512(
        [a.lo.l0, a.lo.l1, a.lo.l2, a.lo.l3, a.hi.l0, a.hi.l1, a.hi.l2, a.hi.l3],
    ) + primitive_types::U512(
        [b.lo.l0, b.lo.l1, b.lo.l2, b.lo.l3, b.hi.l0, b.hi.l1, b.hi.l2, b.hi.l3],
    );
    Wide {
        lo: Word { l0: s.0[0], l1: s.0[1], l2: s.0[2], l3: s.0[3] },
        hi: Word { l0: s.0[4], l1: s.0[5], l2: s.0[6], l3: s.0[7] },
    }
}

/// `*` on `primitive_types::U512`. It panics on overflow, which
/// `requires` rules out.
#[verifier::external_body]
pub(crate) fn wide_mul(a: Wide, b: Wide) -> (r: Wide)
    requires
        a.value() * b.value() < word_modulus() * word_modulus(),
    ensures
        r.value() == a.value() * b.value(),
{
    let s = primitive_types::U512(
        [a.lo.l0, a.lo.l1, a.lo.l2, a.lo.l3, a.hi.l0, a.hi.l1, a.hi.l2, a.hi.l3],
    ) * primitive_types::U512(
        [b.lo.l0, b.lo.l1, b.lo.l2, b.lo.l3, b.hi.l0, b.hi.l1, b.hi.l2, b.hi.l3],
    );
    Wide {
        lo: Word { l0: s.0[0], l1: s.0[1], l2: s.0[2], l3: s.0[3] },
        hi: Word { l0: s.0[4], l1: s.0[5], l2: s.0[6], l3: s.0[7] },
    }
}

/// `%` on `primitive_types::U512`. It panics on a zero divisor, which
/// `requires` rules out.
#[verifier::external_body]
pub(crate) fn wide_rem(a: Wide, n: Wide) -> (r: Wide)
    requires
        n.value() != 0,
    ensures
        r.value() == a.value() % n.value(),
{
    let s = primitive_types::U512(
        [a.lo.l0, a.lo.l1, a.lo.l2, a.lo.l3, a.hi.l0, a.hi.l1, a.hi.l2, a.hi.l3],
    ) % primitive_types::U512(
        [n.lo.l0, n.lo.l1, n.lo.l2, n.lo.l3, n.hi.l0, n.hi.l1, n.hi.l2, n.hi.l3],
    );
    Wide {
        lo: Word { l0: s.0[0], l1: s.0[1], l2: s.0[2], l3: s.0[3] },
        hi: Word { l0: s.0[4], l1: s.0[5], l2: s.0[6], l3: s.0[7] },
    }
}

} // verus!
