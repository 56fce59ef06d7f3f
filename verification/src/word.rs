//! The 256-bit machine word: four little-endian 64-bit limbs, read as a
//! natural number below 2^256.

use vstd::prelude::*;
use vstd::arithmetic::div_mod::*;

verus! {

/// 2^256, the number of distinct words.
pub open spec fn word_modulus() -> nat {
    115792089237316195423570985008687907853269984665640564039457584007913129639936nat
}

/// 2^255, the least word whose top bit (the two's complement sign) is set.
pub open spec fn sign_threshold() -> nat {
    57896044618658097711785492504343953926634992332820282019728792003956564819968nat
}

/// A 256-bit unsigned machine word. `l0` is the least significant limb.
#[derive(Clone, Copy, Debug, PartialEq, Eq, Structural)]
pub struct Word {
    pub l0: u64,
    pub l1: u64,
    pub l2: u64,
    pub l3: u64,
}

impl Word {
    /// The number the word stands for.
    pub open spec fn value(self) -> nat {
        self.l0 as nat + self.l1 as nat * 18446744073709551616nat
            + self.l2 as nat * 340282366920938463463374607431768211456nat
            + self.l3 as nat * 6277101735386680763835789423207666416102355444464034512896nat
    }

    /// Whether the word is negative when read in two's complement.
    pub open spec fn is_neg(self) -> bool {
        self.value() >= sign_threshold()
    }

    /// The word read as a two's complement signed integer.
    pub open spec fn signed(self) -> int {
        if self.is_neg() {
            self.value() - word_modulus()
        } else {
            self.value() as int
        }
    }
}

/// The word holding `n` reduced modulo 2^256.
pub open spec fn word_of(n: nat) -> Word {
    Word {
        l0: (n % 18446744073709551616nat) as u64,
        l1: ((n / 18446744073709551616nat) % 18446744073709551616nat) as u64,
        l2: ((n / 340282366920938463463374607431768211456nat) % 18446744073709551616nat) as u64,
        l3: ((n / 6277101735386680763835789423207666416102355444464034512896nat)
            % 18446744073709551616nat) as u64,
    }
}

/// 1 for true, 0 for false.
pub open spec fn bool_word(b: bool) -> Word {
    if b {
        word_of(1)
    } else {
        word_of(0)
    }
}

/// Limb-wise AND of two words.
pub open spec fn word_and(a: Word, b: Word) -> Word {
    Word { l0: a.l0 & b.l0, l1: a.l1 & b.l1, l2: a.l2 & b.l2, l3: a.l3 & b.l3 }
}

/// Limb-wise OR of two words.
pub open spec fn word_or(a: Word, b: Word) -> Word {
    Word { l0: a.l0 | b.l0, l1: a.l1 | b.l1, l2: a.l2 | b.l2, l3: a.l3 | b.l3 }
}

/// Limb-wise XOR of two words.
pub open spec fn word_xor(a: Word, b: Word) -> Word {
    Word { l0: a.l0 ^ b.l0, l1: a.l1 ^ b.l1, l2: a.l2 ^ b.l2, l3: a.l3 ^ b.l3 }
}

/// Limb-wise complement of a word.
pub open spec fn word_not(a: Word) -> Word {
    Word { l0: !a.l0, l1: !a.l1, l2: !a.l2, l3: !a.l3 }
}

/// Every word is below 2^256.
pub proof fn lemma_value_bound(w: Word)
    ensures
        w.value() < word_modulus(),
{
}

/// `word_of(n)` holds `n mod 2^256`.
pub proof fn lemma_value_word_of(n: nat)
    ensures
        word_of(n).value() == n % word_modulus(),
{
    let b: int = 18446744073709551616int;
    let b2: int = 340282366920938463463374607431768211456int;
    let b3: int = 6277101735386680763835789423207666416102355444464034512896int;
    let m: int = word_modulus() as int;
    let x = n as int;
    lemma_fundamental_div_mod(x, b);
    lemma_fundamental_div_mod(x / b, b);
    lemma_div_denominator(x, b, b);
    lemma_fundamental_div_mod(x / b2, b);
    lemma_div_denominator(x, b2, b);
    lemma_fundamental_div_mod(x / b3, b);
    lemma_div_denominator(x, b3, b);
    lemma_mod_bound(x, b);
    lemma_mod_bound(x / b, b);
    lemma_mod_bound(x / b2, b);
    lemma_mod_bound(x / b3, b);
    lemma_div_pos_is_pos(x, b);
    lemma_div_pos_is_pos(x, b2);
    lemma_div_pos_is_pos(x, b3);
    let w = word_of(n);
    assert(x == w.value() + m * (x / m));
    lemma_value_bound(w);
    lemma_fundamental_div_mod_converse(x, m, x / m, w.value() as int);
}

/// A word is recovered from its value.
pub proof fn lemma_word_of_value(w: Word)
    ensures
        word_of(w.value()) == w,
{
    let b: int = 18446744073709551616int;
    let b2: int = 340282366920938463463374607431768211456int;
    let b3: int = 6277101735386680763835789423207666416102355444464034512896int;
    let v = w.value() as int;
    lemma_fundamental_div_mod_converse(v, b, w.l1 + w.l2 * b + w.l3 * b2, w.l0 as int);
    lemma_fundamental_div_mod_converse(v, b2, w.l2 + w.l3 * b, w.l0 + w.l1 * b);
    lemma_fundamental_div_mod_converse(v, b3, w.l3 as int, w.l0 + w.l1 * b + w.l2 * b2);
    lemma_fundamental_div_mod_converse(w.l1 + w.l2 * b + w.l3 * b2, b, w.l2 + w.l3 * b, w.l1 as int);
    lemma_fundamental_div_mod_converse(w.l2 + w.l3 * b, b, w.l3 as int, w.l2 as int);
    lemma_fundamental_div_mod_converse(w.l3 as int, b, 0, w.l3 as int);
}

/// Two words with the same value are the same word.
pub proof fn lemma_value_injective(a: Word, b: Word)
    requires
        a.value() == b.value(),
    ensures
        a == b,
{
    lemma_word_of_value(a);
    lemma_word_of_value(b);
}

/// A word whose value is `n mod 2^256` is `word_of(n)`.
pub proof fn lemma_word_of_intro(r: Word, n: nat)
    requires
        r.value() == n % word_modulus(),
    ensures
        r == word_of(n),
{
    lemma_value_word_of(n);
    lemma_value_injective(r, word_of(n));
}

/// `word_of` is the identity on numbers below 2^256.
pub proof fn lemma_value_word_of_small(n: nat)
    requires
        n < word_modulus(),
    ensures
        word_of(n).value() == n,
{
    lemma_value_word_of(n);
    lemma_small_mod(n, word_modulus());
}

} // verus!

verus! {

/// The complement of a word is `2^256 - 1` minus it.
pub proof fn lemma_not_value(a: Word)
    ensures
        word_not(a).value() == word_modulus() - 1 - a.value(),
{
    let (x0, x1, x2, x3) = (a.l0, a.l1, a.l2, a.l3);
    assert(!x0 == 18446744073709551615u64 - x0) by (bit_vector);
    assert(!x1 == 18446744073709551615u64 - x1) by (bit_vector);
    assert(!x2 == 18446744073709551615u64 - x2) by (bit_vector);
    assert(!x3 == 18446744073709551615u64 - x3) by (bit_vector);
}

impl Word {
    /// The word 0.
    pub fn zero() -> (r: Word)
        ensures
            r.value() == 0,
            r == word_of(0),
    {
        proof {
            lemma_value_word_of_small(0);
        }
        let r = Word { l0: 0, l1: 0, l2: 0, l3: 0 };
        proof {
            lemma_value_injective(r, word_of(0));
        }
        r
    }

    /// The word 1.
    pub fn one() -> (r: Word)
        ensures
            r.value() == 1,
            r == word_of(1),
    {
        proof {
            lemma_value_word_of_small(1);
        }
        let r = Word { l0: 1, l1: 0, l2: 0, l3: 0 };
        proof {
            lemma_value_injective(r, word_of(1));
        }
        r
    }

    /// The largest word, `2^256 - 1`.
    pub fn max() -> (r: Word)
        ensures
            r.value() == word_modulus() - 1,
    {
        Word { l0: u64::MAX, l1: u64::MAX, l2: u64::MAX, l3: u64::MAX }
    }

    /// The word holding a 64-bit number.
    pub fn from_u64(x: u64) -> (r: Word)
        ensures
            r.value() == x,
            r == word_of(x as nat),
    {
        let r = Word { l0: x, l1: 0, l2: 0, l3: 0 };
        proof {
            lemma_value_word_of_small(x as nat);
            lemma_value_injective(r, word_of(x as nat));
        }
        r
    }

    /// The word holding a `usize`.
    pub fn from_usize(x: usize) -> (r: Word)
        ensures
            r.value() == x,
            r == word_of(x as nat),
    {
        Word::from_u64(x as u64)
    }

    /// The word made of the given little-endian limbs.
    pub fn from_limbs(limbs: [u64; 4]) -> (r: Word)
        ensures
            r.l0 == limbs[0],
            r.l1 == limbs[1],
            r.l2 == limbs[2],
            r.l3 == limbs[3],
    {
        Word { l0: limbs[0], l1: limbs[1], l2: limbs[2], l3: limbs[3] }
    }

    /// The little-endian limbs of the word.
    pub fn to_limbs(&self) -> (r: [u64; 4])
        ensures
            r[0] == self.l0,
            r[1] == self.l1,
            r[2] == self.l2,
            r[3] == self.l3,
    {
        [self.l0, self.l1, self.l2, self.l3]
    }

    /// Whether the word is 0.
    pub fn is_zero(&self) -> (r: bool)
        ensures
            r == (self.value() == 0),
    {
        self.l0 == 0 && self.l1 == 0 && self.l2 == 0 && self.l3 == 0
    }

    /// Unsigned comparison: whether `self < other`.
    pub fn lt(&self, other: &Word) -> (r: bool)
        ensures
            r == (self.value() < other.value()),
    {
        if self.l3 != other.l3 {
            self.l3 < other.l3
        } else if self.l2 != other.l2 {
            self.l2 < other.l2
        } else if self.l1 != other.l1 {
            self.l1 < other.l1
        } else {
            self.l0 < other.l0
        }
    }

    /// Equality of words.
    pub fn eq(&self, other: &Word) -> (r: bool)
        ensures
            r == (*self == *other),
    {
        self.l0 == other.l0 && self.l1 == other.l1 && self.l2 == other.l2 && self.l3 == other.l3
    }

    /// Whether the top bit is set, that is whether the word is negative in
    /// two's complement.
    pub fn is_negative(&self) -> (r: bool)
        ensures
            r == self.is_neg(),
    {
        self.l3 >= 0x8000_0000_0000_0000u64
    }

    /// Whether the value fits in a `usize`.
    pub fn fits_usize(&self) -> (r: bool)
        ensures
            r == (self.value() <= usize::MAX),
    {
        self.l1 == 0 && self.l2 == 0 && self.l3 == 0 && self.l0 as u128 <= usize::MAX as u128
    }

    /// The value as a `usize`.
    pub fn to_usize(&self) -> (r: usize)
        requires
            self.value() <= usize::MAX,
        ensures
            r == self.value(),
    {
        self.l0 as usize
    }

    /// The least significant byte, the value modulo 256.
    pub fn low_byte(&self) -> (r: u8)
        ensures
            r == self.value() % 256,
    {
        let x = self.l0;
        assert(x & 0xff == x % 256) by (bit_vector);
        proof {
            let q: int = self.l1 as int * 72057594037927936int
                + self.l2 as int * 1329227995784915872903807060280344576int
                + self.l3 as int * 24519928653854221733733552434404946937899825954937634816int
                + (x / 256) as int;
            lemma_fundamental_div_mod(x as int, 256);
            lemma_fundamental_div_mod_converse(self.value() as int, 256, q, (x % 256) as int);
        }
        (x & 0xff) as u8
    }

    /// Limb-wise AND.
    pub fn and(&self, other: &Word) -> (r: Word)
        ensures
            r == word_and(*self, *other),
    {
        Word { l0: self.l0 & other.l0, l1: self.l1 & other.l1, l2: self.l2 & other.l2, l3: self.l3 & other.l3 }
    }

    /// Limb-wise OR.
    pub fn or(&self, other: &Word) -> (r: Word)
        ensures
            r == word_or(*self, *other),
    {
        Word { l0: self.l0 | other.l0, l1: self.l1 | other.l1, l2: self.l2 | other.l2, l3: self.l3 | other.l3 }
    }

    /// Limb-wise XOR.
    pub fn xor(&self, other: &Word) -> (r: Word)
        ensures
            r == word_xor(*self, *other),
    {
        Word { l0: self.l0 ^ other.l0, l1: self.l1 ^ other.l1, l2: self.l2 ^ other.l2, l3: self.l3 ^ other.l3 }
    }

    /// Limb-wise complement.
    pub fn not(&self) -> (r: Word)
        ensures
            r == word_not(*self),
            r.value() == word_modulus() - 1 - self.value(),
    {
        proof {
            lemma_not_value(*self);
        }
        Word { l0: !self.l0, l1: !self.l1, l2: !self.l2, l3: !self.l3 }
    }
}

} // verus!
