//! Big-endian byte strings and the numbers they encode.

use vstd::prelude::*;
use vstd::arithmetic::div_mod::*;
use vstd::arithmetic::power2::*;
use crate::word::{Word, word_modulus, lemma_value_bound};

verus! {

/// The number a big-endian byte string encodes.
pub open spec fn be_value(s: Seq<u8>) -> nat
    decreases s.len(),
{
    if s.len() == 0 {
        0
    } else {
        be_value(s.drop_last()) * 256 + s.last() as nat
    }
}

/// The `n` low-order bytes of `v`, most significant first.
pub open spec fn to_be_bytes(v: nat, n: nat) -> Seq<u8>
    decreases n,
{
    if n == 0 {
        Seq::empty()
    } else {
        to_be_bytes(v / 256, (n - 1) as nat).push((v % 256) as u8)
    }
}

/// The 32 bytes of a word, most significant first.
pub open spec fn word_bytes(w: Word) -> Seq<u8> {
    to_be_bytes(w.value(), 32)
}

/// The `size` bytes of `src` from `offset` on, padded with zeros past its end.
pub open spec fn copy_padded(src: Seq<u8>, offset: nat, size: nat) -> Seq<u8> {
    Seq::new(size, |i: int| if offset + i < src.len() { src[offset + i] } else { 0u8 })
}

/// `pow2(8 * (n + 1)) == 256 * pow2(8 * n)`.
pub proof fn lemma_pow2_byte_step(n: nat)
    ensures
        pow2(8 * (n + 1)) == 256 * pow2(8 * n),
{
    lemma2_to64();
    lemma_pow2_adds(8, 8 * n);
    assert(8 * (n + 1) == 8 + 8 * n);
}

/// A big-endian string of `n` bytes encodes a number below `2^(8n)`.
pub proof fn lemma_be_value_bound(s: Seq<u8>)
    ensures
        be_value(s) < pow2(8 * s.len()),
    decreases s.len(),
{
    if s.len() == 0 {
        lemma2_to64();
    } else {
        lemma_be_value_bound(s.drop_last());
        lemma_pow2_byte_step((s.len() - 1) as nat);
    }
}

/// A string of at most 32 bytes encodes a number below 2^256.
pub proof fn lemma_be_value_word_bound(s: Seq<u8>)
    requires
        s.len() <= 32,
    ensures
        be_value(s) < word_modulus(),
{
    lemma_be_value_bound(s);
    if s.len() < 32 {
        lemma_pow2_strictly_increases(8 * s.len(), 256);
    }
    lemma_pow2_256();
}

/// `2^256`, as `pow2` gives it.
pub proof fn lemma_pow2_256()
    ensures
        pow2(256) == word_modulus(),
{
    lemma2_to64();
    lemma_pow2_adds(64, 64);
    lemma_pow2_adds(128, 64);
    lemma_pow2_adds(192, 64);
}

/// `to_be_bytes(v, n)` has `n` bytes.
pub proof fn lemma_to_be_bytes_len(v: nat, n: nat)
    ensures
        to_be_bytes(v, n).len() == n,
    decreases n,
{
    if n > 0 {
        lemma_to_be_bytes_len(v / 256, (n - 1) as nat);
    }
}

/// Reading back the `n` low-order bytes of `v` gives `v mod 2^(8n)`.
pub proof fn lemma_be_value_to_be_bytes(v: nat, n: nat)
    ensures
        be_value(to_be_bytes(v, n)) == v % pow2(8 * n),
    decreases n,
{
    lemma_to_be_bytes_len(v, n);
    if n == 0 {
        lemma2_to64();
        assert(to_be_bytes(v, n) =~= Seq::<u8>::empty());
    } else {
        let k = (n - 1) as nat;
        lemma_be_value_to_be_bytes(v / 256, k);
        let s = to_be_bytes(v, n);
        assert(s.drop_last() =~= to_be_bytes(v / 256, k));
        lemma_pow2_byte_step(k);
        lemma_pow2_pos(8 * k);
        lemma_mod_breakdown(v as int, 256, pow2(8 * k) as int);
        lemma_mod_bound(v as int, 256);
    }
}

/// The 32 bytes of a word read back as the word's value.
pub proof fn lemma_be_value_word_bytes(w: Word)
    ensures
        be_value(word_bytes(w)) == w.value(),
        word_bytes(w).len() == 32,
{
    lemma_be_value_to_be_bytes(w.value(), 32);
    lemma_to_be_bytes_len(w.value(), 32);
    lemma_pow2_256();
    lemma_value_bound(w);
    lemma_small_mod(w.value(), word_modulus());
}

/// Byte `j` of the `n` low-order bytes of `v`, most significant first, is
/// `v / 2^(8(n-1-j))` reduced modulo 256.
pub proof fn lemma_to_be_bytes_index(v: nat, n: nat, j: nat)
    requires
        j < n,
    ensures
        to_be_bytes(v, n)[j as int] == (v / pow2(8 * ((n - 1 - j) as nat))) % 256,
    decreases n,
{
    lemma_to_be_bytes_len(v, n);
    lemma_to_be_bytes_len(v / 256, (n - 1) as nat);
    lemma2_to64();
    if j == n - 1 {
        assert(8 * ((n - 1 - j) as nat) == 0);
    } else {
        let k = (n - 2 - j) as nat;
        lemma_to_be_bytes_index(v / 256, (n - 1) as nat, j);
        assert(((n - 1 - 1 - j) as nat) == k);
        lemma_pow2_pos(8 * k);
        lemma_div_denominator(v as int, 256, pow2(8 * k) as int);
        lemma_pow2_byte_step(k);
        assert(8 * (k + 1) == 8 * ((n - 1 - j) as nat));
    }
}

/// Reading a byte string as a number and writing the number back in as
/// many bytes gives the string again.
pub proof fn lemma_to_be_bytes_be_value(s: Seq<u8>)
    ensures
        to_be_bytes(be_value(s), s.len()) == s,
    decreases s.len(),
{
    lemma_to_be_bytes_len(be_value(s), s.len());
    if s.len() > 0 {
        let v = be_value(s);
        let p = be_value(s.drop_last());
        lemma_to_be_bytes_be_value(s.drop_last());
        lemma_fundamental_div_mod_converse(v as int, 256, p as int, s.last() as int);
        assert(to_be_bytes(v, s.len()) =~= s);
    }
}

/// Byte `j` of a big-endian string of `n` bytes is the encoded number
/// divided by `2^(8(n-1-j))`, reduced modulo 256.
pub proof fn lemma_be_value_byte(s: Seq<u8>, j: nat)
    requires
        j < s.len(),
    ensures
        s[j as int] == (be_value(s) / pow2(8 * ((s.len() - 1 - j) as nat))) % 256,
{
    lemma_to_be_bytes_be_value(s);
    lemma_to_be_bytes_index(be_value(s), s.len(), j);
}

} // verus!
