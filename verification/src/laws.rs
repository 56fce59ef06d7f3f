//! Properties of the machine that hold across instructions.

use vstd::prelude::*;
use crate::word::{Word, word_of, lemma_word_of_value};
use crate::bytes::{lemma_be_value_word_bytes, word_bytes};
use crate::context::CtxView;
use crate::machine::lemma_mem_end;
use crate::semantics::{
    MState, StepOut, nth, mem_end, expand, mem_write, step_mem, step_state, spec_step,
    jumpdests_from, is_jumpdest, step_jump, step_copy, step_range, step_call,
};

verus! {

/// Reading memory back: after MSTORE writes a word at an offset, MLOAD at
/// that offset pushes the same word, and leaves memory as MSTORE left it.
pub proof fn law_mload_after_mstore(m: MState, offset: Word, w: Word)
    requires
        m.stack.len() >= 2,
        nth(m.stack, 0) == offset,
        nth(m.stack, 1) == w,
        offset.value() + 32 + 31 <= usize::MAX,
    ensures
        step_mem(m, 0x52) matches StepOut::Next(m1) && step_mem(
            MState { stack: m1.stack.push(offset), ..m1 },
            0x51,
        ) matches StepOut::Next(m2) && nth(m2.stack, 0) == w && m2.memory == m1.memory,
{
    let off = offset.value();
    lemma_mem_end(off, 32);
    let t = mem_end(off, 32).unwrap();
    let mem = expand(m.memory, t);
    lemma_be_value_word_bytes(w);
    let written = mem_write(mem, off, word_bytes(w));
    assert(written.subrange(off as int, (off + 32) as int) =~= word_bytes(w));
    assert(expand(written, t) =~= written);
    lemma_word_of_value(w);
}

/// Reading storage back: after SSTORE stores a value under a key, SLOAD
/// of that key pushes the value.
pub proof fn law_sload_after_sstore(ctx: CtxView, m: MState, key: Word, value: Word)
    requires
        m.stack.len() >= 2,
        nth(m.stack, 0) == key,
        nth(m.stack, 1) == value,
    ensures
        step_state(ctx, m, 0x55) matches StepOut::Next(m1) && step_state(
            ctx,
            MState { stack: m1.stack.push(key), ..m1 },
            0x54,
        ) matches StepOut::Next(m2) && nth(m2.stack, 0) == value,
{
}

/// Expanding a memory of whole words to a whole number of words gives a
/// memory of whole words, no shorter than before.
proof fn lemma_expand_words(mem: Seq<u8>, t: nat)
    requires
        t % 32 == 0,
        t <= usize::MAX,
    ensures
        mem.len() % 32 == 0 ==> expand(mem, t).len() % 32 == 0,
        mem.len() <= usize::MAX ==> expand(mem, t).len() <= usize::MAX,
        expand(mem, t).len() >= mem.len(),
        expand(mem, t).len() >= t,
{
}

/// Whether a step that goes on leaves memory no shorter, of whole words if
/// it was, and within `usize::MAX` bytes if it was.
pub open spec fn keeps_memory_words(out: StepOut, m: MState) -> bool {
    match out {
        StepOut::Next(m2) => m2.memory.len() >= m.memory.len() && (m.memory.len() % 32 == 0
            ==> m2.memory.len() % 32 == 0) && (m.memory.len() <= usize::MAX
            ==> m2.memory.len() <= usize::MAX),
        _ => true,
    }
}

proof fn lemma_mem_words_mem(m: MState, op: u8)
    ensures
        keeps_memory_words(step_mem(m, op), m),
{
    let s = m.stack;
    if s.len() >= 1 {
        let off = nth(s, 0).value();
        let width: nat = if op == 0x53 { 1 } else { 32 };
        lemma_mem_end(off, width);
        if let Some(t) = mem_end(off, width) {
            lemma_expand_words(m.memory, t);
        }
        if s.len() >= 2 {
            lemma_be_value_word_bytes(nth(s, 1));
        }
    }
}

proof fn lemma_mem_words_copy(code: Seq<u8>, ctx: CtxView, m: MState, op: u8)
    ensures
        keeps_memory_words(step_copy(code, ctx, m, op), m),
{
    let s = m.stack;
    let k: nat = if op == 0x3c { 1 } else { 0 };
    if s.len() >= 3 + k {
        let dest = nth(s, k).value();
        let size = nth(s, k + 2).value();
        lemma_mem_end(dest, size);
        if let Some(t) = mem_end(dest, size) {
            lemma_expand_words(m.memory, t);
        }
    }
}

proof fn lemma_mem_words_range(ctx: CtxView, m: MState, op: u8)
    ensures
        keeps_memory_words(step_range(ctx, m, op), m),
{
    let s = m.stack;
    if s.len() >= 2 {
        let off = nth(s, 0).value();
        let size = nth(s, 1).value();
        lemma_mem_end(off, size);
        if let Some(t) = mem_end(off, size) {
            lemma_expand_words(m.memory, t);
        }
    }
}

proof fn lemma_mem_words_call(ctx: CtxView, m: MState, depth: nat)
    ensures
        keeps_memory_words(step_call(ctx, m, depth), m),
{
    let s = m.stack;
    if s.len() >= 7 {
        let a_off = nth(s, 3).value();
        let a_size = nth(s, 4).value();
        let r_off = nth(s, 5).value();
        let r_size = nth(s, 6).value();
        lemma_mem_end(a_off, a_size);
        lemma_mem_end(r_off, r_size);
        if let Some(t1) = mem_end(a_off, a_size) {
            lemma_expand_words(m.memory, t1);
            if let Some(t2) = mem_end(r_off, r_size) {
                lemma_expand_words(expand(m.memory, t1), t2);
            }
        }
    }
}

/// Memory only grows, and always holds a whole number of 32-byte words:
/// no instruction that goes on shrinks it, leaves a memory of whole words
/// at a length that is not a multiple of 32, or grows it past `usize::MAX`
/// bytes.
pub proof fn law_memory_grows_in_words(code: Seq<u8>, ctx: CtxView, m: MState, depth: nat)
    requires
        m.pc < code.len(),
    ensures
        keeps_memory_words(spec_step(code, ctx, m, depth), m),
{
    let op = code[m.pc as int];
    if 0x51 <= op <= 0x53 {
        lemma_mem_words_mem(m, op);
    } else if op == 0x37 || op == 0x39 || op == 0x3c {
        lemma_mem_words_copy(code, ctx, m, op);
    } else if op == 0x20 || (0xa0 <= op <= 0xa4) || op == 0xf3 || op == 0xfd {
        lemma_mem_words_range(ctx, m, op);
    } else if op == 0xf1 {
        lemma_mem_words_call(ctx, m, depth);
    }
}

/// Every jump destination lies in the code and holds the JUMPDEST opcode.
pub proof fn law_jumpdests_are_jumpdest_opcodes(code: Seq<u8>, t: nat)
    requires
        is_jumpdest(code, t),
    ensures
        t < code.len(),
        code[t as int] == 0x5b,
{
    lemma_jumpdests_from_opcode(code, 0, t);
}

proof fn lemma_jumpdests_from_opcode(code: Seq<u8>, i: nat, t: nat)
    requires
        jumpdests_from(code, i).contains(t),
    ensures
        t < code.len(),
        code[t as int] == 0x5b,
    decreases code.len() - i,
{
    if i < code.len() {
        let op = code[i as int];
        let next = (i + (op - 0x5f) + 1) as nat;
        if op == 0x5b {
            if t != i {
                lemma_jumpdests_from_opcode(code, i + 1, t);
            }
        } else if 0x60 <= op <= 0x7f {
            if next < code.len() {
                lemma_jumpdests_from_opcode(code, next, t);
            }
        } else {
            lemma_jumpdests_from_opcode(code, i + 1, t);
        }
    }
}

/// A jump that is taken lands on a JUMPDEST opcode; one whose target is
/// not a jump destination ends the run as invalid.
pub proof fn law_jumps_land_on_jumpdest(code: Seq<u8>, m: MState, op: u8)
    requires
        op == 0x56 || op == 0x57,
    ensures
        match step_jump(code, m, op) {
            StepOut::Next(m2) => m2.pc != m.pc + 1 ==> m2.pc < code.len() && code[m2.pc as int]
                == 0x5b,
            _ => true,
        },
{
    match step_jump(code, m, op) {
        StepOut::Next(m2) => {
            if m2.pc != m.pc + 1 {
                law_jumpdests_are_jumpdest_opcodes(code, m2.pc);
            }
        },
        _ => {},
    }
}

} // verus!

verus! {

/// The absolute value of an integer.
pub open spec fn abs_int(x: int) -> nat {
    if x < 0 {
        (-x) as nat
    } else {
        x as nat
    }
}

/// Integer division rounding towards zero.
pub open spec fn quot_toward_zero(x: int, y: int) -> int {
    let q = (abs_int(x) / abs_int(y)) as int;
    if (x < 0) == (y < 0) {
        q
    } else {
        -q
    }
}

/// The remainder of division rounding towards zero: it has the sign of `x`.
pub open spec fn rem_toward_zero(x: int, y: int) -> int {
    let r = (abs_int(x) % abs_int(y)) as int;
    if x < 0 {
        -r
    } else {
        r
    }
}

/// A number below 2^256 read back as a signed word.
pub(crate) proof fn lemma_signed_word_of(n: nat)
    requires
        n < crate::word::word_modulus(),
    ensures
        word_of(n).signed() == if n >= crate::word::sign_threshold() {
            n - crate::word::word_modulus()
        } else {
            n as int
        },
{
    crate::word::lemma_value_word_of_small(n);
}

/// The magnitude of a word is the absolute value of its signed reading,
/// at most 2^255.
proof fn lemma_magnitude(a: Word)
    ensures
        crate::semantics::magnitude(a) == abs_int(a.signed()),
        crate::semantics::magnitude(a) <= crate::word::sign_threshold(),
        a.signed() < 0 <==> a.is_neg(),
{
    crate::word::lemma_value_bound(a);
}

/// SDIV divides signed words rounding towards zero, except for the one
/// quotient that does not fit: the least word divided by minus one.
pub proof fn law_sdiv_rounds_toward_zero(a: Word, b: Word)
    requires
        b.value() != 0,
        !(a.value() == crate::word::sign_threshold() && b.value() == crate::word::word_modulus()
            - 1),
    ensures
        crate::semantics::sdiv(a, b).signed() == quot_toward_zero(a.signed(), b.signed()),
{
    let ma = crate::semantics::magnitude(a);
    let mb = crate::semantics::magnitude(b);
    lemma_magnitude(a);
    lemma_magnitude(b);
    crate::word::lemma_value_bound(b);
    assert(mb >= 1);
    let q = ma / mb;
    vstd::arithmetic::div_mod::lemma_div_is_ordered_by_denominator(ma as int, 1, mb as int);
    vstd::arithmetic::div_mod::lemma_fundamental_div_mod_converse(ma as int, 1, ma as int, 0);
    if mb >= 2 {
        vstd::arithmetic::div_mod::lemma_div_is_ordered_by_denominator(ma as int, 2, mb as int);
        vstd::arithmetic::div_mod::lemma_div_is_ordered(
            ma as int,
            crate::word::sign_threshold() as int,
            2,
        );
    } else {
        assert(mb == 1);
    }
    if q == 0 {
        lemma_signed_word_of(0);
    } else if a.is_neg() != b.is_neg() {
        lemma_signed_word_of((crate::word::word_modulus() - q) as nat);
    } else {
        lemma_signed_word_of(q);
    }
}

/// SMOD gives the remainder of division rounding towards zero, which has
/// the sign of the dividend.
pub proof fn law_smod_has_sign_of_dividend(a: Word, b: Word)
    requires
        b.value() != 0,
    ensures
        crate::semantics::smod(a, b).signed() == rem_toward_zero(a.signed(), b.signed()),
{
    let ma = crate::semantics::magnitude(a);
    let mb = crate::semantics::magnitude(b);
    lemma_magnitude(a);
    lemma_magnitude(b);
    crate::word::lemma_value_bound(b);
    let r = ma % mb;
    vstd::arithmetic::div_mod::lemma_mod_bound(ma as int, mb as int);
    if a.is_neg() {
        if r == 0 {
            crate::word::lemma_value_word_of(crate::word::word_modulus());
            vstd::arithmetic::div_mod::lemma_mod_self_0(crate::word::word_modulus() as int);
            crate::word::lemma_value_injective(
                word_of(crate::word::word_modulus()),
                word_of(0),
            );
            lemma_signed_word_of(0);
        } else {
            lemma_signed_word_of((crate::word::word_modulus() - r) as nat);
        }
    } else {
        lemma_signed_word_of(r);
    }
}

/// SAR divides the signed reading of a word by `2^shift`, rounding down.
pub proof fn law_sar_is_floor_division(shift: Word, v: Word)
    ensures
        crate::semantics::sar(shift, v).signed() == v.signed() / (vstd::arithmetic::power2::pow2(
            shift.value(),
        ) as int),
{
    let s = shift.value();
    let p = vstd::arithmetic::power2::pow2(s) as int;
    let m = crate::word::word_modulus() as int;
    let x = v.signed();
    crate::word::lemma_value_bound(v);
    vstd::arithmetic::power2::lemma_pow2_pos(s);
    crate::bytes::lemma_pow2_256();
    if s >= 256 {
        if s > 256 {
            vstd::arithmetic::power2::lemma_pow2_strictly_increases(256, s);
        }
        if v.is_neg() {
            lemma_signed_word_of((m - 1) as nat);
            vstd::arithmetic::div_mod::lemma_fundamental_div_mod_converse(x, p, -1, x + p);
        } else {
            lemma_signed_word_of(0);
            vstd::arithmetic::div_mod::lemma_fundamental_div_mod_converse(x, p, 0, x);
        }
    } else {
        let q = v.value() / (p as nat);
        vstd::arithmetic::div_mod::lemma_fundamental_div_mod(v.value() as int, p);
        vstd::arithmetic::div_mod::lemma_mod_bound(v.value() as int, p);
        vstd::arithmetic::div_mod::lemma_div_is_ordered_by_denominator(v.value() as int, 1, p);
        vstd::arithmetic::div_mod::lemma_fundamental_div_mod_converse(
            v.value() as int,
            1,
            v.value() as int,
            0,
        );
        if v.is_neg() && s > 0 {
            let big_p = vstd::arithmetic::power2::pow2((256 - s) as nat) as int;
            vstd::arithmetic::power2::lemma_pow2_adds((256 - s) as nat, s);
            vstd::arithmetic::power2::lemma_pow2_strictly_increases((256 - s) as nat, 256);
            if 256 - s < 255 {
                vstd::arithmetic::power2::lemma_pow2_strictly_increases((256 - s) as nat, 255);
            }
            vstd::arithmetic::power2::lemma_pow2_unfold(256);
            assert(big_p * p == m);
            let r = v.value() as int % p;
            assert(q < big_p) by (nonlinear_arith)
                requires
                    v.value() == p * q + r,
                    0 <= r,
                    v.value() < m,
                    big_p * p == m,
                    p > 0,
            ;
            assert(x == (q - big_p) * p + r) by (nonlinear_arith)
                requires
                    v.value() == p * q + r,
                    x == v.value() - m,
                    big_p * p == m,
            ;
            vstd::arithmetic::div_mod::lemma_fundamental_div_mod_converse(x, p, q - big_p, r);
            lemma_signed_word_of((q + m - big_p) as nat);
        } else if v.is_neg() {
            vstd::arithmetic::power2::lemma2_to64();
            vstd::arithmetic::div_mod::lemma_fundamental_div_mod_converse(x, 1, x, 0);
            lemma_signed_word_of(q);
        } else {
            vstd::arithmetic::div_mod::lemma_fundamental_div_mod_converse(x, p, q as int, v.value() as int % p);
            lemma_signed_word_of(q);
        }
    }
}

/// The program counter never leaves the code: after an instruction that
/// goes on, it points into the code or just past its end.
pub proof fn law_pc_stays_in_code(code: Seq<u8>, ctx: CtxView, m: MState, depth: nat)
    requires
        m.pc < code.len(),
    ensures
        match spec_step(code, ctx, m, depth) {
            StepOut::Next(m2) => m2.pc <= code.len(),
            _ => true,
        },
{
    let op = code[m.pc as int];
    if op == 0x56 || op == 0x57 {
        law_jumps_land_on_jumpdest(code, m, op);
    }
}

} // verus!
