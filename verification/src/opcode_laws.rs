//! What single instructions do, stated over the machine before and after
//! them: the values they push, where jumps go and the context a call hands
//! on.

use vstd::prelude::*;
use vstd::arithmetic::power2::{pow2, lemma_pow2_pos, lemma_pow2_unfold, lemma_pow2_strictly_increases};
use vstd::arithmetic::div_mod::{
    lemma_div_is_ordered_by_denominator, lemma_fundamental_div_mod, lemma_fundamental_div_mod_converse,
    lemma_mod_bound,
};
use crate::word::{Word, word_of, word_modulus, sign_threshold, lemma_value_word_of, lemma_value_word_of_small};
use crate::bytes::{
    lemma_pow2_256, lemma_to_be_bytes_index, lemma_be_value_byte, lemma_be_value_word_bound,
    lemma_be_value_bound, be_value, word_bytes, copy_padded,
};
use crate::context::{CtxView, ResultView};
use crate::semantics::{
    MState, StepOut, nth, drop_top, fits, mem_end, spec_step, step_arith, step_jump, is_jumpdest,
    is_binary, is_arith, binary_op, ternary_op, replace_top, spec_run, RunOut,
};
use crate::laws::lemma_signed_word_of;
use crate::run_laws::{next_state, byte_before, callee_ctx, call_data};

verus! {

/// The word on top of the stack after an instruction that goes on.
pub open spec fn top_after(out: StepOut) -> Word {
    nth(next_state(out).stack, 0)
}

/// Whether an instruction went on to the next one having replaced its `k`
/// operands by one word, with memory, storage and logs as they were.
pub open spec fn replaces_top(out: StepOut, m: MState, k: nat) -> bool {
    &&& out is Next
    &&& next_state(out).stack.len() == m.stack.len() - k + 1
    &&& drop_top(next_state(out).stack, 1) == drop_top(m.stack, k)
    &&& next_state(out).pc == m.pc + 1
    &&& next_state(out).memory == m.memory
    &&& next_state(out).storage == m.storage
    &&& next_state(out).logs == m.logs
}

/// Whether the instruction at `m.pc` is `op`, with at least `k` operands.
pub open spec fn at_op(code: Seq<u8>, m: MState, op: u8, k: nat) -> bool {
    m.pc < code.len() && code[m.pc as int] == op && m.stack.len() >= k
}

proof fn lemma_replace_top(m: MState, k: nat, w: Word)
    requires
        m.stack.len() >= k,
    ensures
        replaces_top(StepOut::Next(replace_top(m, k, w)), m, k),
        top_after(StepOut::Next(replace_top(m, k, w))) == w,
{
    let s2 = drop_top(m.stack, k).push(w);
    assert(drop_top(s2, 1) =~= drop_top(m.stack, k));
}

/// A two-operand instruction that can be carried out replaces its operands
/// by the result of `binary_op`.
proof fn lemma_binary_step(code: Seq<u8>, ctx: CtxView, m: MState, depth: nat)
    requires
        m.pc < code.len(),
        is_binary(code[m.pc as int]),
        m.stack.len() >= 2,
        binary_op(code[m.pc as int], nth(m.stack, 0), nth(m.stack, 1)) is Some,
    ensures
        replaces_top(spec_step(code, ctx, m, depth), m, 2),
        top_after(spec_step(code, ctx, m, depth)) == binary_op(
            code[m.pc as int],
            nth(m.stack, 0),
            nth(m.stack, 1),
        ).unwrap(),
{
    let op = code[m.pc as int];
    assert(is_arith(op));
    assert(spec_step(code, ctx, m, depth) == step_arith(m, op));
    lemma_replace_top(m, 2, binary_op(op, nth(m.stack, 0), nth(m.stack, 1)).unwrap());
}

/// ADDMOD and MULMOD replace their operands by the result of `ternary_op`,
/// or cannot be carried out.
proof fn lemma_ternary_step(code: Seq<u8>, ctx: CtxView, m: MState, depth: nat)
    requires
        m.pc < code.len(),
        code[m.pc as int] == 0x08 || code[m.pc as int] == 0x09,
        m.stack.len() >= 3,
    ensures
        ({
            let op = code[m.pc as int];
            let r = ternary_op(op, nth(m.stack, 0), nth(m.stack, 1), nth(m.stack, 2));
            let out = spec_step(code, ctx, m, depth);
            &&& r is None ==> out is Fault
            &&& r is Some ==> replaces_top(out, m, 3) && top_after(out) == r.unwrap()
        }),
{
    let op = code[m.pc as int];
    assert(spec_step(code, ctx, m, depth) == step_arith(m, op));
    let r = ternary_op(op, nth(m.stack, 0), nth(m.stack, 1), nth(m.stack, 2));
    if r is Some {
        lemma_replace_top(m, 3, r.unwrap());
    }
}

/// SHR is a logical shift: for a shift below 256 it pushes the value
/// divided by 2^shift, rounding down, whatever the top bit of the value;
/// from 256 on it pushes 0.
pub proof fn law_shr_is_logical(code: Seq<u8>, ctx: CtxView, m: MState, depth: nat)
    requires
        at_op(code, m, 0x1c, 2),
        nth(m.stack, 0).value() <= usize::MAX,
    ensures
        ({
            let s = nth(m.stack, 0).value();
            let v = nth(m.stack, 1).value();
            let out = spec_step(code, ctx, m, depth);
            &&& replaces_top(out, m, 2)
            &&& s < 256 ==> top_after(out).value() == v / pow2(s)
            &&& s >= 256 ==> top_after(out).value() == 0
        }),
{
    let s = nth(m.stack, 0).value();
    let v = nth(m.stack, 1).value();
    lemma_binary_step(code, ctx, m, depth);
    lemma_pow2_pos(s);
    lemma_div_is_ordered_by_denominator(v as int, 1, pow2(s) as int);
    crate::word::lemma_value_bound(nth(m.stack, 1));
    lemma_value_word_of_small(v / pow2(s));
    lemma_value_word_of_small(0);
}

/// ADDMOD reduces the exact sum of its first two operands by the third,
/// and MULMOD the exact product; the result lies below the modulus. A
/// modulus of zero cannot be carried out.
pub proof fn law_addmod_mulmod(code: Seq<u8>, ctx: CtxView, m: MState, depth: nat, op: u8)
    requires
        op == 0x08 || op == 0x09,
        at_op(code, m, op, 3),
    ensures
        ({
            let a = nth(m.stack, 0).value();
            let b = nth(m.stack, 1).value();
            let n = nth(m.stack, 2).value();
            let out = spec_step(code, ctx, m, depth);
            &&& n == 0 ==> out is Fault
            &&& n != 0 ==> replaces_top(out, m, 3) && top_after(out).value() < n
            &&& n != 0 && op == 0x08 ==> top_after(out).value() == (a + b) % n
            &&& n != 0 && op == 0x09 ==> top_after(out).value() == (a * b) % n
        }),
{
    let a = nth(m.stack, 0).value();
    let b = nth(m.stack, 1).value();
    let n = nth(m.stack, 2).value();
    lemma_ternary_step(code, ctx, m, depth);
    crate::word::lemma_value_bound(nth(m.stack, 2));
    if n != 0 {
        lemma_mod_bound((a + b) as int, n as int);
        lemma_mod_bound((a * b) as int, n as int);
        lemma_value_word_of_small((a + b) % n);
        lemma_value_word_of_small((a * b) % n);
    }
}

/// The low `bits` bits of `x` read as a two's complement number of that
/// many bits.
pub open spec fn low_signed(x: nat, bits: nat) -> int {
    let low = x % pow2(bits);
    if low >= pow2((bits - 1) as nat) {
        low - pow2(bits)
    } else {
        low as int
    }
}

proof fn lemma_sign_bit(x: nat, bits: nat)
    requires
        bits >= 1,
    ensures
        ((x / pow2((bits - 1) as nat)) % 2 == 1) == (x % pow2(bits) >= pow2((bits - 1) as nat)),
        x % pow2(bits) < pow2(bits),
{
    let p = pow2((bits - 1) as nat) as int;
    lemma_pow2_pos((bits - 1) as nat);
    lemma_pow2_unfold(bits);
    assert(pow2(bits) == 2 * p);
    let q = x as int / (2 * p);
    let low = x as int % (2 * p);
    lemma_fundamental_div_mod(x as int, 2 * p);
    lemma_mod_bound(x as int, 2 * p);
    let lp: int = if low >= p { 1 } else { 0 };
    let lr = low - lp * p;
    assert(x == (2 * q + lp) * p + lr) by (nonlinear_arith)
        requires
            x == (2 * p) * q + low,
            lr == low - lp * p,
    ;
    lemma_fundamental_div_mod_converse(x as int, p, 2 * q + lp, lr);
    lemma_fundamental_div_mod_converse(2 * q + lp, 2, q, lp);
}

/// SIGNEXTEND with a byte index `k` below 32 pushes a word that, read as a
/// signed number, is the low `8 * (k + 1)` bits of `x` read as a two's
/// complement number of that width: the sign comes from bit `8 * k + 7`.
pub proof fn law_signextend_keeps_low_bytes(code: Seq<u8>, ctx: CtxView, m: MState, depth: nat)
    requires
        at_op(code, m, 0x0b, 2),
        nth(m.stack, 0).value() < 32,
    ensures
        ({
            let k = nth(m.stack, 0).value();
            let x = nth(m.stack, 1).value();
            let out = spec_step(code, ctx, m, depth);
            &&& replaces_top(out, m, 2)
            &&& top_after(out).signed() == low_signed(x, 8 * (k + 1))
        }),
{
    let k = nth(m.stack, 0).value();
    let x = nth(m.stack, 1).value();
    let bits: nat = 8 * (k + 1);
    lemma_binary_step(code, ctx, m, depth);
    lemma_sign_bit(x, bits);
    let p = pow2((bits - 1) as nat);
    let low = x % pow2(bits);
    lemma_pow2_unfold(bits);
    lemma_pow2_256();
    lemma_pow2_unfold(256);
    if bits - 1 < 255 {
        lemma_pow2_strictly_increases((bits - 1) as nat, 255);
    }
    assert(p <= sign_threshold());
    if low >= p {
        lemma_signed_word_of((low + word_modulus() - pow2(bits)) as nat);
    } else {
        lemma_signed_word_of(low);
    }
}

/// JUMPI jumps exactly when its condition is not zero: to the target if
/// it is a jump destination (else the run ends as a failure), and on to
/// the next instruction when the condition is zero. JUMP always jumps.
/// Both take their operands off the stack.
pub proof fn law_jumpi_follows_condition(code: Seq<u8>, ctx: CtxView, m: MState, depth: nat, op: u8)
    requires
        op == 0x56 || op == 0x57,
        at_op(code, m, op, if op == 0x56 { 1nat } else { 2nat }),
        nth(m.stack, 0).value() <= usize::MAX,
    ensures
        ({
            let k: nat = if op == 0x56 { 1 } else { 2 };
            let t = nth(m.stack, 0).value();
            let taken = op == 0x56 || nth(m.stack, 1).value() != 0;
            let out = spec_step(code, ctx, m, depth);
            &&& !taken ==> out is Next && next_state(out) == MState {
                stack: drop_top(m.stack, k),
                pc: m.pc + 1,
                ..m
            }
            &&& taken && is_jumpdest(code, t) ==> out is Next && next_state(out) == MState {
                stack: drop_top(m.stack, k),
                pc: t,
                ..m
            }
            &&& taken && !is_jumpdest(code, t) ==> out is Invalid
        }),
{
    assert(spec_step(code, ctx, m, depth) == step_jump(code, m, op));
}

/// The context a CALL hands to its callee: the callee's address is the
/// called one, its caller is the calling contract, no value is sent, the
/// call data are the argument bytes of memory, and the transaction origin,
/// gas price, block and world state are the caller's own.
pub proof fn law_call_context(ctx: CtxView, m: MState)
    requires
        m.stack.len() >= 7,
        fits(m.stack, 3),
        fits(m.stack, 4),
        mem_end(nth(m.stack, 3).value(), nth(m.stack, 4).value()) is Some,
    ensures
        ({
            let c = callee_ctx(ctx, m);
            let a_off = nth(m.stack, 3).value();
            let a_size = nth(m.stack, 4).value();
            &&& c.tx.origin == ctx.tx.origin
            &&& c.tx.from == ctx.tx.to
            &&& c.tx.to == Some(nth(m.stack, 1))
            &&& c.tx.value is None
            &&& c.tx.gasprice == ctx.tx.gasprice
            &&& c.block == ctx.block
            &&& c.accounts == ctx.accounts
            &&& c.tx.data is Some
            &&& c.tx.data.unwrap().len() == a_size
            &&& forall|i: nat| i < a_size ==> c.tx.data.unwrap()[i as int] == byte_before(m, a_off + i)
        }),
{
    let a_off = nth(m.stack, 3).value();
    let a_size = nth(m.stack, 4).value();
    crate::machine::lemma_mem_end(a_off, a_size);
    let t = mem_end(a_off, a_size).unwrap();
    assert forall|i: nat| i < a_size implies call_data(m)[i as int] == byte_before(m, a_off + i) by {
        crate::run_laws::lemma_expand_byte(m.memory, t, a_off + i);
    }
}

/// ADD, MUL and SUB wrap around 2^256: ADD and MUL push the exact sum and
/// product reduced modulo 2^256, and SUB pushes the word that, added to
/// the second operand, gives back the first.
pub proof fn law_wrapping_arith(code: Seq<u8>, ctx: CtxView, m: MState, depth: nat, op: u8)
    requires
        op == 0x01 || op == 0x02 || op == 0x03,
        at_op(code, m, op, 2),
    ensures
        ({
            let a = nth(m.stack, 0).value();
            let b = nth(m.stack, 1).value();
            let out = spec_step(code, ctx, m, depth);
            let r = top_after(out).value();
            &&& replaces_top(out, m, 2)
            &&& op == 0x01 ==> r == (a + b) % word_modulus()
            &&& op == 0x02 ==> r == (a * b) % word_modulus()
            &&& op == 0x03 ==> (r + b) % word_modulus() == a
        }),
{
    let a = nth(m.stack, 0).value();
    let b = nth(m.stack, 1).value();
    let md = word_modulus();
    lemma_binary_step(code, ctx, m, depth);
    crate::word::lemma_value_bound(nth(m.stack, 0));
    crate::word::lemma_value_bound(nth(m.stack, 1));
    lemma_value_word_of(a + b);
    lemma_value_word_of(a * b);
    lemma_value_word_of((a + md - b) as nat);
    if op == 0x03 {
        if a >= b {
            lemma_fundamental_div_mod_converse((a + md - b) as int, md as int, 1, a - b);
            lemma_fundamental_div_mod_converse(a as int, md as int, 0, a as int);
        } else {
            lemma_fundamental_div_mod_converse((a + md - b) as int, md as int, 0, a + md - b);
            lemma_fundamental_div_mod_converse((a + md) as int, md as int, 1, a as int);
        }
    }
}

/// DIV and MOD push the quotient and remainder of the exact division, or
/// 0 when dividing by zero; EXP pushes the power reduced modulo 2^256.
pub proof fn law_div_mod_exp(code: Seq<u8>, ctx: CtxView, m: MState, depth: nat, op: u8)
    requires
        op == 0x04 || op == 0x06 || op == 0x0a,
        at_op(code, m, op, 2),
    ensures
        ({
            let a = nth(m.stack, 0).value();
            let b = nth(m.stack, 1).value();
            let out = spec_step(code, ctx, m, depth);
            let r = top_after(out).value();
            &&& replaces_top(out, m, 2)
            &&& op == 0x04 && b == 0 ==> r == 0
            &&& op == 0x04 && b != 0 ==> r * b <= a < (r + 1) * b
            &&& op == 0x06 && b == 0 ==> r == 0
            &&& op == 0x06 && b != 0 ==> r < b && (a - r) % (b as int) == 0
            &&& op == 0x0a ==> r == vstd::arithmetic::power::pow(a as int, b) % (word_modulus() as int)
        }),
{
    let a = nth(m.stack, 0).value();
    let b = nth(m.stack, 1).value();
    lemma_binary_step(code, ctx, m, depth);
    crate::word::lemma_value_bound(nth(m.stack, 0));
    lemma_value_word_of_small(0);
    if b != 0 {
        let q = a / b;
        let rem = a % b;
        lemma_fundamental_div_mod(a as int, b as int);
        lemma_mod_bound(a as int, b as int);
        lemma_div_is_ordered_by_denominator(a as int, 1, b as int);
        lemma_value_word_of_small(q);
        lemma_value_word_of_small(rem);
        assert(q * b <= a < (q + 1) * b) by (nonlinear_arith)
            requires
                a == b * q + rem,
                0 <= rem < b,
        ;
        assert(a - rem == q * b) by (nonlinear_arith)
            requires
                a == b * q + rem,
        ;
        lemma_fundamental_div_mod_converse((a - rem) as int, b as int, q as int, 0);
    }
    vstd::arithmetic::div_mod::lemma_mod_bound(
        vstd::arithmetic::power::pow(a as int, b),
        word_modulus() as int,
    );
    lemma_value_word_of_small(
        (vstd::arithmetic::power::pow(a as int, b) % (word_modulus() as int)) as nat,
    );
}

/// LT, GT, SLT, SGT and EQ push 1 when the comparison holds and 0 when it
/// does not; LT and GT compare the unsigned values, SLT and SGT the
/// two's complement readings.
pub proof fn law_comparisons(code: Seq<u8>, ctx: CtxView, m: MState, depth: nat, op: u8)
    requires
        0x10 <= op <= 0x14,
        at_op(code, m, op, 2),
    ensures
        ({
            let a = nth(m.stack, 0);
            let b = nth(m.stack, 1);
            let holds = if op == 0x10 {
                a.value() < b.value()
            } else if op == 0x11 {
                a.value() > b.value()
            } else if op == 0x12 {
                a.signed() < b.signed()
            } else if op == 0x13 {
                a.signed() > b.signed()
            } else {
                a.value() == b.value()
            };
            let out = spec_step(code, ctx, m, depth);
            &&& replaces_top(out, m, 2)
            &&& top_after(out).value() == if holds { 1nat } else { 0nat }
        }),
{
    lemma_binary_step(code, ctx, m, depth);
    lemma_value_word_of_small(0);
    lemma_value_word_of_small(1);
    if nth(m.stack, 0).value() == nth(m.stack, 1).value() {
        crate::word::lemma_value_injective(nth(m.stack, 0), nth(m.stack, 1));
    }
}

/// ISZERO pushes 1 exactly for a zero operand and 0 otherwise; NOT pushes
/// the word that adds up with its operand to 2^256 - 1.
pub proof fn law_iszero_not(code: Seq<u8>, ctx: CtxView, m: MState, depth: nat, op: u8)
    requires
        op == 0x15 || op == 0x19,
        at_op(code, m, op, 1),
    ensures
        ({
            let a = nth(m.stack, 0).value();
            let out = spec_step(code, ctx, m, depth);
            let r = top_after(out).value();
            &&& replaces_top(out, m, 1)
            &&& op == 0x15 ==> r == if a == 0 { 1nat } else { 0nat }
            &&& op == 0x19 ==> r + a == word_modulus() - 1
        }),
{
    assert(is_arith(op));
    assert(spec_step(code, ctx, m, depth) == step_arith(m, op));
    lemma_replace_top(m, 1, crate::semantics::unary_op(op, nth(m.stack, 0)));
    lemma_value_word_of_small(0);
    lemma_value_word_of_small(1);
    crate::word::lemma_not_value(nth(m.stack, 0));
}

/// SHL pushes the value times 2^shift, reduced modulo 2^256, for a shift
/// below 256, and 0 from 256 on.
pub proof fn law_shl_multiplies(code: Seq<u8>, ctx: CtxView, m: MState, depth: nat)
    requires
        at_op(code, m, 0x1b, 2),
        nth(m.stack, 0).value() <= usize::MAX,
    ensures
        ({
            let s = nth(m.stack, 0).value();
            let v = nth(m.stack, 1).value();
            let out = spec_step(code, ctx, m, depth);
            &&& replaces_top(out, m, 2)
            &&& s < 256 ==> top_after(out).value() == (v * pow2(s)) % word_modulus()
            &&& s >= 256 ==> top_after(out).value() == 0
        }),
{
    let s = nth(m.stack, 0).value();
    let v = nth(m.stack, 1).value();
    lemma_binary_step(code, ctx, m, depth);
    lemma_value_word_of(v * pow2(s));
    lemma_value_word_of_small(0);
}

/// SAR divides the value read as a signed number by 2^shift, rounding
/// down, for every shift.
pub proof fn law_sar_step(code: Seq<u8>, ctx: CtxView, m: MState, depth: nat)
    requires
        at_op(code, m, 0x1d, 2),
    ensures
        ({
            let s = nth(m.stack, 0).value();
            let v = nth(m.stack, 1);
            let out = spec_step(code, ctx, m, depth);
            &&& replaces_top(out, m, 2)
            &&& top_after(out).signed() == v.signed() / (pow2(s) as int)
        }),
{
    lemma_binary_step(code, ctx, m, depth);
    crate::laws::law_sar_is_floor_division(nth(m.stack, 0), nth(m.stack, 1));
}

/// SDIV divides the signed readings rounding towards zero and SMOD gives
/// the remainder with the sign of the dividend; both push 0 for a zero
/// divisor. The one quotient that does not fit, the least word divided by
/// minus one, is left out.
pub proof fn law_sdiv_smod_step(code: Seq<u8>, ctx: CtxView, m: MState, depth: nat, op: u8)
    requires
        op == 0x05 || op == 0x07,
        at_op(code, m, op, 2),
    ensures
        ({
            let a = nth(m.stack, 0);
            let b = nth(m.stack, 1);
            let out = spec_step(code, ctx, m, depth);
            let r = top_after(out);
            &&& replaces_top(out, m, 2)
            &&& b.value() == 0 ==> r.value() == 0
            &&& op == 0x05 && b.value() != 0 && !(a.value() == sign_threshold() && b.value()
                == word_modulus() - 1) ==> r.signed() == crate::laws::quot_toward_zero(
                a.signed(),
                b.signed(),
            )
            &&& op == 0x07 && b.value() != 0 ==> r.signed() == crate::laws::rem_toward_zero(
                a.signed(),
                b.signed(),
            )
        }),
{
    let a = nth(m.stack, 0);
    let b = nth(m.stack, 1);
    lemma_binary_step(code, ctx, m, depth);
    lemma_value_word_of_small(0);
    if b.value() != 0 {
        if !(a.value() == sign_threshold() && b.value() == word_modulus() - 1) {
            crate::laws::law_sdiv_rounds_toward_zero(a, b);
        }
        crate::laws::law_smod_has_sign_of_dividend(a, b);
    }
}

/// Byte `j` of `v` written as `n` bytes, most significant first.
pub open spec fn byte_at(v: nat, n: nat, j: nat) -> nat {
    (v / pow2(8 * ((n - 1 - j) as nat))) % 256
}

/// BYTE with an index below 32 pushes that byte of the value, counting
/// from the most significant; with any larger index it pushes 0.
pub proof fn law_byte_picks_byte(code: Seq<u8>, ctx: CtxView, m: MState, depth: nat)
    requires
        at_op(code, m, 0x1a, 2),
    ensures
        ({
            let i = nth(m.stack, 0).value();
            let x = nth(m.stack, 1).value();
            let out = spec_step(code, ctx, m, depth);
            &&& replaces_top(out, m, 2)
            &&& i < 32 ==> top_after(out).value() == byte_at(x, 32, i)
            &&& i >= 32 ==> top_after(out).value() == 0
        }),
{
    let i = nth(m.stack, 0).value();
    let x = nth(m.stack, 1).value();
    lemma_binary_step(code, ctx, m, depth);
    lemma_value_word_of_small(0);
    if i < 32 {
        lemma_to_be_bytes_index(x, 32, i);
        lemma_value_word_of_small(word_bytes(nth(m.stack, 1))[i as int] as nat);
    }
}

/// PUSH0 to PUSH32 push the `n` code bytes after the opcode as one
/// number, most significant byte first, and go on after them; push data
/// running past the end of the code cannot be carried out.
pub proof fn law_push_reads_code(code: Seq<u8>, ctx: CtxView, m: MState, depth: nat, op: u8)
    requires
        0x5f <= op <= 0x7f,
        at_op(code, m, op, 0),
    ensures
        ({
            let n: nat = (op - 0x5f) as nat;
            let out = spec_step(code, ctx, m, depth);
            let w = top_after(out);
            &&& m.pc + 1 + n > code.len() ==> out is Fault
            &&& m.pc + 1 + n <= code.len() ==> {
                &&& out is Next
                &&& next_state(out) == MState { stack: m.stack.push(w), pc: m.pc + 1 + n, ..m }
                &&& w.value() < pow2(8 * n)
                &&& forall|j: nat|
                    j < n ==> #[trigger] byte_at(w.value(), n, j) == code[m.pc + 1 + j as int]
            }
        }),
{
    let n: nat = (op - 0x5f) as nat;
    assert(spec_step(code, ctx, m, depth) == crate::semantics::step_push(code, m, op));
    if m.pc + 1 + n <= code.len() {
        let d = code.subrange((m.pc + 1) as int, (m.pc + 1 + n) as int);
        lemma_be_value_word_bound(d);
        lemma_be_value_bound(d);
        lemma_value_word_of_small(be_value(d));
        let w = top_after(spec_step(code, ctx, m, depth));
        assert(w == word_of(be_value(d)));
        assert forall|j: nat| j < n implies #[trigger] byte_at(w.value(), n, j) == code[m.pc + 1
            + j as int] by {
            lemma_be_value_byte(d, j);
        }
    }
}

/// The byte at `i` of optional call data, 0 past its end or when there is
/// none.
pub open spec fn data_byte(data: Option<Seq<u8>>, i: nat) -> u8 {
    match data {
        Some(d) => if i < d.len() {
            d[i as int]
        } else {
            0
        },
        None => 0,
    }
}

/// CALLDATALOAD pushes the 32 bytes of call data from the offset on, most
/// significant first, reading 0 past the end of the data.
pub proof fn law_calldataload(code: Seq<u8>, ctx: CtxView, m: MState, depth: nat)
    requires
        at_op(code, m, 0x35, 1),
    ensures
        ({
            let o = nth(m.stack, 0).value();
            let out = spec_step(code, ctx, m, depth);
            &&& replaces_top(out, m, 1)
            &&& forall|j: nat|
                j < 32 ==> #[trigger] byte_at(top_after(out).value(), 32, j) == data_byte(
                    ctx.tx.data,
                    o + j,
                )
        }),
{
    let o = nth(m.stack, 0).value();
    let w = crate::semantics::calldata_word(ctx.tx.data, nth(m.stack, 0));
    assert(spec_step(code, ctx, m, depth) == crate::semantics::step_state(ctx, m, 0x35));
    lemma_replace_top(m, 1, w);
    match ctx.tx.data {
        Some(d) => if o < d.len() {
            let pd = copy_padded(d, o, 32);
            lemma_be_value_word_bound(pd);
            lemma_value_word_of_small(be_value(pd));
            assert forall|j: nat| j < 32 implies #[trigger] byte_at(w.value(), 32, j) == data_byte(
                ctx.tx.data,
                o + j,
            ) by {
                lemma_be_value_byte(pd, j);
            }
        } else {
            lemma_value_word_of_small(0);
            assert forall|j: nat| j < 32 implies #[trigger] byte_at(w.value(), 32, j) == data_byte(
                ctx.tx.data,
                o + j,
            ) by {
                lemma_pow2_pos(8 * ((31 - j) as nat));
            }
        },
        None => {
            lemma_value_word_of_small(0);
            assert forall|j: nat| j < 32 implies #[trigger] byte_at(w.value(), 32, j) == data_byte(
                ctx.tx.data,
                o + j,
            ) by {
                lemma_pow2_pos(8 * ((31 - j) as nat));
            }
        },
    }
}

/// MLOAD pushes the 32 memory bytes from the offset on, most significant
/// first, reading 0 past the old end, and grows memory to cover them.
pub proof fn law_mload_reads_memory(code: Seq<u8>, ctx: CtxView, m: MState, depth: nat)
    requires
        at_op(code, m, 0x51, 1),
        nth(m.stack, 0).value() + 63 <= usize::MAX,
    ensures
        ({
            let o = nth(m.stack, 0).value();
            let out = spec_step(code, ctx, m, depth);
            &&& out is Next
            &&& next_state(out).stack == drop_top(m.stack, 1).push(top_after(out))
            &&& next_state(out).memory.len() >= o + 32
            &&& forall|j: nat|
                j < 32 ==> #[trigger] byte_at(top_after(out).value(), 32, j) == byte_before(m, o + j)
        }),
{
    let o = nth(m.stack, 0).value();
    assert(spec_step(code, ctx, m, depth) == crate::semantics::step_mem(m, 0x51));
    crate::machine::lemma_mem_end(o, 32);
    let t = mem_end(o, 32).unwrap();
    let mem = crate::semantics::expand(m.memory, t);
    let d = mem.subrange(o as int, (o + 32) as int);
    lemma_be_value_word_bound(d);
    lemma_value_word_of_small(be_value(d));
    assert forall|j: nat| j < 32 implies #[trigger] byte_at(
        top_after(spec_step(code, ctx, m, depth)).value(),
        32,
        j,
    ) == byte_before(m, o + j) by {
        lemma_be_value_byte(d, j);
        crate::run_laws::lemma_expand_byte(m.memory, t, o + j);
    }
}

/// MSTORE writes the 32 bytes of its value at the offset, most significant
/// first, and MSTORE8 writes the value's low byte; both take their two
/// operands and grow memory to cover what they write.
pub proof fn law_mstore_writes_bytes(code: Seq<u8>, ctx: CtxView, m: MState, depth: nat, op: u8)
    requires
        op == 0x52 || op == 0x53,
        at_op(code, m, op, 2),
        nth(m.stack, 0).value() + 63 <= usize::MAX,
    ensures
        ({
            let o = nth(m.stack, 0).value();
            let v = nth(m.stack, 1).value();
            let out = spec_step(code, ctx, m, depth);
            let mem = next_state(out).memory;
            &&& out is Next
            &&& next_state(out).stack == drop_top(m.stack, 2)
            &&& next_state(out).pc == m.pc + 1
            &&& op == 0x52 ==> mem.len() >= o + 32 && forall|j: nat|
                j < 32 ==> mem[(o + j) as int] == #[trigger] byte_at(v, 32, j)
            &&& op == 0x53 ==> mem.len() >= o + 1 && mem[o as int] == v % 256
        }),
{
    let o = nth(m.stack, 0).value();
    let v = nth(m.stack, 1).value();
    assert(spec_step(code, ctx, m, depth) == crate::semantics::step_mem(m, op));
    let width: nat = if op == 0x53 { 1 } else { 32 };
    crate::machine::lemma_mem_end(o, width);
    let t = mem_end(o, width).unwrap();
    let mem = crate::semantics::expand(m.memory, t);
    crate::run_laws::lemma_expand_byte(m.memory, t, 0);
    if op == 0x52 {
        crate::bytes::lemma_be_value_word_bytes(nth(m.stack, 1));
        assert forall|j: nat| j < 32 implies crate::semantics::mem_write(
            mem,
            o,
            word_bytes(nth(m.stack, 1)),
        )[(o + j) as int] == #[trigger] byte_at(v, 32, j) by {
            lemma_to_be_bytes_index(v, 32, j);
        }
    }
}

/// POP takes the top word off (and does nothing on an empty stack); DUPn
/// pushes a copy of the `n`-th word from the top; SWAPn exchanges the top
/// word with the one `n` below it and leaves every other word in place.
/// DUPn and SWAPn without enough words cannot be carried out.
pub proof fn law_stack_shuffles(code: Seq<u8>, ctx: CtxView, m: MState, depth: nat, op: u8)
    requires
        op == 0x50 || 0x80 <= op <= 0x9f,
        at_op(code, m, op, 0),
    ensures
        ({
            let s = m.stack;
            let out = spec_step(code, ctx, m, depth);
            let s2 = next_state(out).stack;
            &&& op == 0x50 ==> out is Next && s2 == (if s.len() > 0 {
                drop_top(s, 1)
            } else {
                s
            })
            &&& 0x80 <= op <= 0x8f && s.len() < (op - 0x7f) ==> out is Fault
            &&& 0x80 <= op <= 0x8f && s.len() >= (op - 0x7f) ==> out is Next && s2 == s.push(
                nth(s, (op - 0x80) as nat),
            )
            &&& 0x90 <= op <= 0x9f && s.len() < (op - 0x8f) + 1 ==> out is Fault
            &&& 0x90 <= op <= 0x9f && s.len() >= (op - 0x8f) + 1 ==> {
                let n: nat = (op - 0x8f) as nat;
                &&& out is Next
                &&& s2.len() == s.len()
                &&& nth(s2, 0) == nth(s, n)
                &&& nth(s2, n) == nth(s, 0)
                &&& forall|i: nat| i < s.len() && i != 0 && i != n ==> #[trigger] nth(s2, i) == nth(s, i)
            }
            &&& out is Next ==> next_state(out) == MState { stack: s2, pc: m.pc + 1, ..m }
        }),
{
    assert(spec_step(code, ctx, m, depth) == crate::semantics::step_shuffle(m, op));
    if op == 0x50 && m.stack.len() > 0 {
        assert(m.stack.drop_last() =~= drop_top(m.stack, 1));
    }
}

/// The value of an optional word, 0 when there is none.
pub open spec fn opt_value(w: Option<Word>) -> nat {
    match w {
        Some(x) => x.value(),
        None => 0,
    }
}

/// The word each environment instruction pushes, as a number: ADDRESS,
/// ORIGIN, CALLER, CALLVALUE and GASPRICE the transaction's fields, the
/// block instructions the block's fields (0 where a field is missing),
/// CALLDATASIZE, CODESIZE, PC and MSIZE the sizes and position, GAS the
/// largest word. Each pushes one word and changes nothing else.
pub proof fn law_environment_words(code: Seq<u8>, ctx: CtxView, m: MState, depth: nat, op: u8)
    requires
        crate::semantics::is_env(op),
        op != 0x40,
        op != 0x5b,
        at_op(code, m, op, 0),
    ensures
        ({
            let out = spec_step(code, ctx, m, depth);
            let w = top_after(out).value();
            let md = word_modulus();
            &&& out is Next
            &&& next_state(out) == MState { stack: m.stack.push(top_after(out)), pc: m.pc + 1, ..m }
            &&& op == 0x30 ==> w == opt_value(ctx.tx.to)
            &&& op == 0x32 ==> w == opt_value(ctx.tx.origin)
            &&& op == 0x33 ==> w == opt_value(ctx.tx.from)
            &&& op == 0x34 ==> w == opt_value(ctx.tx.value)
            &&& op == 0x36 ==> w == match ctx.tx.data {
                Some(d) => d.len() % md,
                None => 0,
            }
            &&& op == 0x38 ==> w == code.len() % md
            &&& op == 0x3a ==> w == opt_value(ctx.tx.gasprice)
            &&& op == 0x41 ==> w == opt_value(ctx.block.coinbase)
            &&& op == 0x42 ==> w == opt_value(ctx.block.timestamp)
            &&& op == 0x43 ==> w == opt_value(ctx.block.number)
            &&& op == 0x44 ==> w == opt_value(ctx.block.difficulty)
            &&& op == 0x45 ==> w == opt_value(ctx.block.gaslimit)
            &&& op == 0x46 ==> w == opt_value(ctx.block.chainid)
            &&& op == 0x48 ==> w == opt_value(ctx.block.basefee)
            &&& op == 0x58 ==> w == m.pc % md
            &&& op == 0x59 ==> w == m.memory.len() % md
            &&& op == 0x5a ==> w == md - 1
        }),
{
    assert(spec_step(code, ctx, m, depth) == crate::semantics::step_env(code, ctx, m, op));
    lemma_value_word_of_small(0);
    lemma_value_word_of_small((word_modulus() - 1) as nat);
    lemma_value_word_of(code.len());
    lemma_value_word_of(m.pc);
    lemma_value_word_of(m.memory.len());
    match ctx.tx.data {
        Some(d) => lemma_value_word_of(d.len()),
        None => {},
    }
}

/// BLOCKHASH and JUMPDEST only move on to the next instruction.
pub proof fn law_blockhash_jumpdest_do_nothing(
    code: Seq<u8>,
    ctx: CtxView,
    m: MState,
    depth: nat,
    op: u8,
)
    requires
        op == 0x40 || op == 0x5b,
        at_op(code, m, op, 0),
    ensures
        spec_step(code, ctx, m, depth) == StepOut::Next(MState { pc: m.pc + 1, ..m }),
{
    assert(spec_step(code, ctx, m, depth) == crate::semantics::step_env(code, ctx, m, op));
}

/// The bytes `data` hold the `size` bytes of memory from `offset` on,
/// reading 0 past its end.
pub open spec fn holds_memory(data: Seq<u8>, m: MState, offset: nat, size: nat) -> bool {
    &&& data.len() == size
    &&& forall|i: nat| i < size ==> #[trigger] data[i as int] == byte_before(m, offset + i)
}

/// How a run ends at an instruction that ends it, or at the end of the
/// code: STOP and the end of the code succeed with the stack listed from
/// the top down and no data; RETURN succeeds and REVERT fails, each with
/// the memory range as data and the stack left after taking the range,
/// listed from the bottom up; an opcode the machine does not know fails
/// with the stack as it is and no data. The logs are those emitted so far.
pub proof fn law_run_endings(code: Seq<u8>, ctx: CtxView, m: MState, depth: nat, fuel: nat)
    requires
        fuel > 0,
    ensures
        ({
            let r = spec_run(code, ctx, m, depth, fuel);
            let s = m.stack;
            let op = code[m.pc as int];
            let off = nth(s, 0).value();
            let size = nth(s, 1).value();
            &&& (m.pc >= code.len() || op == 0x00) ==> r is Done && r->Done_0.success
                && r->Done_0.stack.len() == s.len() && (forall|i: int|
                0 <= i < s.len() ==> #[trigger] r->Done_0.stack[i] == s[s.len() - 1 - i])
                && r->Done_0.logs == m.logs && r->Done_0.ret.len() == 0
            &&& m.pc < code.len() && (op == 0xf3 || op == 0xfd) && s.len() >= 2 && off
                <= usize::MAX && size <= usize::MAX && mem_end(off, size) is Some ==> {
                &&& r is Done
                &&& r->Done_0.success == (op == 0xf3)
                &&& r->Done_0.stack == drop_top(s, 2)
                &&& r->Done_0.logs == m.logs
                &&& holds_memory(r->Done_0.ret, m, off, size)
            }
            &&& m.pc < code.len() && (op == 0x0c || op == 0xfe || op == 0xff) ==> r
                == RunOut::Done(
                ResultView { stack: s, success: false, logs: m.logs, ret: Seq::empty() },
            )
        }),
{
    let s = m.stack;
    if m.pc < code.len() {
        let op = code[m.pc as int];
        if op == 0xf3 || op == 0xfd {
            assert(spec_step(code, ctx, m, depth) == crate::semantics::step_range(ctx, m, op));
            let off = nth(s, 0).value();
            let size = nth(s, 1).value();
            if s.len() >= 2 && off <= usize::MAX && size <= usize::MAX && mem_end(off, size) is Some {
                crate::machine::lemma_mem_end(off, size);
                let t = mem_end(off, size).unwrap();
                assert forall|i: nat| i < size implies #[trigger] crate::semantics::expand(
                    m.memory,
                    t,
                ).subrange(off as int, (off + size) as int)[i as int] == byte_before(m, off + i) by {
                    crate::run_laws::lemma_expand_byte(m.memory, t, off + i);
                }
            }
        }
    }
}

/// LOG0 to LOG4 append one log: the executing address (0 without one),
/// the memory range as data and the next `n` words as topics, in stack
/// order; they take `2 + n` words and change nothing else but memory,
/// which grows to cover the range.
pub proof fn law_log_appends(code: Seq<u8>, ctx: CtxView, m: MState, depth: nat, op: u8)
    requires
        0xa0 <= op <= 0xa4,
        at_op(code, m, op, (2 + (op - 0xa0)) as nat),
        nth(m.stack, 0).value() <= usize::MAX,
        nth(m.stack, 1).value() <= usize::MAX,
        mem_end(nth(m.stack, 0).value(), nth(m.stack, 1).value()) is Some,
    ensures
        ({
            let n: nat = (op - 0xa0) as nat;
            let s = m.stack;
            let out = spec_step(code, ctx, m, depth);
            let m2 = next_state(out);
            let l = m2.logs.last();
            &&& out is Next
            &&& m2.stack == drop_top(s, 2 + n)
            &&& m2.pc == m.pc + 1
            &&& m2.storage == m.storage
            &&& m2.logs.len() == m.logs.len() + 1
            &&& m2.logs.drop_last() == m.logs
            &&& l.address.value() == opt_value(ctx.tx.to)
            &&& holds_memory(l.data, m, nth(s, 0).value(), nth(s, 1).value())
            &&& l.topics.len() == n
            &&& forall|i: nat| i < n ==> #[trigger] l.topics[i as int] == nth(s, 2 + i)
        }),
{
    let s = m.stack;
    let off = nth(s, 0).value();
    let size = nth(s, 1).value();
    assert(spec_step(code, ctx, m, depth) == crate::semantics::step_range(ctx, m, op));
    crate::machine::lemma_mem_end(off, size);
    let t = mem_end(off, size).unwrap();
    lemma_value_word_of_small(0);
    let m2 = next_state(spec_step(code, ctx, m, depth));
    assert(m2.logs.drop_last() =~= m.logs);
    assert forall|i: nat| i < size implies #[trigger] crate::semantics::expand(m.memory, t).subrange(
        off as int,
        (off + size) as int,
    )[i as int] == byte_before(m, off + i) by {
        crate::run_laws::lemma_expand_byte(m.memory, t, off + i);
    }
}

/// SLOAD pushes the word stored under its key, 0 if none is; SSTORE
/// stores its second operand under its first and changes nothing else.
pub proof fn law_storage_step(code: Seq<u8>, ctx: CtxView, m: MState, depth: nat, op: u8)
    requires
        op == 0x54 || op == 0x55,
        at_op(code, m, op, if op == 0x54 { 1nat } else { 2nat }),
    ensures
        ({
            let s = m.stack;
            let key = nth(s, 0);
            let out = spec_step(code, ctx, m, depth);
            &&& op == 0x54 ==> replaces_top(out, m, 1) && top_after(out).value() == if m.storage.contains_key(key) {
                m.storage[key].value()
            } else {
                0
            }
            &&& op == 0x55 ==> out == StepOut::Next(
                MState {
                    stack: drop_top(s, 2),
                    storage: m.storage.insert(key, nth(s, 1)),
                    pc: m.pc + 1,
                    ..m
                },
            )
        }),
{
    assert(spec_step(code, ctx, m, depth) == crate::semantics::step_state(ctx, m, op));
    lemma_value_word_of_small(0);
    let key = nth(m.stack, 0);
    lemma_replace_top(
        m,
        1,
        if m.storage.contains_key(key) { m.storage[key] } else { word_of(0) },
    );
}

/// The balance of the account at `address` as a number, 0 without one.
pub open spec fn balance_value(ctx: CtxView, address: Word) -> nat {
    if ctx.accounts.contains_key(address) {
        opt_value(ctx.accounts[address].balance)
    } else {
        0
    }
}

/// BALANCE pushes the balance of the account on top of the stack and
/// SELFBALANCE that of the executing account; EXTCODESIZE pushes the size
/// of the account's code and EXTCODEHASH its Keccak-256 hash; each gives 0
/// for a missing account, balance or code.
pub proof fn law_account_queries(code: Seq<u8>, ctx: CtxView, m: MState, depth: nat, op: u8)
    requires
        op == 0x31 || op == 0x47 || op == 0x3b || op == 0x3f,
        at_op(code, m, op, if op == 0x47 { 0nat } else { 1nat }),
    ensures
        ({
            let a = nth(m.stack, 0);
            let out = spec_step(code, ctx, m, depth);
            let w = top_after(out).value();
            let c = crate::context::code_of(ctx.accounts, a);
            &&& op == 0x47 ==> out is Next && next_state(out) == MState {
                stack: m.stack.push(top_after(out)),
                pc: m.pc + 1,
                ..m
            } && w == balance_value(
                ctx,
                match ctx.tx.to {
                    Some(x) => x,
                    None => word_of(0),
                },
            )
            &&& op != 0x47 ==> replaces_top(out, m, 1)
            &&& op == 0x31 ==> w == balance_value(ctx, a)
            &&& op == 0x3b ==> w == match c {
                Some(k) => k.len() % word_modulus(),
                None => 0,
            }
            &&& op == 0x3f ==> w == match c {
                Some(k) => be_value(crate::keccak::keccak256_digest(k)) % word_modulus(),
                None => 0,
            }
        }),
{
    assert(spec_step(code, ctx, m, depth) == crate::semantics::step_state(ctx, m, op));
    lemma_value_word_of_small(0);
    if op != 0x47 {
        lemma_replace_top(m, 1, crate::semantics::account_word(ctx, op, nth(m.stack, 0)));
    }
    match crate::context::code_of(ctx.accounts, nth(m.stack, 0)) {
        Some(k) => {
            lemma_value_word_of(k.len());
            lemma_value_word_of(be_value(crate::keccak::keccak256_digest(k)));
        },
        None => {},
    }
}

/// SHA3 over a non-empty memory pushes the Keccak-256 hash of the memory
/// range, read as a number, and grows memory to cover the range.
pub proof fn law_sha3_hashes_memory(code: Seq<u8>, ctx: CtxView, m: MState, depth: nat)
    requires
        at_op(code, m, 0x20, 2),
        m.memory.len() > 0,
        nth(m.stack, 0).value() <= usize::MAX,
        nth(m.stack, 1).value() <= usize::MAX,
        mem_end(nth(m.stack, 0).value(), nth(m.stack, 1).value()) is Some,
    ensures
        ({
            let off = nth(m.stack, 0).value();
            let size = nth(m.stack, 1).value();
            let out = spec_step(code, ctx, m, depth);
            &&& out is Next
            &&& next_state(out).stack == drop_top(m.stack, 2).push(top_after(out))
            &&& next_state(out).memory.len() >= off + size
            &&& next_state(out).pc == m.pc + 1
            &&& forall|d: Seq<u8>|
                #[trigger] holds_memory(d, m, off, size) ==> top_after(out).value() == be_value(
                    crate::keccak::keccak256_digest(d),
                ) % word_modulus()
        }),
{
    let off = nth(m.stack, 0).value();
    let size = nth(m.stack, 1).value();
    assert(spec_step(code, ctx, m, depth) == crate::semantics::step_range(ctx, m, 0x20));
    crate::machine::lemma_mem_end(off, size);
    let t = mem_end(off, size).unwrap();
    let data = crate::semantics::expand(m.memory, t).subrange(off as int, (off + size) as int);
    lemma_value_word_of(be_value(crate::keccak::keccak256_digest(data)));
    assert forall|d: Seq<u8>| #[trigger] holds_memory(d, m, off, size) implies d == data by {
        assert forall|i: int| 0 <= i < size implies d[i] == data[i] by {
            assert(d[(i as nat) as int] == byte_before(m, off + (i as nat)));
            crate::run_laws::lemma_expand_byte(m.memory, t, off + (i as nat));
        }
        assert(d =~= data);
    }
}

/// CALLDATACOPY, CODECOPY and EXTCODECOPY write `size` bytes of their
/// source (call data, the running code, or the account's code) from the
/// given offset into memory at the destination, zero past the source's
/// end, and take their operands; EXTCODECOPY of an address without code
/// only takes its operands.
pub proof fn law_copies_write_source(code: Seq<u8>, ctx: CtxView, m: MState, depth: nat, op: u8)
    requires
        op == 0x37 || op == 0x39 || op == 0x3c,
        at_op(code, m, op, if op == 0x3c { 4nat } else { 3nat }),
        ({
            let k: nat = if op == 0x3c { 1 } else { 0 };
            &&& nth(m.stack, k).value() <= usize::MAX
            &&& nth(m.stack, k + 1).value() <= usize::MAX
            &&& nth(m.stack, k + 2).value() <= usize::MAX
            &&& mem_end(nth(m.stack, k).value(), nth(m.stack, k + 2).value()) is Some
            &&& !crate::semantics::copy_overflows(nth(m.stack, k + 1).value(), nth(m.stack, k + 2).value())
        }),
    ensures
        ({
            let k: nat = if op == 0x3c { 1 } else { 0 };
            let dest = nth(m.stack, k).value();
            let offset = nth(m.stack, k + 1).value();
            let size = nth(m.stack, k + 2).value();
            let src: Option<Seq<u8>> = if op == 0x37 {
                Some(
                    match ctx.tx.data {
                        Some(d) => d,
                        None => Seq::empty(),
                    },
                )
            } else if op == 0x39 {
                Some(code)
            } else {
                crate::context::code_of(ctx.accounts, nth(m.stack, 0))
            };
            let out = spec_step(code, ctx, m, depth);
            let m2 = next_state(out);
            &&& out is Next
            &&& m2.stack == drop_top(m.stack, 3 + k)
            &&& m2.pc == m.pc + 1
            &&& m2.storage == m.storage
            &&& m2.logs == m.logs
            &&& src is None ==> m2.memory == m.memory
            &&& src is Some ==> m2.memory.len() >= dest + size && forall|i: nat|
                i < size ==> #[trigger] m2.memory[(dest + i) as int] == if offset + i
                    < src.unwrap().len() {
                    src.unwrap()[(offset + i) as int]
                } else {
                    0u8
                }
        }),
{
    assert(spec_step(code, ctx, m, depth) == crate::semantics::step_copy(code, ctx, m, op));
    let k: nat = if op == 0x3c { 1 } else { 0 };
    let dest = nth(m.stack, k).value();
    let size = nth(m.stack, k + 2).value();
    crate::machine::lemma_mem_end(dest, size);
}

/// Bit `i` of `v`, counting from the least significant.
pub open spec fn bit(v: nat, i: nat) -> bool {
    (v / pow2(i)) % 2 == 1
}

/// Limb `k` of a word, 0 the least significant.
spec fn limb(w: Word, k: nat) -> u64 {
    if k == 0 {
        w.l0
    } else if k == 1 {
        w.l1
    } else if k == 2 {
        w.l2
    } else {
        w.l3
    }
}

proof fn lemma_bit_of_sum(lo: nat, x: nat, hi: nat, e: nat, r: nat)
    requires
        lo < pow2(e),
        r < 64,
    ensures
        bit(lo + pow2(e) * (x + pow2(64) * hi), e + r) == bit(x, r),
{
    let p = pow2(e) as int;
    let q = pow2(r) as int;
    let b = pow2(64) as int;
    let f = pow2((63 - r) as nat) as int;
    lemma_pow2_pos(e);
    lemma_pow2_pos(r);
    lemma_pow2_pos((63 - r) as nat);
    vstd::arithmetic::power2::lemma_pow2_adds(e, r);
    vstd::arithmetic::power2::lemma_pow2_adds(r, (64 - r) as nat);
    lemma_pow2_unfold((64 - r) as nat);
    assert(b == q * (2 * f));
    let v = lo + p * (x + b * hi);
    let mid = x + b * hi;
    lemma_fundamental_div_mod_converse(v, p, mid, lo as int);
    vstd::arithmetic::div_mod::lemma_div_denominator(v, p, q);
    let xq = x as int / q;
    let xr = x as int % q;
    lemma_fundamental_div_mod(x as int, q);
    lemma_mod_bound(x as int, q);
    assert(mid == q * (xq + 2 * f * hi) + xr) by (nonlinear_arith)
        requires
            mid == x + b * hi,
            x == q * xq + xr,
            b == q * (2 * f),
    ;
    lemma_fundamental_div_mod_converse(mid, q, xq + 2 * f * hi, xr);
    let h = xq / 2;
    let t = xq % 2;
    lemma_fundamental_div_mod(xq, 2);
    lemma_mod_bound(xq, 2);
    assert(xq + 2 * f * hi == 2 * (h + f * hi) + t) by (nonlinear_arith)
        requires
            xq == 2 * h + t,
    ;
    lemma_fundamental_div_mod_converse(xq + 2 * f * hi, 2, h + f * hi, t);
    assert(p * q == pow2(e + r));
}

/// Bit `i` of a word is bit `i mod 64` of limb `i / 64`.
proof fn lemma_word_bit(w: Word, i: nat)
    requires
        i < 256,
    ensures
        bit(w.value(), i) == bit(limb(w, i / 64) as nat, i % 64),
{
    let b = pow2(64);
    vstd::arithmetic::power2::lemma2_to64();
    vstd::arithmetic::power2::lemma_pow2_adds(64, 64);
    vstd::arithmetic::power2::lemma_pow2_adds(128, 64);
    let (l0, l1, l2, l3) = (w.l0 as nat, w.l1 as nat, w.l2 as nat, w.l3 as nat);
    let k = i / 64;
    let r = i % 64;
    if k == 0 {
        assert(w.value() == 0 + pow2(0) * (l0 + b * (l1 + b * (l2 + b * l3))));
        lemma_bit_of_sum(0, l0, l1 + b * (l2 + b * l3), 0, r);
    } else if k == 1 {
        assert(w.value() == l0 + pow2(64) * (l1 + b * (l2 + b * l3)));
        lemma_bit_of_sum(l0, l1, l2 + b * l3, 64, r);
    } else if k == 2 {
        assert(w.value() == (l0 + b * l1) + pow2(128) * (l2 + b * l3));
        lemma_bit_of_sum(l0 + b * l1, l2, l3, 128, r);
    } else {
        assert(w.value() == (l0 + b * l1 + pow2(128) * l2) + pow2(192) * (l3 + b * 0));
        lemma_bit_of_sum(l0 + b * l1 + pow2(128) * l2, l3, 0, 192, r);
    }
}

proof fn lemma_limb_bits(x: u64, y: u64, r: nat)
    requires
        r < 64,
    ensures
        bit((x & y) as nat, r) == (bit(x as nat, r) && bit(y as nat, r)),
        bit((x | y) as nat, r) == (bit(x as nat, r) || bit(y as nat, r)),
        bit((x ^ y) as nat, r) == (bit(x as nat, r) != bit(y as nat, r)),
{
    let rr = r as u64;
    vstd::bits::lemma_u64_shr_is_div(x, rr);
    vstd::bits::lemma_u64_shr_is_div(y, rr);
    vstd::bits::lemma_u64_shr_is_div(x & y, rr);
    vstd::bits::lemma_u64_shr_is_div(x | y, rr);
    vstd::bits::lemma_u64_shr_is_div(x ^ y, rr);
    assert(((x & y) >> rr) % 2 == 1 <==> ((x >> rr) % 2 == 1 && (y >> rr) % 2 == 1)) by (bit_vector)
        requires
            rr < 64,
    ;
    assert(((x | y) >> rr) % 2 == 1 <==> ((x >> rr) % 2 == 1 || (y >> rr) % 2 == 1)) by (bit_vector)
        requires
            rr < 64,
    ;
    assert(((x ^ y) >> rr) % 2 == 1 <==> ((x >> rr) % 2 == 1) != ((y >> rr) % 2 == 1)) by (bit_vector)
        requires
            rr < 64,
    ;
}

/// AND, OR and XOR work bit by bit: each of the 256 bits of the result is
/// the conjunction, disjunction or exclusive or of the operands' bits.
pub proof fn law_bitwise(code: Seq<u8>, ctx: CtxView, m: MState, depth: nat, op: u8)
    requires
        op == 0x16 || op == 0x17 || op == 0x18,
        at_op(code, m, op, 2),
    ensures
        ({
            let a = nth(m.stack, 0).value();
            let b = nth(m.stack, 1).value();
            let out = spec_step(code, ctx, m, depth);
            let r = top_after(out).value();
            &&& replaces_top(out, m, 2)
            &&& forall|i: nat|
                i < 256 ==> #[trigger] bit(r, i) == if op == 0x16 {
                    bit(a, i) && bit(b, i)
                } else if op == 0x17 {
                    bit(a, i) || bit(b, i)
                } else {
                    bit(a, i) != bit(b, i)
                }
        }),
{
    let a = nth(m.stack, 0);
    let b = nth(m.stack, 1);
    lemma_binary_step(code, ctx, m, depth);
    let w = top_after(spec_step(code, ctx, m, depth));
    assert forall|i: nat| i < 256 implies #[trigger] bit(w.value(), i) == if op == 0x16 {
        bit(a.value(), i) && bit(b.value(), i)
    } else if op == 0x17 {
        bit(a.value(), i) || bit(b.value(), i)
    } else {
        bit(a.value(), i) != bit(b.value(), i)
    } by {
        lemma_word_bit(w, i);
        lemma_word_bit(a, i);
        lemma_word_bit(b, i);
        lemma_limb_bits(limb(a, i / 64), limb(b, i / 64), i % 64);
    }
}

/// Where the instruction after the one at `i` starts: past the push data
/// of a PUSH1 to PUSH32, else at the next byte.
pub open spec fn next_instruction(code: Seq<u8>, i: nat) -> nat {
    if 0x60 <= code[i as int] <= 0x7f {
        (i + 1 + (code[i as int] - 0x5f)) as nat
    } else {
        i + 1
    }
}

/// Whether reading instructions one after another from `i` reaches an
/// instruction that starts at `t`, within the code.
pub open spec fn reaches_instruction(code: Seq<u8>, i: nat, t: nat) -> bool
    decreases code.len() - i,
{
    if i >= code.len() || t < i {
        false
    } else if i == t {
        true
    } else if next_instruction(code, i) >= code.len() {
        false
    } else {
        reaches_instruction(code, next_instruction(code, i), t)
    }
}

proof fn lemma_jumpdests_exact(code: Seq<u8>, i: nat, t: nat)
    ensures
        crate::semantics::jumpdests_from(code, i).contains(t) == (reaches_instruction(code, i, t)
            && code[t as int] == 0x5b),
    decreases code.len() - i,
{
    if i < code.len() {
        let n = next_instruction(code, i);
        if n < code.len() {
            lemma_jumpdests_exact(code, n, t);
        } else if code[i as int] == 0x5b || !(0x60 <= code[i as int] <= 0x7f) {
            assert(crate::semantics::jumpdests_from(code, n) =~= Set::empty());
        }
    }
}

/// The jump destinations are exactly the JUMPDEST opcodes that start an
/// instruction when the code is read from its first byte on: a 0x5b byte
/// inside push data is none.
pub proof fn law_jumpdests_exact(code: Seq<u8>, t: nat)
    ensures
        is_jumpdest(code, t) == (reaches_instruction(code, 0, t) && code[t as int] == 0x5b),
{
    lemma_jumpdests_exact(code, 0, t);
}

/// An arithmetic, comparison or bitwise instruction with fewer operands on
/// the stack than it takes cannot be carried out; nor can SIGNEXTEND with
/// a byte index of 32 or more, nor SHL or SHR with a shift past the
/// machine's word size.
pub proof fn law_arith_faults(code: Seq<u8>, ctx: CtxView, m: MState, depth: nat)
    requires
        m.pc < code.len(),
        is_arith(code[m.pc as int]),
    ensures
        ({
            let op = code[m.pc as int];
            let s = m.stack;
            let need: nat = if is_binary(op) {
                2
            } else if op == 0x08 || op == 0x09 {
                3
            } else {
                1
            };
            let out = spec_step(code, ctx, m, depth);
            &&& s.len() < need ==> out is Fault
            &&& s.len() >= 2 && op == 0x0b && nth(s, 0).value() >= 32 ==> out is Fault
            &&& s.len() >= 2 && (op == 0x1b || op == 0x1c) && nth(s, 0).value() > usize::MAX
                ==> out is Fault
        }),
{
    assert(spec_step(code, ctx, m, depth) == step_arith(m, code[m.pc as int]));
}

/// CALL from any machine, once its operands can be carried out: with no
/// depth left it runs out of its budget; a callee run that cannot be
/// carried out or runs out of budget makes the CALL do the same; a callee
/// run that ends with result `r`, successful or not, lets the caller go on
/// with 1 or 0 in place of the seven operands, the return data copied into
/// the return range as far as both reach, every other memory byte as
/// before, the callee's logs appended only on success and its storage
/// unchanged.
pub proof fn law_call_step(code: Seq<u8>, ctx: CtxView, m: MState, depth: nat)
    requires
        at_op(code, m, 0xf1, 7),
        fits(m.stack, 3),
        fits(m.stack, 4),
        fits(m.stack, 5),
        fits(m.stack, 6),
        mem_end(nth(m.stack, 3).value(), nth(m.stack, 4).value()) is Some,
        mem_end(nth(m.stack, 5).value(), nth(m.stack, 6).value()) is Some,
    ensures
        ({
            let s = m.stack;
            let out = spec_step(code, ctx, m, depth);
            let callee = crate::run_laws::callee_code(ctx, nth(s, 1));
            let sub = callee_ctx(ctx, m);
            let res = spec_run(callee, sub, crate::semantics::initial_state(), (depth - 1) as nat, crate::semantics::step_limit());
            let r_off = nth(s, 5).value();
            let r_size = nth(s, 6).value();
            let m2 = next_state(out);
            &&& depth == 0 ==> out is Limit
            &&& depth > 0 && res is Fault ==> out is Fault
            &&& depth > 0 && res is Limit ==> out is Limit
            &&& depth > 0 && res is Done ==> {
                let r = res->Done_0;
                let k = if r.ret.len() < r_size { r.ret.len() } else { r_size };
                &&& out is Next
                &&& m2.stack == drop_top(s, 7).push(crate::word::bool_word(r.success))
                &&& top_after(out).value() == if r.success { 1nat } else { 0nat }
                &&& m2.logs == if r.success { m.logs + r.logs } else { m.logs }
                &&& m2.storage == m.storage
                &&& m2.pc == m.pc + 1
                &&& m2.memory.len() >= r_off + r_size
                &&& forall|i: nat| r_off <= i < r_off + k ==> #[trigger] m2.memory[i as int] == r.ret[i - r_off]
                &&& forall|i: nat|
                    i < m2.memory.len() && !(r_off <= i < r_off + k) ==> #[trigger] m2.memory[i as int]
                        == byte_before(m, i)
            }
        }),
{
    let s = m.stack;
    let a_off = nth(s, 3).value();
    let a_size = nth(s, 4).value();
    let r_off = nth(s, 5).value();
    let r_size = nth(s, 6).value();
    let t1 = mem_end(a_off, a_size).unwrap();
    let t2 = mem_end(r_off, r_size).unwrap();
    crate::machine::lemma_mem_end(a_off, a_size);
    crate::machine::lemma_mem_end(r_off, r_size);
    lemma_value_word_of_small(0);
    lemma_value_word_of_small(1);
    assert(spec_step(code, ctx, m, depth) == crate::semantics::step_call(ctx, m, depth));
    if depth > 0 {
        let res = spec_run(
            crate::run_laws::callee_code(ctx, nth(s, 1)),
            callee_ctx(ctx, m),
            crate::semantics::initial_state(),
            (depth - 1) as nat,
            crate::semantics::step_limit(),
        );
        if res is Done {
            let r = res->Done_0;
            let k = if r.ret.len() < r_size { r.ret.len() } else { r_size };
            let mem1 = crate::semantics::expand(m.memory, t1);
            let mem2 = crate::semantics::expand(mem1, t2);
            let d = r.ret.subrange(0, k as int);
            let m2 = next_state(spec_step(code, ctx, m, depth));
            assert(m2.memory == crate::semantics::mem_write(mem2, r_off, d));
            assert forall|i: nat|
                i < m2.memory.len() && !(r_off <= i < r_off + k) implies #[trigger] m2.memory[i as int]
                == byte_before(m, i) by {
                crate::run_laws::lemma_expand_byte(m.memory, t1, i);
                crate::run_laws::lemma_expand_byte(mem1, t2, i);
                crate::run_laws::lemma_write_byte(mem2, r_off, d, i);
            }
            assert forall|i: nat| r_off <= i < r_off + k implies #[trigger] m2.memory[i as int]
                == r.ret[i - r_off] by {
                crate::run_laws::lemma_write_byte(mem2, r_off, d, i);
            }
        }
    }
}

} // verus!
