//! The meaning of a program: what one instruction does to the machine,
//! and what a whole run returns.

use vstd::prelude::*;
use vstd::arithmetic::power::pow;
use vstd::arithmetic::power2::pow2;
use crate::word::{Word, word_of, bool_word, word_and, word_or, word_xor, word_not, word_modulus};
use crate::bytes::{be_value, word_bytes, copy_padded};
use crate::keccak::keccak256_digest;
use crate::context::{LogView, ResultView, TxView, CtxView, code_of, balance_of};

verus! {

/// The machine between two instructions.
#[verifier::ext_equal]
pub struct MState {
    /// Bottom first; the top of the stack is the last element.
    pub stack: Seq<Word>,
    pub memory: Seq<u8>,
    pub storage: Map<Word, Word>,
    pub logs: Seq<LogView>,
    /// The address of the next instruction.
    pub pc: nat,
}

/// What one instruction leads to.
pub enum StepOut {
    /// Go on with the next instruction.
    Next(MState),
    /// STOP: a successful end.
    Stop(MState),
    /// RETURN with the given data.
    Return(MState, Seq<u8>),
    /// REVERT with the given data.
    Revert(MState, Seq<u8>),
    /// A jump to a place that is no jump destination, or an unknown opcode.
    Invalid(MState),
    /// The instruction cannot be carried out: a missing stack operand, an
    /// operand too large for an index or an offset, a modulus of zero, push
    /// data past the end of the code, or an offset computation that overflows.
    Fault,
    /// A nested call ran out of its step or depth budget.
    Limit,
}

/// What a whole run leads to.
pub enum RunOut {
    Done(ResultView),
    Fault,
    Limit,
}

/// The number of instructions one invocation may execute.
pub open spec fn step_limit() -> nat {
    0xffff_ffff_ffff_ffff
}

/// How deep calls may nest.
pub open spec fn depth_limit() -> nat {
    0xffff_ffff_ffff_ffff
}

/// The machine before the first instruction.
pub open spec fn initial_state() -> MState {
    MState {
        stack: Seq::empty(),
        memory: Seq::empty(),
        storage: Map::empty(),
        logs: Seq::empty(),
        pc: 0,
    }
}

/// The `i`-th word from the top of the stack (0 is the top).
pub open spec fn nth(s: Seq<Word>, i: nat) -> Word {
    s[s.len() - 1 - i]
}

/// The stack with its top `k` words removed.
pub open spec fn drop_top(s: Seq<Word>, k: nat) -> Seq<Word> {
    s.subrange(0, s.len() - k)
}

/// Whether the `i`-th word from the top fits in a `usize`.
pub open spec fn fits(s: Seq<Word>, i: nat) -> bool {
    nth(s, i).value() <= usize::MAX
}

/// The word holding a present value, or zero.
pub open spec fn or_zero(w: Option<Word>) -> Word {
    match w {
        Some(x) => x,
        None => word_of(0),
    }
}

// ---------------------------------------------------------------------
// Arithmetic

/// The magnitude of a word read in two's complement (2^255 for the least word).
pub open spec fn magnitude(a: Word) -> nat {
    if a.is_neg() {
        (word_modulus() - a.value()) as nat
    } else {
        a.value()
    }
}

/// The word holding `-n` in two's complement.
pub open spec fn negated(n: nat) -> Word {
    word_of((word_modulus() - n) as nat)
}

/// SDIV: signed division, rounding towards zero; division by zero gives 0.
pub open spec fn sdiv(a: Word, b: Word) -> Word {
    if b.value() == 0 {
        word_of(0)
    } else {
        let q = magnitude(a) / magnitude(b);
        if q == 0 {
            word_of(0)
        } else if a.is_neg() != b.is_neg() {
            negated(q)
        } else {
            word_of(q)
        }
    }
}

/// SMOD: signed remainder, with the sign of the dividend; modulo zero gives 0.
pub open spec fn smod(a: Word, b: Word) -> Word {
    if b.value() == 0 {
        word_of(0)
    } else {
        let r = magnitude(a) % magnitude(b);
        if a.is_neg() {
            negated(r)
        } else {
            word_of(r)
        }
    }
}

/// SIGNEXTEND: extend the sign of the low `k + 1` bytes of `x`. A byte
/// index of 32 or more is a fault.
pub open spec fn signextend(k: Word, x: Word) -> Option<Word> {
    if k.value() >= 32 {
        None
    } else {
        let bits = 8 * (k.value() + 1);
        let low = x.value() % pow2(bits);
        if (x.value() / pow2((bits - 1) as nat)) % 2 == 1 {
            Some(word_of((low + word_modulus() - pow2(bits)) as nat))
        } else {
            Some(word_of(low))
        }
    }
}

/// BYTE: the `i`-th byte of `x`, counting from the most significant; 0
/// for any index past the 32 bytes of a word.
pub open spec fn byte_of(i: Word, x: Word) -> Word {
    if i.value() >= 32 {
        word_of(0)
    } else {
        word_of(word_bytes(x)[i.value() as int] as nat)
    }
}

/// SHL: shift left, dropping the bits that leave the word.
pub open spec fn shl(shift: Word, v: Word) -> Option<Word> {
    if shift.value() > usize::MAX {
        None
    } else if shift.value() >= 256 {
        Some(word_of(0))
    } else {
        Some(word_of(v.value() * pow2(shift.value())))
    }
}

/// SHR: logical shift right.
pub open spec fn shr(shift: Word, v: Word) -> Option<Word> {
    if shift.value() > usize::MAX {
        None
    } else if shift.value() >= 256 {
        Some(word_of(0))
    } else {
        Some(word_of(v.value() / pow2(shift.value())))
    }
}

/// SAR: arithmetic shift right, filling with the sign bit.
pub open spec fn sar(shift: Word, v: Word) -> Word {
    if shift.value() >= 256 {
        if v.is_neg() {
            word_of((word_modulus() - 1) as nat)
        } else {
            word_of(0)
        }
    } else {
        let q = v.value() / pow2(shift.value());
        if v.is_neg() && shift.value() > 0 {
            word_of((q + word_modulus() - pow2((256 - shift.value()) as nat)) as nat)
        } else {
            word_of(q)
        }
    }
}

/// Whether an opcode takes two operands and pushes one result.
pub open spec fn is_binary(op: u8) -> bool {
    (0x01 <= op <= 0x07) || op == 0x0a || op == 0x0b || (0x10 <= op <= 0x14) || (0x16 <= op
        <= 0x18) || (0x1a <= op <= 0x1d)
}

/// The result of a two-operand instruction; `a` is the top of the stack.
pub open spec fn binary_op(op: u8, a: Word, b: Word) -> Option<Word> {
    if op == 0x01 {
        Some(word_of(a.value() + b.value()))
    } else if op == 0x02 {
        Some(word_of(a.value() * b.value()))
    } else if op == 0x03 {
        Some(word_of((a.value() + word_modulus() - b.value()) as nat))
    } else if op == 0x04 {
        Some(if b.value() == 0 { word_of(0) } else { word_of(a.value() / b.value()) })
    } else if op == 0x05 {
        Some(sdiv(a, b))
    } else if op == 0x06 {
        Some(if b.value() == 0 { word_of(0) } else { word_of(a.value() % b.value()) })
    } else if op == 0x07 {
        Some(smod(a, b))
    } else if op == 0x0a {
        Some(word_of((pow(a.value() as int, b.value()) % (word_modulus() as int)) as nat))
    } else if op == 0x0b {
        signextend(a, b)
    } else if op == 0x10 {
        Some(bool_word(a.value() < b.value()))
    } else if op == 0x11 {
        Some(bool_word(a.value() > b.value()))
    } else if op == 0x12 {
        Some(bool_word(a.signed() < b.signed()))
    } else if op == 0x13 {
        Some(bool_word(a.signed() > b.signed()))
    } else if op == 0x14 {
        Some(bool_word(a == b))
    } else if op == 0x16 {
        Some(word_and(a, b))
    } else if op == 0x17 {
        Some(word_or(a, b))
    } else if op == 0x18 {
        Some(word_xor(a, b))
    } else if op == 0x1a {
        Some(byte_of(a, b))
    } else if op == 0x1b {
        shl(a, b)
    } else if op == 0x1c {
        shr(a, b)
    } else {
        Some(sar(a, b))
    }
}

/// ADDMOD and MULMOD; a modulus of zero is a fault.
pub open spec fn ternary_op(op: u8, a: Word, b: Word, n: Word) -> Option<Word> {
    if n.value() == 0 {
        None
    } else if op == 0x08 {
        Some(word_of((a.value() + b.value()) % n.value()))
    } else {
        Some(word_of((a.value() * b.value()) % n.value()))
    }
}

/// ISZERO and NOT.
pub open spec fn unary_op(op: u8, a: Word) -> Word {
    if op == 0x15 {
        bool_word(a.value() == 0)
    } else {
        word_not(a)
    }
}

/// Whether an opcode is one of the arithmetic, comparison and bitwise ones.
pub open spec fn is_arith(op: u8) -> bool {
    is_binary(op) || op == 0x08 || op == 0x09 || op == 0x15 || op == 0x19
}

/// The machine with the top `k` words replaced by `w`, at the next instruction.
pub open spec fn replace_top(m: MState, k: nat, w: Word) -> MState {
    MState { stack: drop_top(m.stack, k).push(w), pc: m.pc + 1, ..m }
}

/// An arithmetic, comparison or bitwise instruction.
pub open spec fn step_arith(m: MState, op: u8) -> StepOut {
    let s = m.stack;
    if is_binary(op) {
        if s.len() < 2 {
            StepOut::Fault
        } else {
            match binary_op(op, nth(s, 0), nth(s, 1)) {
                Some(w) => StepOut::Next(replace_top(m, 2, w)),
                None => StepOut::Fault,
            }
        }
    } else if op == 0x08 || op == 0x09 {
        if s.len() < 3 {
            StepOut::Fault
        } else {
            match ternary_op(op, nth(s, 0), nth(s, 1), nth(s, 2)) {
                Some(w) => StepOut::Next(replace_top(m, 3, w)),
                None => StepOut::Fault,
            }
        }
    } else {
        if s.len() < 1 {
            StepOut::Fault
        } else {
            StepOut::Next(replace_top(m, 1, unary_op(op, nth(s, 0))))
        }
    }
}

// ---------------------------------------------------------------------
// Pushes, stack shuffles and reads of the surroundings

/// PUSH0 to PUSH32: the `n` bytes after the opcode, read big-endian.
pub open spec fn step_push(code: Seq<u8>, m: MState, op: u8) -> StepOut {
    let n: nat = (op - 0x5f) as nat;
    let start = m.pc + 1;
    if start + n > code.len() {
        StepOut::Fault
    } else {
        StepOut::Next(
            MState {
                stack: m.stack.push(word_of(be_value(code.subrange(start as int, (start + n) as int)))),
                pc: start + n,
                ..m
            },
        )
    }
}

/// POP, DUP1 to DUP16 and SWAP1 to SWAP16. POP on an empty stack does nothing.
pub open spec fn step_shuffle(m: MState, op: u8) -> StepOut {
    let s = m.stack;
    let len = s.len();
    if op == 0x50 {
        StepOut::Next(MState { stack: if len > 0 { s.drop_last() } else { s }, pc: m.pc + 1, ..m })
    } else if 0x80 <= op <= 0x8f {
        let n: nat = (op - 0x7f) as nat;
        if len < n {
            StepOut::Fault
        } else {
            StepOut::Next(MState { stack: s.push(s[len - n]), pc: m.pc + 1, ..m })
        }
    } else {
        let n: nat = (op - 0x8f) as nat;
        if len < n + 1 {
            StepOut::Fault
        } else {
            let top = len - 1;
            let other = len - 1 - n;
            StepOut::Next(
                MState { stack: s.update(top, s[other]).update(other, s[top]), pc: m.pc + 1, ..m },
            )
        }
    }
}

/// Whether an opcode pushes a value read from the surroundings or the
/// machine, or does nothing.
pub open spec fn is_env(op: u8) -> bool {
    op == 0x30 || op == 0x32 || op == 0x33 || op == 0x34 || op == 0x36 || op == 0x38 || op
        == 0x3a || op == 0x40 || (0x41 <= op <= 0x46) || op == 0x48 || op == 0x58 || op == 0x59
        || op == 0x5a || op == 0x5b
}

/// The word an environment opcode pushes.
pub open spec fn env_word(code: Seq<u8>, ctx: CtxView, m: MState, op: u8) -> Word {
    if op == 0x30 {
        or_zero(ctx.tx.to)
    } else if op == 0x32 {
        or_zero(ctx.tx.origin)
    } else if op == 0x33 {
        or_zero(ctx.tx.from)
    } else if op == 0x34 {
        or_zero(ctx.tx.value)
    } else if op == 0x36 {
        match ctx.tx.data {
            Some(d) => word_of(d.len()),
            None => word_of(0),
        }
    } else if op == 0x38 {
        word_of(code.len())
    } else if op == 0x3a {
        or_zero(ctx.tx.gasprice)
    } else if op == 0x41 {
        or_zero(ctx.block.coinbase)
    } else if op == 0x42 {
        or_zero(ctx.block.timestamp)
    } else if op == 0x43 {
        or_zero(ctx.block.number)
    } else if op == 0x44 {
        or_zero(ctx.block.difficulty)
    } else if op == 0x45 {
        or_zero(ctx.block.gaslimit)
    } else if op == 0x46 {
        or_zero(ctx.block.chainid)
    } else if op == 0x48 {
        or_zero(ctx.block.basefee)
    } else if op == 0x58 {
        word_of(m.pc)
    } else if op == 0x59 {
        word_of(m.memory.len())
    } else {
        word_of((word_modulus() - 1) as nat)
    }
}

/// ADDRESS, ORIGIN, CALLER, CALLVALUE, CALLDATASIZE, CODESIZE, GASPRICE,
/// the block fields, PC, MSIZE and GAS push a word; BLOCKHASH and JUMPDEST
/// do nothing.
pub open spec fn step_env(code: Seq<u8>, ctx: CtxView, m: MState, op: u8) -> StepOut {
    if op == 0x40 || op == 0x5b {
        StepOut::Next(MState { pc: m.pc + 1, ..m })
    } else {
        StepOut::Next(MState { stack: m.stack.push(env_word(code, ctx, m, op)), pc: m.pc + 1, ..m })
    }
}

/// The word CALLDATALOAD reads at `offset`: 32 bytes of call data,
/// zero-padded, or zero when the offset is past the data.
pub open spec fn calldata_word(data: Option<Seq<u8>>, offset: Word) -> Word {
    match data {
        Some(d) => if offset.value() < d.len() {
            word_of(be_value(copy_padded(d, offset.value(), 32)))
        } else {
            word_of(0)
        },
        None => word_of(0),
    }
}

/// The word an account query pushes for the address on top of the stack.
pub open spec fn account_word(ctx: CtxView, op: u8, address: Word) -> Word {
    if op == 0x31 {
        or_zero(balance_of(ctx.accounts, address))
    } else if op == 0x3b {
        match code_of(ctx.accounts, address) {
            Some(c) => word_of(c.len()),
            None => word_of(0),
        }
    } else {
        match code_of(ctx.accounts, address) {
            Some(c) => word_of(be_value(keccak256_digest(c))),
            None => word_of(0),
        }
    }
}

/// BALANCE, EXTCODESIZE, EXTCODEHASH, SELFBALANCE, CALLDATALOAD, SLOAD
/// and SSTORE.
pub open spec fn step_state(ctx: CtxView, m: MState, op: u8) -> StepOut {
    let s = m.stack;
    if op == 0x47 {
        StepOut::Next(
            MState {
                stack: s.push(or_zero(balance_of(ctx.accounts, or_zero(ctx.tx.to)))),
                pc: m.pc + 1,
                ..m
            },
        )
    } else if op == 0x55 {
        if s.len() < 2 {
            StepOut::Fault
        } else {
            StepOut::Next(
                MState {
                    stack: drop_top(s, 2),
                    storage: m.storage.insert(nth(s, 0), nth(s, 1)),
                    pc: m.pc + 1,
                    ..m
                },
            )
        }
    } else if s.len() < 1 {
        StepOut::Fault
    } else if op == 0x54 {
        let key = nth(s, 0);
        StepOut::Next(
            replace_top(
                m,
                1,
                if m.storage.contains_key(key) { m.storage[key] } else { word_of(0) },
            ),
        )
    } else if op == 0x35 {
        StepOut::Next(replace_top(m, 1, calldata_word(ctx.tx.data, nth(s, 0))))
    } else {
        StepOut::Next(replace_top(m, 1, account_word(ctx, op, nth(s, 0))))
    }
}

// ---------------------------------------------------------------------
// Memory

/// The size memory grows to so that `size` bytes from `offset` lie in it:
/// `offset + size` rounded up to a multiple of 32. `None` when that
/// computation overflows a `usize`.
pub open spec fn mem_end(offset: nat, size: nat) -> Option<nat> {
    if offset + size + 31 > usize::MAX {
        None
    } else {
        Some(((offset + size + 31) / 32 * 32) as nat)
    }
}

/// Memory grown with zero bytes to at least `target` bytes.
pub open spec fn expand(mem: Seq<u8>, target: nat) -> Seq<u8> {
    if mem.len() < target {
        mem + Seq::new((target - mem.len()) as nat, |i: int| 0u8)
    } else {
        mem
    }
}

/// Memory with `data` written from `at` on.
pub open spec fn mem_write(mem: Seq<u8>, at: nat, data: Seq<u8>) -> Seq<u8> {
    mem.subrange(0, at as int) + data + mem.subrange((at + data.len()) as int, mem.len() as int)
}

/// Whether copying `size` bytes from `offset` of a source computes an
/// index past `usize::MAX`.
pub open spec fn copy_overflows(offset: nat, size: nat) -> bool {
    size > 0 && offset + size - 1 > usize::MAX
}

/// The bytes CALLDATACOPY, CODECOPY and EXTCODECOPY read from.
pub open spec fn copy_source(code: Seq<u8>, ctx: CtxView, op: u8, address: Word) -> Option<
    Seq<u8>,
> {
    if op == 0x37 {
        Some(
            match ctx.tx.data {
                Some(d) => d,
                None => Seq::empty(),
            },
        )
    } else if op == 0x39 {
        Some(code)
    } else {
        code_of(ctx.accounts, address)
    }
}

/// CALLDATACOPY, CODECOPY and EXTCODECOPY: copy bytes of a source into
/// memory, zero-padded past its end. EXTCODECOPY of an address without
/// code does nothing.
pub open spec fn step_copy(code: Seq<u8>, ctx: CtxView, m: MState, op: u8) -> StepOut {
    let s = m.stack;
    let k: nat = if op == 0x3c { 1 } else { 0 };
    if s.len() < 3 + k || !fits(s, k) || !fits(s, k + 1) || !fits(s, k + 2) {
        StepOut::Fault
    } else {
        let dest = nth(s, k).value();
        let offset = nth(s, k + 1).value();
        let size = nth(s, k + 2).value();
        let rest = MState { stack: drop_top(s, 3 + k), pc: m.pc + 1, ..m };
        match copy_source(code, ctx, op, nth(s, 0)) {
            None => StepOut::Next(rest),
            Some(src) => match mem_end(dest, size) {
                None => StepOut::Fault,
                Some(t) => if copy_overflows(offset, size) {
                    StepOut::Fault
                } else {
                    StepOut::Next(
                        MState {
                            memory: mem_write(expand(m.memory, t), dest, copy_padded(src, offset, size)),
                            ..rest
                        },
                    )
                },
            },
        }
    }
}

/// MLOAD, MSTORE and MSTORE8.
pub open spec fn step_mem(m: MState, op: u8) -> StepOut {
    let s = m.stack;
    let need: nat = if op == 0x51 { 1 } else { 2 };
    if s.len() < need || !fits(s, 0) {
        StepOut::Fault
    } else {
        let offset = nth(s, 0).value();
        let width: nat = if op == 0x53 { 1 } else { 32 };
        match mem_end(offset, width) {
            None => StepOut::Fault,
            Some(t) => {
                let mem = expand(m.memory, t);
                if op == 0x51 {
                    StepOut::Next(
                        MState {
                            stack: drop_top(s, 1).push(
                                word_of(be_value(mem.subrange(offset as int, (offset + 32) as int))),
                            ),
                            memory: mem,
                            pc: m.pc + 1,
                            ..m
                        },
                    )
                } else if op == 0x52 {
                    StepOut::Next(
                        MState {
                            stack: drop_top(s, 2),
                            memory: mem_write(mem, offset, word_bytes(nth(s, 1))),
                            pc: m.pc + 1,
                            ..m
                        },
                    )
                } else {
                    StepOut::Next(
                        MState {
                            stack: drop_top(s, 2),
                            memory: mem.update(offset as int, (nth(s, 1).value() % 256) as u8),
                            pc: m.pc + 1,
                            ..m
                        },
                    )
                }
            },
        }
    }
}

/// SHA3, LOG0 to LOG4, RETURN and REVERT: instructions that read a range
/// of memory given by an offset and a size on top of the stack. SHA3
/// while memory is empty does nothing but take its two operands: memory
/// stays empty and no hash is pushed.
pub open spec fn step_range(ctx: CtxView, m: MState, op: u8) -> StepOut {
    let s = m.stack;
    let topics: nat = if 0xa0 <= op <= 0xa4 { (op - 0xa0) as nat } else { 0 };
    if s.len() < 2 + topics || !fits(s, 0) || !fits(s, 1) {
        StepOut::Fault
    } else {
        let offset = nth(s, 0).value();
        let size = nth(s, 1).value();
        let popped = drop_top(s, 2 + topics);
        match mem_end(offset, size) {
            None => StepOut::Fault,
            Some(t) => if op == 0x20 && m.memory.len() == 0 {
                StepOut::Next(MState { stack: popped, pc: m.pc + 1, ..m })
            } else {
                let mem = expand(m.memory, t);
                let data = mem.subrange(offset as int, (offset + size) as int);
                if op == 0x20 {
                    StepOut::Next(
                        MState {
                            stack: popped.push(word_of(be_value(keccak256_digest(data)))),
                            memory: mem,
                            pc: m.pc + 1,
                            ..m
                        },
                    )
                } else if op == 0xf3 {
                    StepOut::Return(MState { stack: popped, memory: mem, pc: m.pc + 1, ..m }, data)
                } else if op == 0xfd {
                    StepOut::Revert(MState { stack: popped, memory: mem, pc: m.pc + 1, ..m }, data)
                } else {
                    let log = LogView {
                        address: or_zero(ctx.tx.to),
                        data: data,
                        topics: Seq::new(topics, |i: int| nth(s, (2 + i) as nat)),
                    };
                    StepOut::Next(
                        MState {
                            stack: popped,
                            memory: mem,
                            logs: m.logs.push(log),
                            pc: m.pc + 1,
                            ..m
                        },
                    )
                }
            },
        }
    }
}

// ---------------------------------------------------------------------
// Control flow

/// The places a jump may land on: the JUMPDEST opcodes that are not push
/// data, scanning from `i`.
pub open spec fn jumpdests_from(code: Seq<u8>, i: nat) -> Set<nat>
    decreases code.len() - i,
{
    if i >= code.len() {
        Set::empty()
    } else if code[i as int] == 0x5b {
        jumpdests_from(code, i + 1).insert(i)
    } else if 0x60 <= code[i as int] <= 0x7f {
        let next: nat = (i + (code[i as int] - 0x5f) + 1) as nat;
        if next >= code.len() {
            Set::empty()
        } else {
            jumpdests_from(code, next)
        }
    } else {
        jumpdests_from(code, i + 1)
    }
}

/// Whether `t` is a place a jump may land on.
pub open spec fn is_jumpdest(code: Seq<u8>, t: nat) -> bool {
    jumpdests_from(code, 0).contains(t)
}

/// JUMP and JUMPI.
pub open spec fn step_jump(code: Seq<u8>, m: MState, op: u8) -> StepOut {
    let s = m.stack;
    let need: nat = if op == 0x56 { 1 } else { 2 };
    if s.len() < need || !fits(s, 0) {
        StepOut::Fault
    } else {
        let target = nth(s, 0).value();
        let popped = MState { stack: drop_top(s, need), ..m };
        if op == 0x57 && nth(s, 1).value() == 0 {
            StepOut::Next(MState { pc: m.pc + 1, ..popped })
        } else if is_jumpdest(code, target) {
            StepOut::Next(MState { pc: target, ..popped })
        } else {
            StepOut::Invalid(popped)
        }
    }
}

/// The transaction a CALL hands to the callee.
pub open spec fn call_tx(caller: TxView, address: Word, data: Seq<u8>) -> TxView {
    TxView {
        to: Some(address),
        from: caller.to,
        origin: caller.origin,
        gasprice: caller.gasprice,
        value: None,
        data: Some(data),
    }
}

/// The end of a run that stops normally: the stack listed from the top down.
pub open spec fn stop_result(m: MState) -> ResultView {
    ResultView { stack: m.stack.reverse(), success: true, logs: m.logs, ret: Seq::empty() }
}

/// A run of `code` from machine `m`, executing at most `fuel` instructions.
pub open spec fn spec_run(code: Seq<u8>, ctx: CtxView, m: MState, depth: nat, fuel: nat) -> RunOut
    decreases depth, fuel, 2nat,
{
    if m.pc >= code.len() {
        RunOut::Done(stop_result(m))
    } else if fuel == 0 {
        RunOut::Limit
    } else {
        match spec_step(code, ctx, m, depth) {
            StepOut::Next(m2) => spec_run(code, ctx, m2, depth, (fuel - 1) as nat),
            StepOut::Stop(m2) => RunOut::Done(stop_result(m2)),
            StepOut::Return(m2, d) => RunOut::Done(
                ResultView { stack: m2.stack, success: true, logs: m2.logs, ret: d },
            ),
            StepOut::Revert(m2, d) => RunOut::Done(
                ResultView { stack: m2.stack, success: false, logs: m2.logs, ret: d },
            ),
            StepOut::Invalid(m2) => RunOut::Done(
                ResultView { stack: m2.stack, success: false, logs: m2.logs, ret: Seq::empty() },
            ),
            StepOut::Fault => RunOut::Fault,
            StepOut::Limit => RunOut::Limit,
        }
    }
}

/// A whole execution of `code`, with calls nested at most `depth` deep.
pub open spec fn spec_exec(code: Seq<u8>, ctx: CtxView, depth: nat) -> RunOut {
    spec_run(code, ctx, initial_state(), depth, step_limit())
}

/// CALL: run the code of the address on top of the stack with the given
/// slice of memory as call data, copy back its return data and push
/// whether it succeeded. The callee starts with fresh storage.
pub open spec fn step_call(ctx: CtxView, m: MState, depth: nat) -> StepOut
    decreases depth, 0nat, 0nat,
{
    let s = m.stack;
    if s.len() < 7 || !fits(s, 3) || !fits(s, 4) || !fits(s, 5) || !fits(s, 6) {
        StepOut::Fault
    } else {
        let address = nth(s, 1);
        let arg_offset = nth(s, 3).value();
        let arg_size = nth(s, 4).value();
        let ret_offset = nth(s, 5).value();
        let ret_size = nth(s, 6).value();
        match mem_end(arg_offset, arg_size) {
            None => StepOut::Fault,
            Some(t1) => {
                let mem1 = expand(m.memory, t1);
                let data = mem1.subrange(arg_offset as int, (arg_offset + arg_size) as int);
                let callee = match code_of(ctx.accounts, address) {
                    Some(c) => c,
                    None => Seq::empty(),
                };
                let sub = CtxView { tx: call_tx(ctx.tx, address, data), ..ctx };
                if depth == 0 {
                    StepOut::Limit
                } else {
                    match spec_run(callee, sub, initial_state(), (depth - 1) as nat, step_limit()) {
                        RunOut::Fault => StepOut::Fault,
                        RunOut::Limit => StepOut::Limit,
                        RunOut::Done(r) => match mem_end(ret_offset, ret_size) {
                            None => StepOut::Fault,
                            Some(t2) => {
                                let n = if r.ret.len() < ret_size { r.ret.len() } else { ret_size };
                                StepOut::Next(
                                    MState {
                                        stack: drop_top(s, 7).push(bool_word(r.success)),
                                        memory: mem_write(expand(mem1, t2), ret_offset, r.ret.subrange(0, n as int)),
                                        logs: if r.success { m.logs + r.logs } else { m.logs },
                                        pc: m.pc + 1,
                                        ..m
                                    },
                                )
                            },
                        },
                    }
                }
            },
        }
    }
}

/// One instruction: the one at `m.pc`, which must lie within the code.
pub open spec fn spec_step(code: Seq<u8>, ctx: CtxView, m: MState, depth: nat) -> StepOut
    decreases depth, 0nat, 1nat,
{
    let op = code[m.pc as int];
    if op == 0x00 {
        StepOut::Stop(MState { pc: m.pc + 1, ..m })
    } else if is_arith(op) {
        step_arith(m, op)
    } else if 0x5f <= op <= 0x7f {
        step_push(code, m, op)
    } else if op == 0x50 || (0x80 <= op <= 0x9f) {
        step_shuffle(m, op)
    } else if is_env(op) {
        step_env(code, ctx, m, op)
    } else if op == 0x31 || op == 0x35 || op == 0x3b || op == 0x3f || op == 0x47 || op == 0x54
        || op == 0x55 {
        step_state(ctx, m, op)
    } else if op == 0x37 || op == 0x39 || op == 0x3c {
        step_copy(code, ctx, m, op)
    } else if 0x51 <= op <= 0x53 {
        step_mem(m, op)
    } else if op == 0x20 || (0xa0 <= op <= 0xa4) || op == 0xf3 || op == 0xfd {
        step_range(ctx, m, op)
    } else if op == 0x56 || op == 0x57 {
        step_jump(code, m, op)
    } else if op == 0xf1 {
        step_call(ctx, m, depth)
    } else {
        StepOut::Invalid(m)
    }
}

} // verus!
