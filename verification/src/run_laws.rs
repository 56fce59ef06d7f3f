//! Properties of whole runs: what stays unchanged from one instruction to
//! the next, composed over any number of instructions.

use vstd::prelude::*;
use crate::word::{Word, word_of, bool_word, lemma_word_of_value, lemma_value_word_of_small};
use crate::bytes::{lemma_be_value_word_bytes, word_bytes, copy_padded};
use crate::context::{CtxView, ResultView, code_of};
use crate::machine::lemma_mem_end;
use crate::semantics::{
    MState, StepOut, RunOut, nth, drop_top, mem_end, expand, mem_write, spec_step, spec_run,
    spec_exec, initial_state, env_word, step_mem, step_copy, step_call, fits, call_tx, step_limit,
    depth_limit,
};
use crate::laws::law_memory_grows_in_words;

verus! {

/// The machine after `n` instructions from `m` that each go on; `None` if
/// the run stops, ends or cannot go on before that.
pub open spec fn run_steps(code: Seq<u8>, ctx: CtxView, m: MState, depth: nat, n: nat) -> Option<
    MState,
>
    decreases n,
{
    if n == 0 {
        Some(m)
    } else if m.pc >= code.len() {
        None
    } else {
        match spec_step(code, ctx, m, depth) {
            StepOut::Next(m2) => run_steps(code, ctx, m2, depth, (n - 1) as nat),
            _ => None,
        }
    }
}

/// The machine an instruction that goes on leads to.
pub open spec fn next_state(out: StepOut) -> MState {
    match out {
        StepOut::Next(m2) => m2,
        _ => initial_state(),
    }
}

/// The machines `run_steps` reaches are those of the run itself: the run
/// from `m0` goes on as the run from the machine reached after `n`
/// instructions.
pub proof fn law_run_prefix(
    code: Seq<u8>,
    ctx: CtxView,
    m0: MState,
    depth: nat,
    fuel: nat,
    n: nat,
)
    requires
        run_steps(code, ctx, m0, depth, n) is Some,
        n <= fuel,
    ensures
        spec_run(code, ctx, m0, depth, fuel) == spec_run(
            code,
            ctx,
            run_steps(code, ctx, m0, depth, n).unwrap(),
            depth,
            (fuel - n) as nat,
        ),
    decreases n,
{
    if n > 0 {
        let m1 = next_state(spec_step(code, ctx, m0, depth));
        law_run_prefix(code, ctx, m1, depth, (fuel - 1) as nat, (n - 1) as nat);
    }
}

// ---------------------------------------------------------------------
// Memory

/// The byte at `i` of a machine's memory; bytes past its end read as 0.
pub open spec fn byte_before(m: MState, i: nat) -> u8 {
    if i < m.memory.len() {
        m.memory[i as int]
    } else {
        0
    }
}

/// The bytes an instruction may write into memory, as a start and a
/// length: MSTORE, MSTORE8, the three copies and the return data of CALL.
pub open spec fn write_range(op: u8, s: Seq<Word>) -> Option<(nat, nat)> {
    if op == 0x52 && s.len() >= 1 {
        Some((nth(s, 0).value(), 32))
    } else if op == 0x53 && s.len() >= 1 {
        Some((nth(s, 0).value(), 1))
    } else if (op == 0x37 || op == 0x39) && s.len() >= 3 {
        Some((nth(s, 0).value(), nth(s, 2).value()))
    } else if op == 0x3c && s.len() >= 4 {
        Some((nth(s, 1).value(), nth(s, 3).value()))
    } else if op == 0xf1 && s.len() >= 7 {
        Some((nth(s, 5).value(), nth(s, 6).value()))
    } else {
        None
    }
}

/// Whether the instruction at `m.pc` may write memory byte `i`.
pub open spec fn may_write(code: Seq<u8>, m: MState, i: nat) -> bool {
    match write_range(code[m.pc as int], m.stack) {
        Some((start, len)) => start <= i < start + len,
        None => false,
    }
}

/// Whether an instruction that goes on keeps memory byte `i`.
pub open spec fn keeps_byte(out: StepOut, m: MState, i: nat) -> bool {
    match out {
        StepOut::Next(m2) => i < m2.memory.len() ==> m2.memory[i as int] == byte_before(m, i),
        _ => true,
    }
}

pub(crate) proof fn lemma_expand_byte(mem: Seq<u8>, t: nat, i: nat)
    ensures
        expand(mem, t).len() >= mem.len(),
        i < expand(mem, t).len() ==> expand(mem, t)[i as int] == if i < mem.len() {
            mem[i as int]
        } else {
            0
        },
{
}

pub(crate) proof fn lemma_write_byte(mem: Seq<u8>, at: nat, data: Seq<u8>, i: nat)
    requires
        at + data.len() <= mem.len(),
    ensures
        mem_write(mem, at, data).len() == mem.len(),
        i < mem.len() && !(at <= i < at + data.len()) ==> mem_write(mem, at, data)[i as int]
            == mem[i as int],
        at <= i < at + data.len() ==> mem_write(mem, at, data)[i as int] == data[i - at],
{
}

proof fn lemma_frame_mem(m: MState, op: u8, i: nat)
    requires
        0x51 <= op <= 0x53,
        !(match write_range(op, m.stack) {
            Some((start, len)) => start <= i < start + len,
            None => false,
        }),
    ensures
        keeps_byte(step_mem(m, op), m, i),
{
    let s = m.stack;
    if s.len() >= 1 {
        let off = nth(s, 0).value();
        let width: nat = if op == 0x53 { 1 } else { 32 };
        lemma_mem_end(off, width);
        if let Some(t) = mem_end(off, width) {
            lemma_expand_byte(m.memory, t, i);
            if s.len() >= 2 && op == 0x52 {
                lemma_be_value_word_bytes(nth(s, 1));
                lemma_write_byte(expand(m.memory, t), off, word_bytes(nth(s, 1)), i);
            }
        }
    }
}

proof fn lemma_frame_copy(code: Seq<u8>, ctx: CtxView, m: MState, op: u8, i: nat)
    requires
        op == 0x37 || op == 0x39 || op == 0x3c,
        !(match write_range(op, m.stack) {
            Some((start, len)) => start <= i < start + len,
            None => false,
        }),
    ensures
        keeps_byte(step_copy(code, ctx, m, op), m, i),
{
    let s = m.stack;
    let k: nat = if op == 0x3c { 1 } else { 0 };
    if s.len() >= 3 + k {
        let dest = nth(s, k).value();
        let offset = nth(s, k + 1).value();
        let size = nth(s, k + 2).value();
        lemma_mem_end(dest, size);
        if let Some(t) = mem_end(dest, size) {
            lemma_expand_byte(m.memory, t, i);
            match crate::semantics::copy_source(code, ctx, op, nth(s, 0)) {
                Some(src) => {
                    lemma_write_byte(expand(m.memory, t), dest, copy_padded(src, offset, size), i);
                },
                None => {},
            }
        }
    }
}

proof fn lemma_frame_range(ctx: CtxView, m: MState, op: u8, i: nat)
    ensures
        keeps_byte(crate::semantics::step_range(ctx, m, op), m, i),
{
    let s = m.stack;
    if s.len() >= 2 {
        let off = nth(s, 0).value();
        let size = nth(s, 1).value();
        if let Some(t) = mem_end(off, size) {
            lemma_expand_byte(m.memory, t, i);
        }
    }
}

proof fn lemma_frame_call(ctx: CtxView, m: MState, depth: nat, i: nat)
    requires
        !(match write_range(0xf1, m.stack) {
            Some((start, len)) => start <= i < start + len,
            None => false,
        }),
    ensures
        keeps_byte(step_call(ctx, m, depth), m, i),
{
    let s = m.stack;
    if s.len() >= 7 {
        let a_off = nth(s, 3).value();
        let a_size = nth(s, 4).value();
        let r_off = nth(s, 5).value();
        let r_size = nth(s, 6).value();
        lemma_mem_end(a_off, a_size);
        lemma_mem_end(r_off, r_size);
        if let Some(t1) = mem_end(a_off, a_size) {
            let mem1 = expand(m.memory, t1);
            lemma_expand_byte(m.memory, t1, i);
            if let Some(t2) = mem_end(r_off, r_size) {
                let mem2 = expand(mem1, t2);
                lemma_expand_byte(mem1, t2, i);
                match step_call(ctx, m, depth) {
                    StepOut::Next(m2) => {
                        assert(exists|d: Seq<u8>|
                            d.len() <= r_size && m2.memory == mem_write(mem2, r_off, d));
                        let d = choose|d: Seq<u8>|
                            d.len() <= r_size && m2.memory == mem_write(mem2, r_off, d);
                        lemma_write_byte(mem2, r_off, d, i);
                    },
                    _ => {},
                }
            }
        }
    }
}

/// An instruction that goes on changes no memory byte outside the range it
/// may write: a byte it keeps reads as before, and a byte it adds past the
/// old end reads as 0.
pub proof fn law_memory_frame(code: Seq<u8>, ctx: CtxView, m: MState, depth: nat, i: nat)
    requires
        m.pc < code.len(),
        !may_write(code, m, i),
    ensures
        keeps_byte(spec_step(code, ctx, m, depth), m, i),
{
    let op = code[m.pc as int];
    if 0x51 <= op <= 0x53 {
        lemma_frame_mem(m, op, i);
    } else if op == 0x37 || op == 0x39 || op == 0x3c {
        lemma_frame_copy(code, ctx, m, op, i);
    } else if op == 0x20 || (0xa0 <= op <= 0xa4) || op == 0xf3 || op == 0xfd {
        lemma_frame_range(ctx, m, op, i);
    } else if op == 0xf1 {
        lemma_frame_call(ctx, m, depth, i);
    }
}

/// Whether no instruction among the next `n` from `m` may write memory
/// byte `i`.
pub open spec fn no_write_between(
    code: Seq<u8>,
    ctx: CtxView,
    m: MState,
    depth: nat,
    n: nat,
    i: nat,
) -> bool
    decreases n,
{
    if n == 0 || m.pc >= code.len() {
        true
    } else {
        !may_write(code, m, i) && match spec_step(code, ctx, m, depth) {
            StepOut::Next(m2) => no_write_between(code, ctx, m2, depth, (n - 1) as nat, i),
            _ => true,
        }
    }
}

/// Over any stretch of a run, memory only grows, stays a whole number of
/// 32-byte words if it was one, and stays within `usize::MAX` bytes if it
/// was.
pub proof fn law_run_memory_words(code: Seq<u8>, ctx: CtxView, m0: MState, depth: nat, n: nat)
    requires
        run_steps(code, ctx, m0, depth, n) is Some,
    ensures
        ({
            let m = run_steps(code, ctx, m0, depth, n).unwrap();
            &&& m.memory.len() >= m0.memory.len()
            &&& m0.memory.len() % 32 == 0 ==> m.memory.len() % 32 == 0
            &&& m0.memory.len() <= usize::MAX ==> m.memory.len() <= usize::MAX
        }),
    decreases n,
{
    if n > 0 {
        law_memory_grows_in_words(code, ctx, m0, depth);
        let m1 = next_state(spec_step(code, ctx, m0, depth));
        law_run_memory_words(code, ctx, m1, depth, (n - 1) as nat);
    }
}

/// Over any stretch of a run in which no instruction may write memory byte
/// `i`, the byte keeps its value, or reads as 0 if it was past the end.
pub proof fn law_run_memory_frame(
    code: Seq<u8>,
    ctx: CtxView,
    m0: MState,
    depth: nat,
    n: nat,
    i: nat,
)
    requires
        run_steps(code, ctx, m0, depth, n) is Some,
        no_write_between(code, ctx, m0, depth, n, i),
    ensures
        byte_before(run_steps(code, ctx, m0, depth, n).unwrap(), i) == byte_before(m0, i),
    decreases n,
{
    if n > 0 {
        law_memory_grows_in_words(code, ctx, m0, depth);
        law_memory_frame(code, ctx, m0, depth, i);
        let m1 = next_state(spec_step(code, ctx, m0, depth));
        law_run_memory_frame(code, ctx, m1, depth, (n - 1) as nat, i);
    }
}

/// Memory that no instruction of a run has written reads as 0.
pub proof fn law_unwritten_memory_is_zero(code: Seq<u8>, ctx: CtxView, depth: nat, n: nat, i: nat)
    requires
        run_steps(code, ctx, initial_state(), depth, n) is Some,
        no_write_between(code, ctx, initial_state(), depth, n, i),
    ensures
        byte_before(run_steps(code, ctx, initial_state(), depth, n).unwrap(), i) == 0,
{
    law_run_memory_frame(code, ctx, initial_state(), depth, n, i);
}

/// MSIZE in a run always pushes a multiple of 32, and never less than an
/// earlier MSIZE of the same run.
pub proof fn law_msize_grows(code: Seq<u8>, ctx: CtxView, depth: nat, n1: nat, n2: nat)
    requires
        run_steps(code, ctx, initial_state(), depth, n1) is Some,
        run_steps(code, ctx, run_steps(code, ctx, initial_state(), depth, n1).unwrap(), depth, n2) is Some,
    ensures
        ({
            let m1 = run_steps(code, ctx, initial_state(), depth, n1).unwrap();
            let m2 = run_steps(code, ctx, m1, depth, n2).unwrap();
            &&& env_word(code, ctx, m1, 0x59).value() % 32 == 0
            &&& env_word(code, ctx, m2, 0x59).value() % 32 == 0
            &&& env_word(code, ctx, m1, 0x59).value() <= env_word(code, ctx, m2, 0x59).value()
        }),
{
    let m1 = run_steps(code, ctx, initial_state(), depth, n1).unwrap();
    let m2 = run_steps(code, ctx, m1, depth, n2).unwrap();
    law_run_memory_words(code, ctx, initial_state(), depth, n1);
    law_run_memory_words(code, ctx, m1, depth, n2);
    lemma_value_word_of_small(m1.memory.len());
    lemma_value_word_of_small(m2.memory.len());
}

/// Reading memory back over a run: after MSTORE writes a word at an
/// offset, a later MLOAD at that offset pushes the same word, provided no
/// instruction in between may write any of those 32 bytes.
pub proof fn law_mload_after_mstore_over_run(
    code: Seq<u8>,
    ctx: CtxView,
    ma: MState,
    depth: nat,
    n: nat,
    offset: Word,
    w: Word,
)
    requires
        ma.pc < code.len(),
        code[ma.pc as int] == 0x52,
        ma.stack.len() >= 2,
        nth(ma.stack, 0) == offset,
        nth(ma.stack, 1) == w,
        spec_step(code, ctx, ma, depth) is Next,
        run_steps(code, ctx, next_state(spec_step(code, ctx, ma, depth)), depth, n) is Some,
        forall|i: nat|
            offset.value() <= i < offset.value() + 32 ==> no_write_between(
                code,
                ctx,
                next_state(spec_step(code, ctx, ma, depth)),
                depth,
                n,
                i,
            ),
        ({
            let mc = run_steps(code, ctx, next_state(spec_step(code, ctx, ma, depth)), depth, n).unwrap();
            &&& mc.pc < code.len()
            &&& code[mc.pc as int] == 0x51
            &&& mc.stack.len() >= 1
            &&& nth(mc.stack, 0) == offset
        }),
    ensures
        ({
            let mc = run_steps(code, ctx, next_state(spec_step(code, ctx, ma, depth)), depth, n).unwrap();
            &&& spec_step(code, ctx, mc, depth) is Next
            &&& nth(next_state(spec_step(code, ctx, mc, depth)).stack, 0) == w
        }),
{
    let mb = next_state(spec_step(code, ctx, ma, depth));
    let mc = run_steps(code, ctx, mb, depth, n).unwrap();
    let off = offset.value();
    assert(spec_step(code, ctx, ma, depth) == step_mem(ma, 0x52));
    lemma_mem_end(off, 32);
    let t = mem_end(off, 32).unwrap();
    lemma_be_value_word_bytes(w);
    let mem = expand(ma.memory, t);
    assert(mb.memory == mem_write(mem, off, word_bytes(w)));
    law_run_memory_words(code, ctx, mb, depth, n);
    assert forall|j: int| 0 <= j < 32 implies mc.memory[off + j] == word_bytes(w)[j] by {
        let i = (off + j) as nat;
        law_run_memory_frame(code, ctx, mb, depth, n, i);
        lemma_write_byte(mem, off, word_bytes(w), i);
    }
    assert(spec_step(code, ctx, mc, depth) == step_mem(mc, 0x51));
    assert(expand(mc.memory, t) =~= mc.memory);
    assert(mc.memory.subrange(off as int, (off + 32) as int) =~= word_bytes(w));
    lemma_word_of_value(w);
}

// ---------------------------------------------------------------------
// Storage

/// What SLOAD reads under `key`: the stored word, or 0.
pub open spec fn stored(storage: Map<Word, Word>, key: Word) -> Word {
    if storage.contains_key(key) {
        storage[key]
    } else {
        word_of(0)
    }
}

/// Whether the instruction at `m.pc` is an SSTORE under `key`.
pub open spec fn may_store(code: Seq<u8>, m: MState, key: Word) -> bool {
    code[m.pc as int] == 0x55 && m.stack.len() >= 1 && nth(m.stack, 0) == key
}

/// Whether an instruction that goes on keeps what is stored under `key`.
pub open spec fn keeps_key(out: StepOut, m: MState, key: Word) -> bool {
    match out {
        StepOut::Next(m2) => stored(m2.storage, key) == stored(m.storage, key),
        _ => true,
    }
}

/// Only SSTORE under a key changes what is stored under it; a CALL never
/// touches the caller's storage.
pub proof fn law_storage_frame(code: Seq<u8>, ctx: CtxView, m: MState, depth: nat, key: Word)
    requires
        m.pc < code.len(),
        !may_store(code, m, key),
    ensures
        keeps_key(spec_step(code, ctx, m, depth), m, key),
{
}

/// Whether no instruction among the next `n` from `m` is an SSTORE under
/// `key`.
pub open spec fn no_store_between(
    code: Seq<u8>,
    ctx: CtxView,
    m: MState,
    depth: nat,
    n: nat,
    key: Word,
) -> bool
    decreases n,
{
    if n == 0 || m.pc >= code.len() {
        true
    } else {
        !may_store(code, m, key) && match spec_step(code, ctx, m, depth) {
            StepOut::Next(m2) => no_store_between(code, ctx, m2, depth, (n - 1) as nat, key),
            _ => true,
        }
    }
}

/// Over any stretch of a run without an SSTORE under `key`, what is stored
/// under `key` stays as it was.
pub proof fn law_run_storage_frame(
    code: Seq<u8>,
    ctx: CtxView,
    m0: MState,
    depth: nat,
    n: nat,
    key: Word,
)
    requires
        run_steps(code, ctx, m0, depth, n) is Some,
        no_store_between(code, ctx, m0, depth, n, key),
    ensures
        stored(run_steps(code, ctx, m0, depth, n).unwrap().storage, key) == stored(m0.storage, key),
    decreases n,
{
    if n > 0 {
        law_storage_frame(code, ctx, m0, depth, key);
        let m1 = next_state(spec_step(code, ctx, m0, depth));
        law_run_storage_frame(code, ctx, m1, depth, (n - 1) as nat, key);
    }
}

/// SLOAD pushes what is stored under the key on top of the stack.
proof fn lemma_sload(code: Seq<u8>, ctx: CtxView, m: MState, depth: nat)
    requires
        m.pc < code.len(),
        code[m.pc as int] == 0x54,
        m.stack.len() >= 1,
    ensures
        spec_step(code, ctx, m, depth) is Next,
        nth(next_state(spec_step(code, ctx, m, depth)).stack, 0) == stored(
            m.storage,
            nth(m.stack, 0),
        ),
{
    assert(spec_step(code, ctx, m, depth) == crate::semantics::step_state(ctx, m, 0x54));
}

/// Reading storage back over a run: after SSTORE stores a value under a
/// key, a later SLOAD of that key pushes the value, provided no SSTORE
/// under that key comes in between.
pub proof fn law_sload_after_sstore_over_run(
    code: Seq<u8>,
    ctx: CtxView,
    ma: MState,
    depth: nat,
    n: nat,
    key: Word,
    value: Word,
)
    requires
        ma.pc < code.len(),
        code[ma.pc as int] == 0x55,
        ma.stack.len() >= 2,
        nth(ma.stack, 0) == key,
        nth(ma.stack, 1) == value,
        run_steps(code, ctx, next_state(spec_step(code, ctx, ma, depth)), depth, n) is Some,
        no_store_between(code, ctx, next_state(spec_step(code, ctx, ma, depth)), depth, n, key),
        ({
            let mc = run_steps(code, ctx, next_state(spec_step(code, ctx, ma, depth)), depth, n).unwrap();
            &&& mc.pc < code.len()
            &&& code[mc.pc as int] == 0x54
            &&& mc.stack.len() >= 1
            &&& nth(mc.stack, 0) == key
        }),
    ensures
        spec_step(code, ctx, ma, depth) is Next,
        ({
            let mc = run_steps(code, ctx, next_state(spec_step(code, ctx, ma, depth)), depth, n).unwrap();
            &&& spec_step(code, ctx, mc, depth) is Next
            &&& nth(next_state(spec_step(code, ctx, mc, depth)).stack, 0) == value
        }),
{
    assert(spec_step(code, ctx, ma, depth) == crate::semantics::step_state(ctx, ma, 0x55));
    let mb = next_state(spec_step(code, ctx, ma, depth));
    let mc = run_steps(code, ctx, mb, depth, n).unwrap();
    law_run_storage_frame(code, ctx, mb, depth, n, key);
    lemma_sload(code, ctx, mc, depth);
}

/// Storage starts empty in every run: an SLOAD of a key that no earlier
/// SSTORE of the run stored under pushes 0.
pub proof fn law_unstored_key_is_zero(
    code: Seq<u8>,
    ctx: CtxView,
    depth: nat,
    n: nat,
    key: Word,
)
    requires
        run_steps(code, ctx, initial_state(), depth, n) is Some,
        no_store_between(code, ctx, initial_state(), depth, n, key),
        ({
            let m = run_steps(code, ctx, initial_state(), depth, n).unwrap();
            &&& m.pc < code.len()
            &&& code[m.pc as int] == 0x54
            &&& m.stack.len() >= 1
            &&& nth(m.stack, 0) == key
        }),
    ensures
        ({
            let m = run_steps(code, ctx, initial_state(), depth, n).unwrap();
            &&& spec_step(code, ctx, m, depth) is Next
            &&& nth(next_state(spec_step(code, ctx, m, depth)).stack, 0) == word_of(0)
        }),
{
    let m = run_steps(code, ctx, initial_state(), depth, n).unwrap();
    law_run_storage_frame(code, ctx, initial_state(), depth, n, key);
    lemma_sload(code, ctx, m, depth);
}

// ---------------------------------------------------------------------
// Call depth

/// A run that does not run out of its depth budget gives the same result
/// with one more level of depth.
proof fn lemma_run_depth(code: Seq<u8>, ctx: CtxView, m: MState, depth: nat, fuel: nat)
    ensures
        !(spec_run(code, ctx, m, depth, fuel) is Limit) ==> spec_run(code, ctx, m, depth + 1, fuel)
            == spec_run(code, ctx, m, depth, fuel),
    decreases depth, fuel, 2nat,
{
    if m.pc < code.len() && fuel > 0 {
        lemma_step_depth(code, ctx, m, depth);
        match spec_step(code, ctx, m, depth) {
            StepOut::Next(m2) => {
                lemma_run_depth(code, ctx, m2, depth, (fuel - 1) as nat);
            },
            _ => {},
        }
    }
}

proof fn lemma_step_depth(code: Seq<u8>, ctx: CtxView, m: MState, depth: nat)
    ensures
        !(spec_step(code, ctx, m, depth) is Limit) ==> spec_step(code, ctx, m, depth + 1)
            == spec_step(code, ctx, m, depth),
    decreases depth, 0nat, 1nat,
{
    if code[m.pc as int] == 0xf1 {
        lemma_call_depth(ctx, m, depth);
    }
}

proof fn lemma_call_depth(ctx: CtxView, m: MState, depth: nat)
    ensures
        !(step_call(ctx, m, depth) is Limit) ==> step_call(ctx, m, depth + 1) == step_call(
            ctx,
            m,
            depth,
        ),
    decreases depth, 0nat, 0nat,
{
    let s = m.stack;
    if depth > 0 && s.len() >= 7 {
        let a_off = nth(s, 3).value();
        let a_size = nth(s, 4).value();
        if let Some(t1) = mem_end(a_off, a_size) {
            let data = expand(m.memory, t1).subrange(a_off as int, (a_off + a_size) as int);
            let sub = CtxView { tx: call_tx(ctx.tx, nth(s, 1), data), ..ctx };
            lemma_run_depth(
                callee_code(ctx, nth(s, 1)),
                sub,
                initial_state(),
                (depth - 1) as nat,
                step_limit(),
            );
        }
    }
}

/// A run that does not run out of its depth budget gives the same result
/// with any larger budget.
pub proof fn law_run_depth_monotone(
    code: Seq<u8>,
    ctx: CtxView,
    m: MState,
    d1: nat,
    d2: nat,
    fuel: nat,
)
    requires
        d1 <= d2,
        !(spec_run(code, ctx, m, d1, fuel) is Limit),
    ensures
        spec_run(code, ctx, m, d2, fuel) == spec_run(code, ctx, m, d1, fuel),
    decreases d2 - d1,
{
    if d1 < d2 {
        lemma_run_depth(code, ctx, m, d1, fuel);
        law_run_depth_monotone(code, ctx, m, d1 + 1, d2, fuel);
    }
}

// ---------------------------------------------------------------------
// Calls

/// The code a CALL to `address` runs: that of the account, or none.
pub open spec fn callee_code(ctx: CtxView, address: Word) -> Seq<u8> {
    match code_of(ctx.accounts, address) {
        Some(c) => c,
        None => Seq::empty(),
    }
}

/// The call data of the CALL about to run from `m`: the argument bytes of
/// memory, grown to cover them.
pub open spec fn call_data(m: MState) -> Seq<u8> {
    let a_off = nth(m.stack, 3).value();
    let a_size = nth(m.stack, 4).value();
    expand(m.memory, mem_end(a_off, a_size).unwrap()).subrange(
        a_off as int,
        (a_off + a_size) as int,
    )
}

/// The context the callee of the CALL about to run from `m` runs in.
pub open spec fn callee_ctx(ctx: CtxView, m: MState) -> CtxView {
    CtxView { tx: call_tx(ctx.tx, nth(m.stack, 1), call_data(m)), ..ctx }
}

/// A CALL reached in a run of `code`: the callee's own run gives `r`, which
/// is also what a whole execution of the callee code gives. The caller goes
/// on with the seven operands replaced by 1 if `r` succeeded and 0 if not,
/// whatever `r` is; its memory grown to cover both ranges, with the first
/// bytes of the return data copied to the return range, no more than it
/// holds, and every other byte as before; the callee's logs appended only
/// if it succeeded; its storage unchanged. The run of the caller then goes
/// on from there.
pub proof fn law_call_over_run(
    code: Seq<u8>,
    ctx: CtxView,
    depth: nat,
    n: nat,
    r: ResultView,
)
    requires
        0 < depth <= depth_limit(),
        n < step_limit(),
        run_steps(code, ctx, initial_state(), depth, n) is Some,
        ({
            let m = run_steps(code, ctx, initial_state(), depth, n).unwrap();
            let s = m.stack;
            &&& m.pc < code.len()
            &&& code[m.pc as int] == 0xf1
            &&& s.len() >= 7
            &&& fits(s, 3) && fits(s, 4) && fits(s, 5) && fits(s, 6)
            &&& mem_end(nth(s, 3).value(), nth(s, 4).value()) is Some
            &&& mem_end(nth(s, 5).value(), nth(s, 6).value()) is Some
            &&& spec_run(
                callee_code(ctx, nth(s, 1)),
                callee_ctx(ctx, m),
                initial_state(),
                (depth - 1) as nat,
                step_limit(),
            ) == RunOut::Done(r)
        }),
    ensures
        ({
            let m = run_steps(code, ctx, initial_state(), depth, n).unwrap();
            let s = m.stack;
            let r_off = nth(s, 5).value();
            let r_size = nth(s, 6).value();
            let k = if r.ret.len() < r_size { r.ret.len() } else { r_size };
            let m2 = next_state(spec_step(code, ctx, m, depth));
            &&& spec_exec(callee_code(ctx, nth(s, 1)), callee_ctx(ctx, m), depth_limit())
                == RunOut::Done(r)
            &&& spec_step(code, ctx, m, depth) is Next
            &&& m2.stack == drop_top(s, 7).push(bool_word(r.success))
            &&& m2.logs == if r.success { m.logs + r.logs } else { m.logs }
            &&& m2.storage == m.storage
            &&& m2.pc == m.pc + 1
            &&& m2.memory.len() >= m.memory.len()
            &&& m2.memory.len() >= r_off + r_size
            &&& m2.memory.len() >= nth(s, 3).value() + nth(s, 4).value()
            &&& forall|i: nat| r_off <= i < r_off + k ==> m2.memory[i as int] == r.ret[i - r_off]
            &&& forall|i: nat|
                i < m2.memory.len() && !(r_off <= i < r_off + k) ==> m2.memory[i as int]
                    == byte_before(m, i)
            &&& spec_exec(code, ctx, depth) == spec_run(
                code,
                ctx,
                m2,
                depth,
                (step_limit() - n - 1) as nat,
            )
        }),
{
    let m = run_steps(code, ctx, initial_state(), depth, n).unwrap();
    let s = m.stack;
    let a_off = nth(s, 3).value();
    let a_size = nth(s, 4).value();
    let r_off = nth(s, 5).value();
    let r_size = nth(s, 6).value();
    let t1 = mem_end(a_off, a_size).unwrap();
    let t2 = mem_end(r_off, r_size).unwrap();
    let k = if r.ret.len() < r_size { r.ret.len() } else { r_size };
    lemma_mem_end(a_off, a_size);
    lemma_mem_end(r_off, r_size);
    law_run_depth_monotone(
        callee_code(ctx, nth(s, 1)),
        callee_ctx(ctx, m),
        initial_state(),
        (depth - 1) as nat,
        depth_limit(),
        step_limit(),
    );
    assert(spec_step(code, ctx, m, depth) == step_call(ctx, m, depth));
    let mem1 = expand(m.memory, t1);
    let mem2 = expand(mem1, t2);
    let d = r.ret.subrange(0, k as int);
    let m2 = next_state(spec_step(code, ctx, m, depth));
    assert(m2.memory == mem_write(mem2, r_off, d));
    assert forall|i: nat|
        i < m2.memory.len() && !(r_off <= i < r_off + k) implies m2.memory[i as int]
        == byte_before(m, i) by {
        lemma_expand_byte(m.memory, t1, i);
        lemma_expand_byte(mem1, t2, i);
        lemma_write_byte(mem2, r_off, d, i);
    }
    assert forall|i: nat| r_off <= i < r_off + k implies m2.memory[i as int] == r.ret[i - r_off] by {
        lemma_write_byte(mem2, r_off, d, i);
    }
    law_run_prefix(code, ctx, initial_state(), depth, step_limit(), n);
}

} // verus!
