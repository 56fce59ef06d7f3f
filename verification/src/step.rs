//! One instruction of the interpreter, group by group. Each function
//! carries out the instructions of one group and is proved to do what
//! `semantics` says of them.

use vstd::prelude::*;
use crate::word::{Word, word_of, word_modulus, lemma_value_bound};
use crate::bytes::{be_value, lemma_be_value_word_bound};
use crate::bigint::word_from_be;
use crate::context::{
    TxContext, BlockContext, StateContext, CtxView, tx_view, block_view, accounts_view, tx_words,
    tx_data, block_fields,
};
use crate::arith::{exec_binary, exec_ternary, exec_unary};
use crate::machine::{Machine, Status, status_matches, peek, drop_words, read_bytes};
use crate::semantics::{
    is_binary, is_arith, is_env, env_word, step_arith, step_push, step_shuffle, step_env, or_zero,
};

verus! {

/// The surroundings of a run, as values.
pub open spec fn ctx_of(
    tx: Option<TxContext>,
    block: Option<BlockContext>,
    state: Option<StateContext>,
) -> CtxView {
    CtxView { tx: tx_view(tx), block: block_view(block), accounts: accounts_view(state) }
}

/// The word read from a byte string of at most 32 bytes.
pub fn word_from_bytes(bytes: &[u8]) -> (r: Word)
    requires
        bytes@.len() <= 32,
    ensures
        r == word_of(be_value(bytes@)),
        r.value() == be_value(bytes@),
{
    let r = word_from_be(bytes);
    proof {
        lemma_be_value_word_bound(bytes@);
        vstd::arithmetic::div_mod::lemma_small_mod(be_value(bytes@), word_modulus());
        crate::word::lemma_word_of_intro(r, be_value(bytes@));
    }
    r
}

/// A present word, or zero.
pub fn or_zero_exec(w: Option<Word>) -> (r: Word)
    ensures
        r == or_zero(w),
{
    match w {
        Some(x) => x,
        None => Word::zero(),
    }
}

fn is_binary_exec(op: u8) -> (r: bool)
    ensures
        r == is_binary(op),
{
    (0x01 <= op && op <= 0x07) || op == 0x0a || op == 0x0b || (0x10 <= op && op <= 0x14) || (0x16
        <= op && op <= 0x18) || (0x1a <= op && op <= 0x1d)
}

/// Arithmetic, comparison and bitwise instructions.
pub fn exec_arith(m: &mut Machine, op: u8) -> (st: Status)
    requires
        is_arith(op),
        old(m).pc < usize::MAX,
    ensures
        status_matches(st, final(m)@, step_arith(old(m)@, op)),
{
    let len = m.stack.len();
    if is_binary_exec(op) {
        if len < 2 {
            return Status::Fault;
        }
        let a = peek(&m.stack, 0);
        let b = peek(&m.stack, 1);
        match exec_binary(op, a, b) {
            None => Status::Fault,
            Some(w) => {
                drop_words(&mut m.stack, 2);
                m.stack.push(w);
                m.pc = m.pc + 1;
                Status::Continue
            },
        }
    } else if op == 0x08 || op == 0x09 {
        if len < 3 {
            return Status::Fault;
        }
        let a = peek(&m.stack, 0);
        let b = peek(&m.stack, 1);
        let n = peek(&m.stack, 2);
        match exec_ternary(op, a, b, n) {
            None => Status::Fault,
            Some(w) => {
                drop_words(&mut m.stack, 3);
                m.stack.push(w);
                m.pc = m.pc + 1;
                Status::Continue
            },
        }
    } else {
        if len < 1 {
            return Status::Fault;
        }
        let a = peek(&m.stack, 0);
        let w = exec_unary(op, a);
        drop_words(&mut m.stack, 1);
        m.stack.push(w);
        m.pc = m.pc + 1;
        Status::Continue
    }
}

/// PUSH0 to PUSH32.
pub fn exec_push(code: &[u8], m: &mut Machine, op: u8) -> (st: Status)
    requires
        0x5f <= op <= 0x7f,
        old(m).pc < code@.len(),
    ensures
        status_matches(st, final(m)@, step_push(code@, old(m)@, op)),
{
    let n = (op - 0x5f) as usize;
    let code_len = code.len();
    let start = m.pc + 1;
    if n > code_len - start {
        return Status::Fault;
    }
    let bytes = read_bytes(code, start, n);
    let w = word_from_bytes(bytes.as_slice());
    m.stack.push(w);
    m.pc = start + n;
    Status::Continue
}

/// POP, DUP1 to DUP16 and SWAP1 to SWAP16.
pub fn exec_shuffle(m: &mut Machine, op: u8) -> (st: Status)
    requires
        op == 0x50 || 0x80 <= op <= 0x9f,
        old(m).pc < usize::MAX,
    ensures
        status_matches(st, final(m)@, step_shuffle(old(m)@, op)),
{
    let len = m.stack.len();
    if op == 0x50 {
        if len > 0 {
            m.stack.pop();
        }
    } else if op <= 0x8f {
        let n = (op - 0x7f) as usize;
        if len < n {
            return Status::Fault;
        }
        let w = m.stack[len - n];
        m.stack.push(w);
    } else {
        let n = (op - 0x8f) as usize;
        if len < n + 1 {
            return Status::Fault;
        }
        let top = len - 1;
        let other = len - 1 - n;
        let a = m.stack[top];
        let b = m.stack[other];
        m.stack.set(top, b);
        m.stack.set(other, a);
    }
    m.pc = m.pc + 1;
    Status::Continue
}

/// The word an environment instruction pushes.
fn env_word_exec(
    code: &[u8],
    tx: &Option<TxContext>,
    block: &Option<BlockContext>,
    state: &Option<StateContext>,
    m: &Machine,
    op: u8,
) -> (r: Word)
    ensures
        r == env_word(code@, ctx_of(*tx, *block, *state), m@, op),
{
    let (to, from, origin, gasprice, value) = tx_words(tx);
    let b = block_fields(block);
    if op == 0x30 {
        or_zero_exec(to)
    } else if op == 0x32 {
        or_zero_exec(origin)
    } else if op == 0x33 {
        or_zero_exec(from)
    } else if op == 0x34 {
        or_zero_exec(value)
    } else if op == 0x36 {
        match tx_data(tx) {
            Some(d) => Word::from_usize(d.len()),
            None => Word::zero(),
        }
    } else if op == 0x38 {
        Word::from_usize(code.len())
    } else if op == 0x3a {
        or_zero_exec(gasprice)
    } else if op == 0x41 {
        or_zero_exec(b.coinbase)
    } else if op == 0x42 {
        or_zero_exec(b.timestamp)
    } else if op == 0x43 {
        or_zero_exec(b.number)
    } else if op == 0x44 {
        or_zero_exec(b.difficulty)
    } else if op == 0x45 {
        or_zero_exec(b.gaslimit)
    } else if op == 0x46 {
        or_zero_exec(b.chainid)
    } else if op == 0x48 {
        or_zero_exec(b.basefee)
    } else if op == 0x58 {
        Word::from_usize(m.pc)
    } else if op == 0x59 {
        Word::from_usize(m.memory.len())
    } else {
        let r = Word::max();
        proof {
            crate::word::lemma_value_word_of_small((word_modulus() - 1) as nat);
            crate::word::lemma_value_injective(r, word_of((word_modulus() - 1) as nat));
        }
        r
    }
}

/// Instructions that push a value of the surroundings or the machine, and
/// BLOCKHASH and JUMPDEST, which do nothing.
pub fn exec_env(
    code: &[u8],
    tx: &Option<TxContext>,
    block: &Option<BlockContext>,
    state: &Option<StateContext>,
    m: &mut Machine,
    op: u8,
) -> (st: Status)
    requires
        is_env(op),
        old(m).pc < usize::MAX,
    ensures
        status_matches(st, final(m)@, step_env(code@, ctx_of(*tx, *block, *state), old(m)@, op)),
{
    if op != 0x40 && op != 0x5b {
        let w = env_word_exec(code, tx, block, state, m, op);
        m.stack.push(w);
    }
    m.pc = m.pc + 1;
    Status::Continue
}

} // verus!

verus! {

/// The word an account query pushes.
fn account_word_exec(
    tx: &Option<TxContext>,
    block: &Option<BlockContext>,
    state: &Option<StateContext>,
    op: u8,
    address: Word,
) -> (r: Word)
    ensures
        r == crate::semantics::account_word(ctx_of(*tx, *block, *state), op, address),
{
    if op == 0x31 {
        or_zero_exec(crate::context::balance_at(state, &address))
    } else if op == 0x3b {
        match crate::context::code_at(state, &address) {
            Some(c) => Word::from_usize(c.len()),
            None => Word::zero(),
        }
    } else {
        match crate::context::code_at(state, &address) {
            Some(c) => {
                let h = crate::keccak::keccak256(c.as_slice());
                word_from_bytes(&h)
            },
            None => Word::zero(),
        }
    }
}

/// The word CALLDATALOAD reads.
fn calldata_word_exec(tx: &Option<TxContext>, offset: Word) -> (r: Word)
    ensures
        r == crate::semantics::calldata_word(tx_view(*tx).data, offset),
{
    match tx_data(tx) {
        Some(d) => {
            let len = Word::from_usize(d.len());
            if offset.lt(&len) {
                let off = offset.to_usize();
                let bytes = crate::machine::read_padded(d.as_slice(), off, 32);
                word_from_bytes(bytes.as_slice())
            } else {
                Word::zero()
            }
        },
        None => Word::zero(),
    }
}

/// BALANCE, EXTCODESIZE, EXTCODEHASH, SELFBALANCE, CALLDATALOAD, SLOAD
/// and SSTORE.
pub fn exec_state(
    tx: &Option<TxContext>,
    block: &Option<BlockContext>,
    state: &Option<StateContext>,
    m: &mut Machine,
    op: u8,
) -> (st: Status)
    requires
        op == 0x31 || op == 0x35 || op == 0x3b || op == 0x3f || op == 0x47 || op == 0x54 || op
            == 0x55,
        old(m).pc < usize::MAX,
    ensures
        status_matches(
            st,
            final(m)@,
            crate::semantics::step_state(ctx_of(*tx, *block, *state), old(m)@, op),
        ),
{
    let len = m.stack.len();
    if op == 0x47 {
        let (to, _, _, _, _) = tx_words(tx);
        let me = or_zero_exec(to);
        let w = or_zero_exec(crate::context::balance_at(state, &me));
        m.stack.push(w);
    } else if op == 0x55 {
        if len < 2 {
            return Status::Fault;
        }
        let key = peek(&m.stack, 0);
        let value = peek(&m.stack, 1);
        drop_words(&mut m.stack, 2);
        m.storage.insert(key, value);
    } else {
        if len < 1 {
            return Status::Fault;
        }
        let a = peek(&m.stack, 0);
        let w = if op == 0x54 {
            match m.storage.get(&a) {
                Some(v) => *v,
                None => Word::zero(),
            }
        } else if op == 0x35 {
            calldata_word_exec(tx, a)
        } else {
            account_word_exec(tx, block, state, op, a)
        };
        drop_words(&mut m.stack, 1);
        m.stack.push(w);
    }
    m.pc = m.pc + 1;
    Status::Continue
}

/// CALLDATACOPY, CODECOPY and EXTCODECOPY.
pub fn exec_copy(
    code: &[u8],
    tx: &Option<TxContext>,
    block: &Option<BlockContext>,
    state: &Option<StateContext>,
    m: &mut Machine,
    op: u8,
) -> (st: Status)
    requires
        op == 0x37 || op == 0x39 || op == 0x3c,
        old(m).pc < usize::MAX,
    ensures
        status_matches(
            st,
            final(m)@,
            crate::semantics::step_copy(code@, ctx_of(*tx, *block, *state), old(m)@, op),
        ),
{
    let len = m.stack.len();
    let k: usize = if op == 0x3c { 1 } else { 0 };
    if len < 3 + k {
        return Status::Fault;
    }
    let d = peek(&m.stack, k);
    let o = peek(&m.stack, k + 1);
    let z = peek(&m.stack, k + 2);
    if !d.fits_usize() || !o.fits_usize() || !z.fits_usize() {
        return Status::Fault;
    }
    let dest = d.to_usize();
    let offset = o.to_usize();
    let size = z.to_usize();
    let address = peek(&m.stack, 0);
    drop_words(&mut m.stack, 3 + k);
    m.pc = m.pc + 1;
    let empty: Vec<u8> = Vec::new();
    let src: &[u8] = if op == 0x37 {
        match tx_data(tx) {
            Some(data) => data.as_slice(),
            None => empty.as_slice(),
        }
    } else if op == 0x39 {
        code
    } else {
        match crate::context::code_at(state, &address) {
            Some(c) => c.as_slice(),
            None => {
                return Status::Continue;
            },
        }
    };
    let t = match crate::machine::mem_end_exec(dest, size) {
        Some(t) => t,
        None => {
            return Status::Fault;
        },
    };
    if size > 0 && offset > usize::MAX - (size - 1) {
        return Status::Fault;
    }
    proof {
        crate::machine::lemma_mem_end(dest as nat, size as nat);
    }
    crate::machine::grow(&mut m.memory, t);
    let bytes = crate::machine::read_padded(src, offset, size);
    crate::machine::write_bytes(&mut m.memory, dest, bytes.as_slice());
    Status::Continue
}

/// MLOAD, MSTORE and MSTORE8.
pub fn exec_mem(m: &mut Machine, op: u8) -> (st: Status)
    requires
        0x51 <= op <= 0x53,
        old(m).pc < usize::MAX,
    ensures
        status_matches(st, final(m)@, crate::semantics::step_mem(old(m)@, op)),
{
    let len = m.stack.len();
    let need: usize = if op == 0x51 { 1 } else { 2 };
    if len < need {
        return Status::Fault;
    }
    let o = peek(&m.stack, 0);
    if !o.fits_usize() {
        return Status::Fault;
    }
    let offset = o.to_usize();
    let width: usize = if op == 0x53 { 1 } else { 32 };
    let t = match crate::machine::mem_end_exec(offset, width) {
        Some(t) => t,
        None => {
            return Status::Fault;
        },
    };
    proof {
        crate::machine::lemma_mem_end(offset as nat, width as nat);
    }
    crate::machine::grow(&mut m.memory, t);
    if op == 0x51 {
        let bytes = read_bytes(m.memory.as_slice(), offset, 32);
        let w = word_from_bytes(bytes.as_slice());
        drop_words(&mut m.stack, 1);
        m.stack.push(w);
    } else if op == 0x52 {
        let v = peek(&m.stack, 1);
        let bytes = crate::bigint::word_to_be(v);
        drop_words(&mut m.stack, 2);
        crate::machine::write_bytes(&mut m.memory, offset, &bytes);
    } else {
        let v = peek(&m.stack, 1);
        let b = v.low_byte();
        drop_words(&mut m.stack, 2);
        m.memory.set(offset, b);
    }
    m.pc = m.pc + 1;
    Status::Continue
}

} // verus!

verus! {

/// SHA3, LOG0 to LOG4, RETURN and REVERT.
pub fn exec_range(
    tx: &Option<TxContext>,
    block: &Option<BlockContext>,
    state: &Option<StateContext>,
    m: &mut Machine,
    op: u8,
) -> (st: Status)
    requires
        op == 0x20 || 0xa0 <= op <= 0xa4 || op == 0xf3 || op == 0xfd,
        old(m).pc < usize::MAX,
    ensures
        status_matches(
            st,
            final(m)@,
            crate::semantics::step_range(ctx_of(*tx, *block, *state), old(m)@, op),
        ),
{
    let len = m.stack.len();
    let topics: usize = if 0xa0 <= op && op <= 0xa4 { (op - 0xa0) as usize } else { 0 };
    if len < 2 + topics {
        return Status::Fault;
    }
    let o = peek(&m.stack, 0);
    let z = peek(&m.stack, 1);
    if !o.fits_usize() || !z.fits_usize() {
        return Status::Fault;
    }
    let offset = o.to_usize();
    let size = z.to_usize();
    let t = match crate::machine::mem_end_exec(offset, size) {
        Some(t) => t,
        None => {
            return Status::Fault;
        },
    };
    if op == 0x20 && m.memory.len() == 0 {
        drop_words(&mut m.stack, 2);
        m.pc = m.pc + 1;
        return Status::Continue;
    }
    proof {
        crate::machine::lemma_mem_end(offset as nat, size as nat);
    }
    crate::machine::grow(&mut m.memory, t);
    let data = read_bytes(m.memory.as_slice(), offset, size);
    if op == 0x20 {
        let h = crate::keccak::keccak256(data.as_slice());
        let w = word_from_bytes(&h);
        drop_words(&mut m.stack, 2);
        m.stack.push(w);
        m.pc = m.pc + 1;
        Status::Continue
    } else if op == 0xf3 {
        drop_words(&mut m.stack, 2);
        m.pc = m.pc + 1;
        Status::Return(data)
    } else if op == 0xfd {
        drop_words(&mut m.stack, 2);
        m.pc = m.pc + 1;
        Status::Revert(data)
    } else {
        let mut words: Vec<Word> = Vec::new();
        let mut i: usize = 0;
        while i < topics
            invariant
                topics <= 4,
                2 + topics <= m.stack@.len(),
                0 <= i <= topics,
                words@ =~= Seq::new(i as nat, |j: int| crate::semantics::nth(m.stack@, (2 + j) as nat)),
            decreases topics - i,
        {
            words.push(peek(&m.stack, 2 + i));
            i = i + 1;
        }
        let (to, _, _, _, _) = tx_words(tx);
        let address = or_zero_exec(to);
        let log = crate::context::Log { address, data, topics: words };
        drop_words(&mut m.stack, 2 + topics);
        let ghost before = m.logs@;
        m.logs.push(log);
        proof {
            assert(crate::context::logs_view(m.logs@) =~= crate::context::logs_view(before).push(
                log@,
            ));
        }
        m.pc = m.pc + 1;
        Status::Continue
    }
}

/// The jump destinations of `code`, found by a scan that skips push data.
pub fn jump_destinations(code: &[u8]) -> (r: std::collections::HashSet<usize>)
    ensures
        forall|t: usize| r@.contains(t) <==> crate::semantics::is_jumpdest(code@, t as nat),
{
    broadcast use vstd::std_specs::hash::group_hash_axioms;

    let mut r: std::collections::HashSet<usize> = std::collections::HashSet::new();
    let len = code.len();
    let mut i: usize = 0;
    proof {
        lemma_jumpdests_from_range(code@, 0);
    }
    while i < len
        invariant
            len == code@.len(),
            0 <= i <= len,
            forall|t: usize| r@.contains(t) ==> t < i,
            forall|t: usize|
                crate::semantics::is_jumpdest(code@, t as nat) <==> (r@.contains(t)
                    || crate::semantics::jumpdests_from(code@, i as nat).contains(t as nat)),
            forall|t: nat| #[trigger]
                crate::semantics::jumpdests_from(code@, i as nat).contains(t) ==> i <= t < len,
        decreases len - i,
    {
        proof {
            lemma_jumpdests_from_range(code@, (i + 1) as nat);
        }
        let op = code[i];
        if op == 0x5b {
            r.insert(i);
            i = i + 1;
        } else if 0x60 <= op && op <= 0x7f {
            let size = (op - 0x5f) as usize;
            proof {
                let next = (i + size + 1) as nat;
                if next < len {
                    lemma_jumpdests_from_range(code@, next);
                }
            }
            if size + 1 < len - i {
                i = i + size + 1;
            } else {
                i = len;
            }
        } else {
            i = i + 1;
        }
    }
    r
}

/// The jump destinations found from `i` on lie in `[i, code.len())`.
pub proof fn lemma_jumpdests_from_range(code: Seq<u8>, i: nat)
    ensures
        forall|t: nat| #[trigger]
            crate::semantics::jumpdests_from(code, i).contains(t) ==> i <= t < code.len(),
    decreases code.len() - i,
{
    if i < code.len() {
        lemma_jumpdests_from_range(code, i + 1);
        let op = code[i as int];
        let next = (i + (op - 0x5f) + 1) as nat;
        if 0x60 <= op <= 0x7f && next < code.len() {
            lemma_jumpdests_from_range(code, next);
        }
        assert forall|t: nat| #[trigger]
            crate::semantics::jumpdests_from(code, i).contains(t) implies i <= t < code.len() by {
            if op == 0x5b {
                if t != i {
                    assert(crate::semantics::jumpdests_from(code, i + 1).contains(t));
                }
            } else if 0x60 <= op <= 0x7f {
                if next < code.len() {
                    assert(crate::semantics::jumpdests_from(code, next).contains(t));
                }
            } else {
                assert(crate::semantics::jumpdests_from(code, i + 1).contains(t));
            }
        }
    }
}

/// JUMP and JUMPI.
pub fn exec_jump(
    code: &[u8],
    dests: &std::collections::HashSet<usize>,
    m: &mut Machine,
    op: u8,
) -> (st: Status)
    requires
        op == 0x56 || op == 0x57,
        old(m).pc < usize::MAX,
        forall|t: usize| dests@.contains(t) <==> crate::semantics::is_jumpdest(code@, t as nat),
    ensures
        status_matches(st, final(m)@, crate::semantics::step_jump(code@, old(m)@, op)),
{
    broadcast use vstd::std_specs::hash::group_hash_axioms;

    let len = m.stack.len();
    let need: usize = if op == 0x56 { 1 } else { 2 };
    if len < need {
        return Status::Fault;
    }
    let t = peek(&m.stack, 0);
    if !t.fits_usize() {
        return Status::Fault;
    }
    let target = t.to_usize();
    let skip = op == 0x57 && peek(&m.stack, 1).is_zero();
    drop_words(&mut m.stack, need);
    if skip {
        m.pc = m.pc + 1;
        Status::Continue
    } else if dests.contains(&target) {
        m.pc = target;
        Status::Continue
    } else {
        Status::Invalid
    }
}

} // verus!
