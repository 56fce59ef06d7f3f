//! Running a program: the instruction dispatch, CALL, the run loop and
//! the entry points.

use vstd::prelude::*;
use crate::word::Word;
use crate::context::{
    EvmContext, EvmResult, TxContext, BlockContext, StateContext, logs_view, tx_words, code_at,
};
use crate::machine::{
    Machine, Status, status_matches, peek, drop_words, mem_end_exec, grow, read_bytes, write_bytes,
    lemma_mem_end,
};
use crate::semantics::{
    RunOut, is_arith, is_env, spec_step, spec_run, spec_exec, step_call, stop_result, depth_limit,
    step_limit, initial_state,
};
use crate::step::{
    ctx_of, exec_arith, exec_push, exec_shuffle, exec_env, exec_state, exec_copy, exec_mem,
    exec_range, exec_jump, jump_destinations,
};

verus! {

/// Why a run produced no result.
#[derive(Clone, Copy, Debug, PartialEq, Eq, Structural)]
pub enum Abort {
    /// An instruction could not be carried out (see `StepOut::Fault`).
    Fault,
    /// The run, or a call nested in it, ran out of its step or depth budget.
    Exhausted,
}

/// How a run ended.
pub enum Outcome {
    Done(EvmResult),
    Fault,
    Limit,
}

/// Whether a run's outcome agrees with the meaning of the run.
pub open spec fn outcome_matches(o: Outcome, r: RunOut) -> bool {
    match r {
        RunOut::Done(v) => o matches Outcome::Done(x) && x@ == v,
        RunOut::Fault => o is Fault,
        RunOut::Limit => o is Limit,
    }
}

/// The stack listed from the top down.
fn reversed(stack: &Vec<Word>) -> (r: Vec<Word>)
    ensures
        r@ == stack@.reverse(),
{
    let n = stack.len();
    let mut r: Vec<Word> = Vec::new();
    let mut i: usize = 0;
    while i < n
        invariant
            n == stack@.len(),
            0 <= i <= n,
            r@ =~= Seq::new(i as nat, |j: int| stack@[n - 1 - j]),
        decreases n - i,
    {
        r.push(stack[n - 1 - i]);
        i = i + 1;
    }
    assert(r@ =~= stack@.reverse());
    r
}

/// The result of a run that stops normally.
fn stopped(m: Machine) -> (r: EvmResult)
    ensures
        r@ == stop_result(m@),
{
    let stack = reversed(&m.stack);
    EvmResult { stack, success: true, logs: m.logs, ret: Vec::new() }
}

fn is_arith_exec(op: u8) -> (r: bool)
    ensures
        r == is_arith(op),
{
    (0x01 <= op && op <= 0x0b) || (0x10 <= op && op <= 0x1d)
}

fn is_env_exec(op: u8) -> (r: bool)
    ensures
        r == is_env(op),
{
    op == 0x30 || op == 0x32 || op == 0x33 || op == 0x34 || op == 0x36 || op == 0x38 || op
        == 0x3a || op == 0x40 || (0x41 <= op && op <= 0x46) || op == 0x48 || op == 0x58 || op
        == 0x59 || op == 0x5a || op == 0x5b
}

/// CALL.
fn exec_call(
    tx: &Option<TxContext>,
    block: &Option<BlockContext>,
    state: &Option<StateContext>,
    m: &mut Machine,
    depth: u64,
) -> (st: Status)
    requires
        old(m).pc < usize::MAX,
    ensures
        status_matches(
            st,
            final(m)@,
            step_call(ctx_of(*tx, *block, *state), old(m)@, depth as nat),
        ),
    decreases depth, 0nat,
{
    let len = m.stack.len();
    if len < 7 {
        return Status::Fault;
    }
    let address = peek(&m.stack, 1);
    let a_off = peek(&m.stack, 3);
    let a_size = peek(&m.stack, 4);
    let r_off = peek(&m.stack, 5);
    let r_size = peek(&m.stack, 6);
    if !a_off.fits_usize() || !a_size.fits_usize() || !r_off.fits_usize() || !r_size.fits_usize() {
        return Status::Fault;
    }
    let arg_offset = a_off.to_usize();
    let arg_size = a_size.to_usize();
    let ret_offset = r_off.to_usize();
    let ret_size = r_size.to_usize();
    let t1 = match mem_end_exec(arg_offset, arg_size) {
        Some(t) => t,
        None => {
            return Status::Fault;
        },
    };
    proof {
        lemma_mem_end(arg_offset as nat, arg_size as nat);
    }
    grow(&mut m.memory, t1);
    let call_data = read_bytes(m.memory.as_slice(), arg_offset, arg_size);
    let empty: Vec<u8> = Vec::new();
    let callee: &[u8] = match code_at(state, &address) {
        Some(c) => c.as_slice(),
        None => empty.as_slice(),
    };
    let (to, _, origin, gasprice, _) = tx_words(tx);
    let sub_tx = Some(
        TxContext {
            to: Some(address),
            from: to,
            origin,
            gasprice,
            value: None,
            data: Some(call_data),
        },
    );
    if depth == 0 {
        return Status::Limit;
    }
    let sub = run(callee, &sub_tx, block, state, depth - 1);
    match sub {
        Outcome::Fault => Status::Fault,
        Outcome::Limit => Status::Limit,
        Outcome::Done(r) => {
            let t2 = match mem_end_exec(ret_offset, ret_size) {
                Some(t) => t,
                None => {
                    return Status::Fault;
                },
            };
            proof {
                lemma_mem_end(ret_offset as nat, ret_size as nat);
            }
            grow(&mut m.memory, t2);
            let n = if r.ret.len() < ret_size {
                r.ret.len()
            } else {
                ret_size
            };
            let part = read_bytes(r.ret.as_slice(), 0, n);
            write_bytes(&mut m.memory, ret_offset, part.as_slice());
            drop_words(&mut m.stack, 7);
            if r.success {
                let ghost before = m.logs@;
                let mut sub_logs = r.logs;
                let ghost added = sub_logs@;
                m.logs.append(&mut sub_logs);
                proof {
                    assert(logs_view(m.logs@) =~= logs_view(before) + logs_view(added));
                }
                m.stack.push(Word::one());
            } else {
                m.stack.push(Word::zero());
            }
            m.pc = m.pc + 1;
            Status::Continue
        },
    }
}

/// One instruction: the one at `m.pc`.
fn step(
    code: &[u8],
    tx: &Option<TxContext>,
    block: &Option<BlockContext>,
    state: &Option<StateContext>,
    dests: &std::collections::HashSet<usize>,
    m: &mut Machine,
    depth: u64,
) -> (st: Status)
    requires
        old(m).pc < code@.len(),
        forall|t: usize| dests@.contains(t) <==> crate::semantics::is_jumpdest(code@, t as nat),
    ensures
        status_matches(
            st,
            final(m)@,
            spec_step(code@, ctx_of(*tx, *block, *state), old(m)@, depth as nat),
        ),
    decreases depth, 1nat,
{
    let code_len = code.len();
    let op = code[m.pc];
    if op == 0x00 {
        m.pc = m.pc + 1;
        Status::Stop
    } else if is_arith_exec(op) {
        exec_arith(m, op)
    } else if 0x5f <= op && op <= 0x7f {
        exec_push(code, m, op)
    } else if op == 0x50 || (0x80 <= op && op <= 0x9f) {
        exec_shuffle(m, op)
    } else if is_env_exec(op) {
        exec_env(code, tx, block, state, m, op)
    } else if op == 0x31 || op == 0x35 || op == 0x3b || op == 0x3f || op == 0x47 || op == 0x54
        || op == 0x55 {
        exec_state(tx, block, state, m, op)
    } else if op == 0x37 || op == 0x39 || op == 0x3c {
        exec_copy(code, tx, block, state, m, op)
    } else if 0x51 <= op && op <= 0x53 {
        exec_mem(m, op)
    } else if op == 0x20 || (0xa0 <= op && op <= 0xa4) || op == 0xf3 || op == 0xfd {
        exec_range(tx, block, state, m, op)
    } else if op == 0x56 || op == 0x57 {
        exec_jump(code, dests, m, op)
    } else if op == 0xf1 {
        exec_call(tx, block, state, m, depth)
    } else {
        Status::Invalid
    }
}

/// Runs `code` from the start, with calls nested at most `depth` deep.
pub fn run(
    code: &[u8],
    tx: &Option<TxContext>,
    block: &Option<BlockContext>,
    state: &Option<StateContext>,
    depth: u64,
) -> (r: Outcome)
    ensures
        outcome_matches(r, spec_exec(code@, ctx_of(*tx, *block, *state), depth as nat)),
    decreases depth, 2nat,
{
    let ghost ctx = ctx_of(*tx, *block, *state);
    let dests = jump_destinations(code);
    let mut m = Machine::new();
    let mut fuel: u64 = u64::MAX;
    let code_len = code.len();
    loop
        invariant
            code_len == code@.len(),
            ctx == ctx_of(*tx, *block, *state),
            forall|t: usize| dests@.contains(t) <==> crate::semantics::is_jumpdest(code@, t as nat),
            spec_run(code@, ctx, m@, depth as nat, fuel as nat) == spec_exec(code@, ctx, depth as nat),
        decreases fuel,
    {
        if m.pc >= code_len {
            return Outcome::Done(stopped(m));
        }
        if fuel == 0 {
            return Outcome::Limit;
        }
        let st = step(code, tx, block, state, &dests, &mut m, depth);
        match st {
            Status::Continue => {
                fuel = fuel - 1;
            },
            Status::Stop => {
                return Outcome::Done(stopped(m));
            },
            Status::Return(data) => {
                return Outcome::Done(
                    EvmResult { stack: m.stack, success: true, logs: m.logs, ret: data },
                );
            },
            Status::Revert(data) => {
                return Outcome::Done(
                    EvmResult { stack: m.stack, success: false, logs: m.logs, ret: data },
                );
            },
            Status::Invalid => {
                return Outcome::Done(
                    EvmResult { stack: m.stack, success: false, logs: m.logs, ret: Vec::new() },
                );
            },
            Status::Fault => {
                return Outcome::Fault;
            },
            Status::Limit => {
                return Outcome::Limit;
            },
        }
    }
}

/// Runs `code` in `context`. An execution that would fault, or exhaust
/// its budget of 2^64 - 1 instructions per call and of 2^64 - 1 nested
/// calls, gives the reason instead of a result.
pub fn evm_checked(code: &[u8], context: &EvmContext) -> (r: Result<EvmResult, Abort>)
    ensures
        match spec_exec(code@, context@, depth_limit()) {
            RunOut::Done(v) => r matches Ok(x) && x@ == v,
            RunOut::Fault => r == Err::<EvmResult, Abort>(Abort::Fault),
            RunOut::Limit => r == Err::<EvmResult, Abort>(Abort::Exhausted),
        },
{
    match run(code, &context.tx, &context.block, &context.state, u64::MAX) {
        Outcome::Done(r) => Ok(r),
        Outcome::Fault => Err(Abort::Fault),
        Outcome::Limit => Err(Abort::Exhausted),
    }
}

/// Runs `code` in `context` and returns the stack, whether it succeeded,
/// the logs and the return data.
pub fn evm(code: &[u8], context: EvmContext) -> (r: EvmResult)
    requires
        spec_exec(code@, context@, depth_limit()) is Done,
    ensures
        spec_exec(code@, context@, depth_limit()) == RunOut::Done(r@),
{
    match run(code, &context.tx, &context.block, &context.state, u64::MAX) {
        Outcome::Done(r) => r,
        _ => {
            proof {
                assert(false);
            }
            EvmResult { stack: Vec::new(), success: false, logs: Vec::new(), ret: Vec::new() }
        },
    }
}

} // verus!
