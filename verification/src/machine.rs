//! The machine state of a running program and the memory and stack
//! operations the instructions are built from.

use vstd::prelude::*;
use vstd::arithmetic::div_mod::*;
use crate::word::Word;
use crate::table::Table;
use crate::context::{Log, logs_view};
use crate::bytes::copy_padded;
use crate::semantics::{MState, StepOut, mem_end, expand, mem_write, nth, drop_top};

verus! {

/// The machine between two instructions.
pub struct Machine {
    pub stack: Vec<Word>,
    pub memory: Vec<u8>,
    pub storage: Table<Word>,
    pub logs: Vec<Log>,
    pub pc: usize,
}

impl View for Machine {
    type V = MState;

    open spec fn view(&self) -> MState {
        MState {
            stack: self.stack@,
            memory: self.memory@,
            storage: self.storage.contents(),
            logs: logs_view(self.logs@),
            pc: self.pc as nat,
        }
    }
}

/// How an instruction left the machine.
pub enum Status {
    Continue,
    Stop,
    Return(Vec<u8>),
    Revert(Vec<u8>),
    Invalid,
    Fault,
    Limit,
}

/// Whether an instruction's status and the machine it left agree with the
/// meaning of the instruction.
pub open spec fn status_matches(st: Status, m: MState, out: StepOut) -> bool {
    match out {
        StepOut::Next(m2) => st is Continue && m == m2,
        StepOut::Stop(m2) => st is Stop && m == m2,
        StepOut::Return(m2, d) => st matches Status::Return(v) && v@ == d && m == m2,
        StepOut::Revert(m2, d) => st matches Status::Revert(v) && v@ == d && m == m2,
        StepOut::Invalid(m2) => st is Invalid && m == m2,
        StepOut::Fault => st is Fault,
        StepOut::Limit => st is Limit,
    }
}

impl Machine {
    /// The machine before the first instruction.
    pub fn new() -> (r: Machine)
        ensures
            r@ == crate::semantics::initial_state(),
    {
        let r = Machine {
            stack: Vec::new(),
            memory: Vec::new(),
            storage: Table::new(),
            logs: Vec::new(),
            pc: 0,
        };
        assert(logs_view(r.logs@) =~= Seq::<crate::context::LogView>::empty());
        r
    }
}

/// The `i`-th word from the top of the stack.
pub fn peek(stack: &Vec<Word>, i: usize) -> (r: Word)
    requires
        i < stack@.len(),
    ensures
        r == nth(stack@, i as nat),
{
    stack[stack.len() - 1 - i]
}

/// Removes the top `k` words of the stack.
pub fn drop_words(stack: &mut Vec<Word>, k: usize)
    requires
        k <= old(stack)@.len(),
    ensures
        final(stack)@ == drop_top(old(stack)@, k as nat),
{
    let n = stack.len();
    stack.truncate(n - k);
}

/// The end `mem_end` gives lies past the range and is a multiple of 32.
pub proof fn lemma_mem_end(offset: nat, size: nat)
    ensures
        mem_end(offset, size) matches Some(t) ==> offset + size <= t && t % 32 == 0 && t <= usize::MAX,
{
    let x = (offset + size + 31) as int;
    lemma_fundamental_div_mod(x, 32);
    lemma_mod_bound(x, 32);
    lemma_div_pos_is_pos(x, 32);
    lemma_mod_multiples_basic(x / 32, 32);
}

/// `mem_end`, computed without overflow.
pub fn mem_end_exec(offset: usize, size: usize) -> (r: Option<usize>)
    ensures
        r matches Some(t) ==> mem_end(offset as nat, size as nat) == Some(t as nat),
        r is None ==> mem_end(offset as nat, size as nat) is None,
{
    if offset > usize::MAX - size {
        return None;
    }
    let required = offset + size;
    if required > usize::MAX - 31 {
        return None;
    }
    let padded = required + 31;
    proof {
        lemma_fundamental_div_mod(padded as int, 32);
        lemma_mod_bound(padded as int, 32);
    }
    Some(padded / 32 * 32)
}

/// Grows memory with zero bytes to at least `target` bytes.
pub fn grow(mem: &mut Vec<u8>, target: usize)
    ensures
        final(mem)@ == expand(old(mem)@, target as nat),
{
    let ghost start = mem@;
    while mem.len() < target
        invariant
            start == old(mem)@,
            start.len() <= mem@.len(),
            mem@.len() <= target || mem@ == start,
            mem@ =~= start + Seq::new((mem@.len() - start.len()) as nat, |i: int| 0u8),
        decreases target - mem@.len(),
    {
        mem.push(0);
    }
    proof {
        if start.len() >= target {
            assert(mem@ =~= start);
        }
    }
}

/// Writes `data` into memory from `at` on.
pub fn write_bytes(mem: &mut Vec<u8>, at: usize, data: &[u8])
    requires
        at + data@.len() <= old(mem)@.len(),
    ensures
        final(mem)@ == mem_write(old(mem)@, at as nat, data@),
{
    let ghost start = mem@;
    let len = mem.len();
    let mut i: usize = 0;
    while i < data.len()
        invariant
            start == old(mem)@,
            len == start.len(),
            at + data@.len() <= start.len(),
            mem@.len() == start.len(),
            0 <= i <= data@.len(),
            forall|j: int| 0 <= j < at ==> mem@[j] == start[j],
            forall|j: int| at <= j < at + i ==> mem@[j] == data@[j - at],
            forall|j: int| at + i <= j < mem@.len() ==> mem@[j] == start[j],
        decreases data@.len() - i,
    {
        mem.set(at + i, data[i]);
        i = i + 1;
    }
    assert(mem@ =~= mem_write(start, at as nat, data@));
}

/// The bytes of `v` in `[start, start + len)`.
pub fn read_bytes(v: &[u8], start: usize, len: usize) -> (r: Vec<u8>)
    requires
        start + len <= v@.len(),
    ensures
        r@ == v@.subrange(start as int, start + len),
{
    let mut r: Vec<u8> = Vec::new();
    let total = v.len();
    let mut i: usize = 0;
    while i < len
        invariant
            total == v@.len(),
            start + len <= v@.len(),
            0 <= i <= len,
            r@ =~= v@.subrange(start as int, start + i),
        decreases len - i,
    {
        r.push(v[start + i]);
        i = i + 1;
    }
    r
}

/// `size` bytes of `src` from `offset` on, zero past its end.
pub fn read_padded(src: &[u8], offset: usize, size: usize) -> (r: Vec<u8>)
    ensures
        r@ == copy_padded(src@, offset as nat, size as nat),
{
    let mut r: Vec<u8> = Vec::new();
    let mut i: usize = 0;
    while i < size
        invariant
            0 <= i <= size,
            r@ =~= copy_padded(src@, offset as nat, i as nat),
        decreases size - i,
    {
        let b = if offset < src.len() && i < src.len() - offset {
            src[offset + i]
        } else {
            0u8
        };
        r.push(b);
        i = i + 1;
    }
    r
}

} // verus!
