//! An interpreter for Ethereum virtual machine bytecode.
//!
//! `evm_checked` runs a program in a context of transaction, block and
//! world state and returns the final stack, whether the run succeeded,
//! the logs it emitted and the data it returned. Its contract ties the
//! result to `semantics::spec_exec`, the meaning of a run as the repeated
//! application of `semantics::spec_step`, which says what each instruction
//! does to the stack, memory, storage and logs.

pub mod word;
pub mod bytes;
pub mod bigint;
pub mod keccak;
pub mod table;
pub mod context;
pub mod semantics;
pub mod arith;
pub mod machine;
pub mod step;
pub mod interp;
pub mod laws;
pub mod run_laws;
pub mod opcode_laws;

pub use word::Word;
pub use table::Table;
pub use context::{Log, EvmResult, TxContext, BlockContext, AccountInfo, StateContext, EvmContext};
pub use interp::{evm, evm_checked, Abort};
