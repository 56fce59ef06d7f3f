use evm::{evm_checked, AccountInfo, EvmContext, StateContext, Table, Word};

fn n(x: u64) -> Word {
    Word::from_u64(x)
}

fn bytecode(hex: &str) -> Vec<u8> {
    hex::decode(hex.replace(' ', "")).unwrap()
}

fn no_context() -> EvmContext {
    EvmContext { tx: None, block: None, state: None }
}

fn with_account(address: u64, code: &str) -> EvmContext {
    let mut table = Table::new();
    table.insert(n(address), AccountInfo { balance: None, code: Some(bytecode(code)) });
    EvmContext { tx: None, block: None, state: Some(StateContext { accounts: Some(table) }) }
}

#[test]
fn mload_reads_back_mstore_across_other_writes() {
    // MSTORE 0x2a at 0, MSTORE8 at 64, MSTORE at 96, arithmetic, then MLOAD 0.
    let code = "602a 6000 52 60ff 6040 53 6007 6060 52 6001 6002 01 50 6000 51";
    let r = evm_checked(&bytecode(code), &no_context()).unwrap();
    assert!(r.success);
    assert_eq!(r.stack, vec![n(0x2a)]);
}

#[test]
fn unwritten_memory_reads_zero() {
    let code = "602a 6000 52 6080 51";
    let r = evm_checked(&bytecode(code), &no_context()).unwrap();
    assert_eq!(r.stack, vec![n(0)]);
}

#[test]
fn msize_is_whole_words_and_grows() {
    // MSIZE, MSTORE8 at 0x21, MSIZE, MLOAD 0 (no growth), MSIZE.
    let code = "59 6001 6021 53 59 6000 51 50 59";
    let r = evm_checked(&bytecode(code), &no_context()).unwrap();
    assert_eq!(r.stack, vec![n(64), n(64), n(0)]);
}

#[test]
fn sload_reads_back_sstore_across_other_stores() {
    let code = "6007 6001 55 6009 6002 55 6003 6003 55 6001 54";
    let r = evm_checked(&bytecode(code), &no_context()).unwrap();
    assert_eq!(r.stack, vec![n(7)]);
}

#[test]
fn unstored_key_reads_zero() {
    let code = "6007 6001 55 6002 54";
    let r = evm_checked(&bytecode(code), &no_context()).unwrap();
    assert_eq!(r.stack, vec![n(0)]);
}

#[test]
fn failed_call_copies_return_data_and_caller_goes_on() {
    // The callee reverts with the word 0x11; the caller keeps its own word
    // at 32 and reads the copied return data at 0.
    let callee = "6011 6000 52 6020 6000 fd";
    let caller = "6055 6020 52 6020 6000 6000 6000 6000 6042 6000 f1 6000 51 6020 51";
    let r = evm_checked(&bytecode(caller), &with_account(0x42, callee)).unwrap();
    assert!(r.success);
    assert_eq!(r.stack, vec![n(0x55), n(0x11), n(0)]);
    assert!(r.logs.is_empty());
}

#[test]
fn call_copies_no_more_than_the_return_range() {
    // The callee returns 32 bytes of 0xff..; the caller asks for 1 byte at 31.
    let callee = "7f ffffffffffffffffffffffffffffffffffffffffffffffffffffffffffffffff 6000 52 6020 6000 f3";
    let caller = "6001 601f 6000 6000 6000 6042 6000 f1 6000 51";
    let r = evm_checked(&bytecode(caller), &with_account(0x42, callee)).unwrap();
    assert_eq!(r.stack, vec![n(0xff), n(1)]);
}

#[test]
fn contexts_and_tables_clone() {
    let ctx = with_account(0x42, "6001");
    let copy = ctx.clone();
    let code = bytecode("6000 6000 6000 6000 6000 6042 6000 f1");
    let a = evm_checked(&code, &ctx).unwrap();
    let b = evm_checked(&code, &copy).unwrap();
    assert_eq!(a.stack, b.stack);
    assert_eq!(a.success, b.success);
    assert_eq!(a.ret, b.ret);
    let mut t: Table<Word> = Table::new();
    t.insert(n(1), n(10));
    let u = t.clone();
    t.insert(n(1), n(11));
    assert_eq!(u.get(&n(1)), Some(&n(10)));
    assert_eq!(t.get(&n(1)), Some(&n(11)));
}
