use evm::{
    evm, evm_checked, AccountInfo, BlockContext, EvmContext, Log, StateContext, Table, TxContext,
    Word,
};
use primitive_types::U256;

fn w(hex: &str) -> Word {
    let u = U256::from_str_radix(hex.trim_start_matches("0x"), 16).unwrap();
    Word::from_limbs(u.0)
}

fn n(x: u64) -> Word {
    Word::from_u64(x)
}

fn bytecode(hex: &str) -> Vec<u8> {
    hex::decode(hex.replace(' ', "")).unwrap()
}

fn tx(to: u64, from: u64, data: Option<Vec<u8>>) -> TxContext {
    TxContext {
        to: Some(n(to)),
        from: Some(n(from)),
        origin: Some(n(0x1337)),
        gasprice: Some(n(0x99)),
        value: Some(n(0x1000)),
        data,
    }
}

fn block() -> BlockContext {
    BlockContext {
        basefee: Some(n(1)),
        coinbase: Some(n(0x777)),
        timestamp: Some(n(0x5e)),
        number: Some(n(0x10)),
        difficulty: Some(n(0x20)),
        gaslimit: Some(n(0xffffff)),
        chainid: Some(n(1)),
    }
}

fn state(accounts: Vec<(u64, Option<u64>, Option<&str>)>) -> StateContext {
    let mut table = Table::new();
    for (address, balance, code) in accounts {
        table.insert(
            n(address),
            AccountInfo { balance: balance.map(n), code: code.map(bytecode) },
        );
    }
    StateContext { accounts: Some(table) }
}

fn calldata() -> Vec<u8> {
    (0u8..32).collect()
}

#[test]
fn transaction_fields() {
    let ctx = EvmContext { tx: Some(tx(0xaa, 0xbb, None)), block: None, state: None };
    let r = evm_checked(&bytecode("30 33 32 3a 34"), &ctx).unwrap();
    assert_eq!(r.stack, vec![n(0x1000), n(0x99), n(0x1337), n(0xbb), n(0xaa)]);
}

#[test]
fn missing_transaction_reads_zero() {
    let ctx = EvmContext { tx: None, block: None, state: None };
    let r = evm_checked(&bytecode("30 33 36 6000 35"), &ctx).unwrap();
    assert_eq!(r.stack, vec![n(0), n(0), n(0), n(0)]);
}

#[test]
fn block_fields() {
    let ctx = EvmContext { tx: None, block: Some(block()), state: None };
    let r = evm_checked(&bytecode("48 41 42 43 44 45 46"), &ctx).unwrap();
    assert_eq!(
        r.stack,
        vec![n(1), n(0xffffff), n(0x20), n(0x10), n(0x5e), n(0x777), n(1)]
    );
}

#[test]
fn calldata_load_size_copy() {
    let ctx = EvmContext { tx: Some(tx(1, 2, Some(calldata()))), block: None, state: None };
    let r = evm_checked(&bytecode("36 6000 35 601f 35 6020 35"), &ctx).unwrap();
    assert_eq!(
        r.stack,
        vec![
            n(0),
            w(&format!("1f{}", "00".repeat(31))),
            w("000102030405060708090a0b0c0d0e0f101112131415161718191a1b1c1d1e1f"),
            n(32),
        ]
    );
    let r = evm_checked(&bytecode("6020 6001 6000 37 6000 51"), &ctx).unwrap();
    assert_eq!(r.stack, vec![w("0102030405060708090a0b0c0d0e0f101112131415161718191a1b1c1d1e1f00")]);
}

#[test]
fn calldatacopy_offset_overflow_faults() {
    let ctx = EvmContext { tx: Some(tx(1, 2, Some(calldata()))), block: None, state: None };
    let code = "6002 7fffffffffffffffffffffffffffffffffffffffffffffffffffffffffffffffff 6000 37";
    assert!(evm_checked(&bytecode(code), &ctx).is_err());
    let code = "6002 67ffffffffffffffff 6000 37";
    assert!(evm_checked(&bytecode(code), &ctx).is_err());
    let code = "6000 67ffffffffffffffff 6000 37";
    assert!(evm_checked(&bytecode(code), &ctx).unwrap().success);
}

#[test]
fn balance_and_selfbalance() {
    let ctx = EvmContext {
        tx: Some(tx(0x42, 1, None)),
        block: None,
        state: Some(state(vec![(0x42, Some(7), None), (0x43, Some(9), None)])),
    };
    let r = evm_checked(&bytecode("6043 31 6044 31 47"), &ctx).unwrap();
    assert_eq!(r.stack, vec![n(7), n(0), n(9)]);
}

#[test]
fn extcode_queries() {
    let ctx = EvmContext {
        tx: None,
        block: None,
        state: Some(state(vec![(0x42, None, Some("600100")), (0x43, None, Some(""))])),
    };
    let r = evm_checked(&bytecode("6042 3b 6044 3b 6044 3f 6043 3f"), &ctx).unwrap();
    assert_eq!(
        r.stack,
        vec![
            w("c5d2460186f7233c927e7db2dcc703c0e500b653ca82273b7bfad8045d85a470"),
            n(0),
            n(0),
            n(3),
        ]
    );
    let r = evm_checked(&bytecode("6003 6000 6000 6042 3c 6000 51"), &ctx).unwrap();
    assert_eq!(r.stack, vec![w(&format!("600100{}", "00".repeat(29)))]);
    let r = evm_checked(&bytecode("6003 6000 6000 6044 3c 59"), &ctx).unwrap();
    assert_eq!(r.stack, vec![n(0)]);
}

#[test]
fn logs_with_topics() {
    let ctx = EvmContext { tx: Some(tx(0xaa, 1, None)), block: None, state: None };
    let r = evm_checked(&bytecode("60ab 6000 53 6001 6000 a0 6022 6011 6001 6000 a2"), &ctx)
        .unwrap();
    assert!(r.success);
    assert_eq!(
        r.logs,
        vec![
            Log { address: n(0xaa), data: vec![0xab], topics: vec![] },
            Log { address: n(0xaa), data: vec![0xab], topics: vec![n(0x11), n(0x22)] },
        ]
    );
}

#[test]
fn log_with_missing_topic_faults() {
    let ctx = EvmContext { tx: None, block: None, state: None };
    assert!(evm_checked(&bytecode("6001 6000 a1"), &ctx).is_err());
}

#[test]
fn call_returns_data_and_logs() {
    let callee = "33 6000 52 33 6001 601f a1 6020 6000 f3";
    let ctx = EvmContext {
        tx: Some(tx(0xaa, 0xbb, None)),
        block: None,
        state: Some(state(vec![(0x42, None, Some(callee))])),
    };
    let caller = "6020 6000 6000 6000 6000 6042 6000 f1 6000 51";
    let r = evm_checked(&bytecode(caller), &ctx).unwrap();
    assert!(r.success);
    assert_eq!(r.stack, vec![n(0xaa), n(1)]);
    assert_eq!(
        r.logs,
        vec![Log { address: n(0x42), data: vec![0xaa], topics: vec![n(0xaa)] }]
    );
}

#[test]
fn call_of_reverting_code() {
    let callee = "6001 6000 a0 6001 6000 fd";
    let ctx = EvmContext {
        tx: Some(tx(0xaa, 0xbb, None)),
        block: None,
        state: Some(state(vec![(0x42, None, Some(callee))])),
    };
    let caller = "6000 6000 6000 6000 6000 6042 6000 f1";
    let r = evm_checked(&bytecode(caller), &ctx).unwrap();
    assert!(r.success);
    assert_eq!(r.stack, vec![n(0)]);
    assert!(r.logs.is_empty());
}

#[test]
fn call_passes_calldata_and_has_fresh_storage() {
    let callee = "6000 35 6000 54 01 6000 52 6020 6000 f3";
    let ctx = EvmContext {
        tx: None,
        block: None,
        state: Some(state(vec![(0x42, None, Some(callee))])),
    };
    let caller = "6005 6000 55 6009 6000 52 6020 6000 6020 6000 6000 6042 6000 f1 6000 51";
    let r = evm_checked(&bytecode(caller), &ctx).unwrap();
    assert_eq!(r.stack, vec![n(9), n(1)]);
}

#[test]
fn call_of_address_without_code_succeeds() {
    let ctx = EvmContext { tx: None, block: None, state: None };
    let r = evm_checked(&bytecode("6000 6000 6000 6000 6000 6042 6000 f1"), &ctx).unwrap();
    assert_eq!(r.stack, vec![n(1)]);
}

#[test]
fn evm_gives_the_checked_result() {
    let code = bytecode("6001 6002 01 6000 55 6000 54");
    let ctx = EvmContext { tx: None, block: None, state: None };
    let r = evm(&code, ctx);
    assert!(r.success);
    assert_eq!(r.stack, vec![n(3)]);
    assert!(r.ret.is_empty());
}

#[test]
fn table_insert_replaces() {
    let mut t: Table<Word> = Table::new();
    assert!(t.get(&n(1)).is_none());
    t.insert(n(1), n(10));
    t.insert(n(2), n(20));
    t.insert(n(1), n(11));
    assert_eq!(t.get(&n(1)), Some(&n(11)));
    assert_eq!(t.get(&n(2)), Some(&n(20)));
    assert!(t.get(&n(3)).is_none());
}

#[test]
fn word_helpers() {
    let m = Word::max();
    assert!(m.is_negative());
    assert!(!n(5).is_negative());
    assert!(n(5).lt(&n(6)));
    assert!(!n(6).lt(&n(6)));
    assert!(n(6).lt(&w("10000000000000000")));
    assert!(n(0).is_zero());
    assert_eq!(n(0x1234).low_byte(), 0x34);
    assert!(n(7).fits_usize());
    assert!(!m.fits_usize());
    assert_eq!(n(7).to_usize(), 7);
    assert_eq!(Word::from_limbs([1, 2, 3, 4]).to_limbs(), [1, 2, 3, 4]);
    assert_eq!(n(0xf0).and(&n(0x3c)), n(0x30));
    assert_eq!(n(0xf0).or(&n(0x0f)), n(0xff));
    assert_eq!(n(0xff).xor(&n(0x0f)), n(0xf0));
    assert_eq!(n(0).not(), m);
}
