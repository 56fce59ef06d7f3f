use evm::{evm_checked, Abort, EvmContext, EvmResult, Word};
use primitive_types::U256;

fn w(hex: &str) -> Word {
    let u = U256::from_str_radix(hex.trim_start_matches("0x"), 16).unwrap();
    Word::from_limbs(u.0)
}

fn n(x: u64) -> Word {
    Word::from_u64(x)
}

fn max() -> Word {
    Word::max()
}

fn bytecode(hex: &str) -> Vec<u8> {
    hex::decode(hex.replace(' ', "")).unwrap()
}

fn no_context() -> EvmContext {
    EvmContext { tx: None, block: None, state: None }
}

fn run(hex: &str) -> EvmResult {
    evm_checked(&bytecode(hex), &no_context()).unwrap()
}

fn run_err(hex: &str) -> Abort {
    match evm_checked(&bytecode(hex), &no_context()) {
        Ok(r) => panic!("expected an abort, got {:?}", r),
        Err(e) => e,
    }
}

fn minus(x: u64) -> Word {
    let u = U256::zero().overflowing_sub(U256::from(x)).0;
    Word::from_limbs(u.0)
}

fn max_hex() -> String {
    "ff".repeat(32)
}

#[test]
fn stop_on_empty_stack() {
    let r = run("00");
    assert!(r.success);
    assert!(r.stack.is_empty());
    assert!(r.ret.is_empty());
}

#[test]
fn empty_code() {
    let r = run("");
    assert!(r.success);
    assert!(r.stack.is_empty());
}

#[test]
fn push_values_top_first() {
    let r = run("6001 6002");
    assert!(r.success);
    assert_eq!(r.stack, vec![n(2), n(1)]);
}

#[test]
fn push0_and_push2() {
    assert_eq!(run("5f").stack, vec![n(0)]);
    assert_eq!(run("611122").stack, vec![n(0x1122)]);
}

#[test]
fn push32() {
    let code = format!("7f{}", "0102030405060708091011121314151617181920212223242526272829303132");
    assert_eq!(
        run(&code).stack,
        vec![w("0102030405060708091011121314151617181920212223242526272829303132")]
    );
}

#[test]
fn push_past_end_faults() {
    assert_eq!(run_err("61"), Abort::Fault);
    assert_eq!(run_err("6100"), Abort::Fault);
}

#[test]
fn pop_and_pop_on_empty() {
    assert_eq!(run("6001 6002 50").stack, vec![n(1)]);
    assert!(run("50").stack.is_empty());
}

#[test]
fn add_and_overflow() {
    assert_eq!(run("6001 6002 01").stack, vec![n(3)]);
    let code = format!("7f{} 6002 01", max_hex());
    assert_eq!(run(&code).stack, vec![n(1)]);
}

#[test]
fn add_with_one_operand_faults() {
    assert_eq!(run_err("6001 01"), Abort::Fault);
}

#[test]
fn mul_and_overflow() {
    assert_eq!(run("6002 6003 02").stack, vec![n(6)]);
    let code = format!("7f{} 6002 02", max_hex());
    assert_eq!(run(&code).stack, vec![minus(2)]);
}

#[test]
fn sub_and_underflow() {
    assert_eq!(run("6002 6003 03").stack, vec![n(1)]);
    assert_eq!(run("6003 6002 03").stack, vec![max()]);
}

#[test]
fn div_and_div_by_zero() {
    assert_eq!(run("6002 6006 04").stack, vec![n(3)]);
    assert_eq!(run("6002 6007 04").stack, vec![n(3)]);
    assert_eq!(run("6000 6002 04").stack, vec![n(0)]);
}

#[test]
fn sdiv_signs() {
    let minus_ten = format!("7f{}f6", "ff".repeat(31));
    assert_eq!(run(&format!("600a {} 05", minus_ten)).stack, vec![max()]);
    assert_eq!(run(&format!("{} {} 05", minus_ten, minus_ten)).stack, vec![n(1)]);
    assert_eq!(run(&format!("{} 6014 05", minus_ten)).stack, vec![minus(2)]);
    assert_eq!(run("6000 600a 05").stack, vec![n(0)]);
}

#[test]
fn sdiv_least_word_by_minus_one() {
    let least = format!("7f80{}", "00".repeat(31));
    let code = format!("7f{} {} 05", max_hex(), least);
    assert_eq!(run(&code).stack, vec![w(&format!("80{}", "00".repeat(31)))]);
}

#[test]
fn mod_and_mod_by_zero() {
    assert_eq!(run("6003 600a 06").stack, vec![n(1)]);
    assert_eq!(run("6005 6011 06").stack, vec![n(2)]);
    assert_eq!(run("6000 600a 06").stack, vec![n(0)]);
}

#[test]
fn smod_signs() {
    let minus_ten = format!("7f{}f6", "ff".repeat(31));
    let minus_three = format!("7f{}fd", "ff".repeat(31));
    assert_eq!(run(&format!("6003 {} 07", minus_ten)).stack, vec![max()]);
    assert_eq!(run(&format!("{} {} 07", minus_three, minus_ten)).stack, vec![max()]);
    assert_eq!(run(&format!("{} 600a 07", minus_three)).stack, vec![n(1)]);
    assert_eq!(run("6000 600a 07").stack, vec![n(0)]);
}

#[test]
fn addmod_values() {
    assert_eq!(run("6008 6002 600a 08").stack, vec![n(4)]);
    let code = format!("6002 6002 7f{} 08", max_hex());
    assert_eq!(run(&code).stack, vec![n(1)]);
}

#[test]
fn addmod_by_zero_faults() {
    assert_eq!(run_err("6000 6002 6003 08"), Abort::Fault);
}

#[test]
fn mulmod_values() {
    assert_eq!(run("6008 600a 600a 09").stack, vec![n(4)]);
    let code = format!("600c 7f{} 7f{} 09", max_hex(), max_hex());
    assert_eq!(run(&code).stack, vec![n(9)]);
}

#[test]
fn mulmod_by_zero_faults() {
    assert_eq!(run_err("6000 6002 6003 09"), Abort::Fault);
}

#[test]
fn exp_values() {
    assert_eq!(run("600a 6002 0a").stack, vec![n(1024)]);
    assert_eq!(run("6000 6002 0a").stack, vec![n(1)]);
    assert_eq!(run("6002 6000 0a").stack, vec![n(0)]);
    let code = "61 0100 6002 0a";
    assert_eq!(run(code).stack, vec![n(0)]);
    assert_eq!(run("60ff 6002 0a").stack, vec![w(&format!("80{}", "00".repeat(31)))]);
}

#[test]
fn signextend_values() {
    assert_eq!(run("60ff 6000 0b").stack, vec![max()]);
    assert_eq!(run("607f 6000 0b").stack, vec![n(0x7f)]);
    assert_eq!(run("62 00ff00 6000 0b").stack, vec![n(0)]);
    assert_eq!(run("61 ff7f 6000 0b").stack, vec![n(0x7f)]);
    assert_eq!(run("61 80ff 6001 0b").stack, vec![minus(0x7f01)]);
    let code = format!("7f{} 601f 0b", max_hex());
    assert_eq!(run(&code).stack, vec![max()]);
    assert_eq!(run("6012 601f 0b").stack, vec![n(0x12)]);
}

#[test]
fn signextend_byte_index_too_large_faults() {
    assert_eq!(run_err("60ff 6020 0b"), Abort::Fault);
}

#[test]
fn comparisons() {
    assert_eq!(run("6009 600a 10").stack, vec![n(0)]);
    assert_eq!(run("600a 6009 10").stack, vec![n(1)]);
    assert_eq!(run("6009 600a 11").stack, vec![n(1)]);
    assert_eq!(run("600a 600a 11").stack, vec![n(0)]);
    let minus_one = format!("7f{}", max_hex());
    assert_eq!(run(&format!("6000 {} 12", minus_one)).stack, vec![n(1)]);
    assert_eq!(run(&format!("{} 6000 12", minus_one)).stack, vec![n(0)]);
    assert_eq!(run(&format!("6000 {} 13", minus_one)).stack, vec![n(0)]);
    assert_eq!(run(&format!("{} 6000 13", minus_one)).stack, vec![n(1)]);
    assert_eq!(run("600a 600a 12").stack, vec![n(0)]);
    assert_eq!(run("6009 600a 13").stack, vec![n(1)]);
    assert_eq!(run("600a 600a 14").stack, vec![n(1)]);
    assert_eq!(run("6009 600a 14").stack, vec![n(0)]);
    assert_eq!(run("6000 15").stack, vec![n(1)]);
    assert_eq!(run("6005 15").stack, vec![n(0)]);
}

#[test]
fn bitwise() {
    assert_eq!(run("600f 60ff 16").stack, vec![n(0x0f)]);
    assert_eq!(run("60f0 600f 17").stack, vec![n(0xff)]);
    assert_eq!(run("60ff 60f0 18").stack, vec![n(0x0f)]);
    assert_eq!(run("6000 19").stack, vec![max()]);
    assert_eq!(run("600f 19").stack, vec![minus(0x10)]);
}

#[test]
fn byte_values() {
    assert_eq!(run("60ff 601f 1a").stack, vec![n(0xff)]);
    assert_eq!(run("61ff00 601e 1a").stack, vec![n(0xff)]);
    assert_eq!(run("60ff 6020 1a").stack, vec![n(0)]);
    let code = format!("7f12{} 6000 1a", "00".repeat(31));
    assert_eq!(run(&code).stack, vec![n(0x12)]);
}

#[test]
fn byte_index_past_the_word_pushes_zero() {
    let code = format!("60ff 7f{} 1a", max_hex());
    assert_eq!(run(&code).stack, vec![n(0)]);
    let code = format!("60ff 7f{} 1a", "01".repeat(32));
    assert_eq!(run(&code).stack, vec![n(0)]);
    assert_eq!(run("60ff 6020 1a").stack, vec![n(0)]);
    assert_eq!(run("60ff 601f 1a").stack, vec![n(0xff)]);
}

#[test]
fn shifts() {
    assert_eq!(run("6001 6001 1b").stack, vec![n(2)]);
    assert_eq!(run("60ff 6004 1b").stack, vec![n(0xff0)]);
    assert_eq!(run("6001 610100 1b").stack, vec![n(0)]);
    let code = format!("7f{} 6001 1b", max_hex());
    assert_eq!(run(&code).stack, vec![minus(2)]);
    assert_eq!(run("6002 6001 1c").stack, vec![n(1)]);
    assert_eq!(run("60ff 6004 1c").stack, vec![n(0xf)]);
    assert_eq!(run("6001 610100 1c").stack, vec![n(0)]);
}

#[test]
fn shift_amount_too_large_faults() {
    let code = format!("6001 7f{} 1b", max_hex());
    assert_eq!(run_err(&code), Abort::Fault);
    let code = format!("6001 7f{} 1c", max_hex());
    assert_eq!(run_err(&code), Abort::Fault);
}

#[test]
fn sar_values() {
    let code = format!("7ff0{} 6004 1d", "00".repeat(31));
    assert_eq!(run(&code).stack, vec![w(&format!("ff{}", "00".repeat(31)))]);
    assert_eq!(run("6002 6001 1d").stack, vec![n(1)]);
    let code = format!("7f{} 610100 1d", max_hex());
    assert_eq!(run(&code).stack, vec![max()]);
    assert_eq!(run("607f 610100 1d").stack, vec![n(0)]);
    let code = format!("7f{} 6000 1d", "ff".repeat(31) + "f0");
    assert_eq!(run(&code).stack, vec![minus(0x10)]);
    let code = format!("7f{} 6004 1d", "ff".repeat(31) + "f0");
    assert_eq!(run(&code).stack, vec![max()]);
    let code = format!("7f{} 7f{} 1d", max_hex(), max_hex());
    assert_eq!(run(&code).stack, vec![max()]);
}

#[test]
fn dup_and_swap() {
    assert_eq!(run("6001 6002 80").stack, vec![n(2), n(2), n(1)]);
    assert_eq!(run("6001 6002 81").stack, vec![n(1), n(2), n(1)]);
    assert_eq!(run("6001 6002 90").stack, vec![n(1), n(2)]);
    assert_eq!(run("6001 6002 6003 91").stack, vec![n(1), n(2), n(3)]);
}

#[test]
fn dup_and_swap_underflow_fault() {
    assert_eq!(run_err("6001 6002 82"), Abort::Fault);
    assert_eq!(run_err("6001 90"), Abort::Fault);
    assert_eq!(run_err("90"), Abort::Fault);
}

#[test]
fn pc_gas_msize() {
    assert_eq!(run("58 58").stack, vec![n(1), n(0)]);
    assert_eq!(run("6000 58").stack, vec![n(2), n(0)]);
    assert_eq!(run("5a").stack, vec![max()]);
    assert_eq!(run("59").stack, vec![n(0)]);
    assert_eq!(run("6001 6000 53 59").stack, vec![n(32)]);
    assert_eq!(run("6001 6020 53 59").stack, vec![n(64)]);
}

#[test]
fn jump_to_jumpdest() {
    let r = run("6005 56 00 00 5b 6001");
    assert!(r.success);
    assert_eq!(r.stack, vec![n(1)]);
}

#[test]
fn jump_to_invalid_target() {
    let r = run("6003 56");
    assert!(!r.success);
    assert!(r.stack.is_empty());
    let r = run("6001 6000 56 5b");
    assert!(!r.success);
    assert_eq!(r.stack, vec![n(1)]);
}

#[test]
fn jump_into_push_data_is_invalid() {
    let r = run("6004 56 605b");
    assert!(!r.success);
    assert!(r.stack.is_empty());
}

#[test]
fn jump_target_too_large_faults() {
    let code = format!("7f{} 56", max_hex());
    assert_eq!(run_err(&code), Abort::Fault);
}

#[test]
fn jumpi_taken_and_not_taken() {
    assert_eq!(run("6001 6008 57 6002 00 5b 6003").stack, vec![n(3)]);
    assert_eq!(run("6000 6008 57 6002 00 5b 6003").stack, vec![n(2)]);
    let r = run("6001 6003 57");
    assert!(!r.success);
    assert!(r.stack.is_empty());
}

#[test]
fn mstore_then_mload() {
    assert_eq!(run("6042 6000 52 6000 51").stack, vec![n(0x42)]);
    assert_eq!(run("6042 6000 52 6001 51 59").stack, vec![n(64), n(0x4200)]);
}

#[test]
fn mload_of_fresh_memory() {
    assert_eq!(run("6000 51 59").stack, vec![n(32), n(0)]);
}

#[test]
fn mstore8_writes_low_byte() {
    let r = run("61 abff 6000 53 6000 51");
    assert_eq!(r.stack, vec![w(&format!("ff{}", "00".repeat(31)))]);
}

#[test]
fn mstore_offset_too_large_faults() {
    let code = format!("6001 7f{} 52", max_hex());
    assert_eq!(run_err(&code), Abort::Fault);
    let code = format!("6001 67ffffffffffffffff 52");
    assert_eq!(run_err(&code), Abort::Fault);
}

#[test]
fn sha3_of_memory() {
    let code = format!("7fffffffff{} 6000 52 6004 6000 20", "00".repeat(28));
    assert_eq!(
        run(&code).stack,
        vec![w("29045a592007d0c246ef02c2223570da9522d0cf0f73282c79a1bc8f0bb2c238")]
    );
}

#[test]
fn sha3_of_empty_range() {
    let code = "6000 6000 53 6000 6000 20";
    assert_eq!(
        run(code).stack,
        vec![w("c5d2460186f7233c927e7db2dcc703c0e500b653ca82273b7bfad8045d85a470")]
    );
}

#[test]
fn sha3_with_empty_memory_does_nothing() {
    let r = run("6001 6000 6000 20 6005");
    assert!(r.success);
    assert_eq!(r.stack, vec![n(5), n(1)]);
    assert_eq!(run("6040 6000 20 59").stack, vec![n(0)]);
    assert_eq!(run("6000 6000 20 6001").stack, vec![n(1)]);
}

#[test]
fn invalid_opcode_fails() {
    let r = run("6001 fe 6002");
    assert!(!r.success);
    assert_eq!(r.stack, vec![n(1)]);
    assert!(run("0c").stack.is_empty());
    assert!(!run("0c").success);
}

#[test]
fn blockhash_does_nothing() {
    assert_eq!(run("6001 40").stack, vec![n(1)]);
}

#[test]
fn return_data() {
    let r = run("60a2 6000 52 6001 601f f3");
    assert!(r.success);
    assert_eq!(r.ret, vec![0xa2]);
    assert!(r.stack.is_empty());
}

#[test]
fn return_keeps_stack_bottom_first() {
    let r = run("6007 6008 6000 6000 f3");
    assert!(r.success);
    assert_eq!(r.stack, vec![n(7), n(8)]);
    assert!(r.ret.is_empty());
}

#[test]
fn revert_data() {
    let r = run("60a2 6000 52 6001 601f fd");
    assert!(!r.success);
    assert_eq!(r.ret, vec![0xa2]);
}

#[test]
fn sstore_then_sload() {
    assert_eq!(run("6001 6000 55 6000 54").stack, vec![n(1)]);
    assert_eq!(run("6001 6000 55 6002 6000 55 6000 54").stack, vec![n(2)]);
    assert_eq!(run("6001 6000 55 6005 54").stack, vec![n(0)]);
}

#[test]
fn codesize_and_codecopy() {
    assert_eq!(run("38").stack, vec![n(1)]);
    let r = run("6003 6000 6000 39 6000 51");
    assert_eq!(r.stack, vec![w(&format!("600360{}", "00".repeat(29)))]);
}
