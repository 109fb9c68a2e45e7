use minievm::account::Address;
use minievm::dispatch::{call, create, derive_address};
use minievm::exit::{ExitReason, SucceedKind, ValidationError};
use minievm::gas::GasMeter;
use minievm::ledger::Ledger;
use minievm::word::U256;

const MULTIPLIER_HEX: &str = "608060405234801561001057600080fd5b5060b88061001f6000396000f3fe6080604052348015600f57600080fd5b506004361060285760003560e01c8063165c4a1614602d575b600080fd5b606060048036036040811015604157600080fd5b8101908080359060200190929190803590602001909291905050506076565b6040518082815260200191505060405180910390f35b600081830290509291505056fea265627a7a723158201f3db7301354b88b310868daf4395a6ab6cd42d16b1d8e68cdf4fdd9d34fffbf64736f6c63430005110032";

fn from_hex(s: &str) -> Vec<u8> {
    let b: Vec<u8> = s.as_bytes().to_vec();
    let mut out: Vec<u8> = Vec::new();
    let mut i = 0;
    while i + 1 < b.len() {
        let hi = (b[i] as char).to_digit(16).unwrap() as u8;
        let lo = (b[i + 1] as char).to_digit(16).unwrap() as u8;
        out.push(hi * 16 + lo);
        i += 2;
    }
    out
}

fn alice() -> Address {
    Address { hi: 0x1000_0000, mid: 0, lo: 1 }
}

fn genesis() -> Ledger {
    let mut led = Ledger::new();
    led.genesis_insert(
        alice(),
        U256::from_u128(1_000_000_000_000_000),
        1,
        vec![0x00],
        Vec::new(),
    );
    led
}

#[test]
fn should_create_contract() {
    let contract = from_hex(MULTIPLIER_HEX);
    let mut led = genesis();
    let caller = alice();
    let out = create(
        &mut led,
        &caller,
        &contract,
        &U256::from_u128(123123),
        1_000_000,
        0x640000006a,
    )
    .unwrap();
    // the constructor is non-payable, so sending value makes the run revert;
    // the dispatcher still reports an outcome rather than an error
    assert!(matches!(out.reason, ExitReason::Revert));
    assert_eq!(1 + 1, 2)
}

#[test]
fn deploy_stop_only_yields_empty_code() {
    let mut led = genesis();
    let caller = alice();
    let out = create(&mut led, &caller, &vec![0x00u8], &U256::zero(), 1_000_000, 1).unwrap();
    assert!(matches!(out.reason, ExitReason::Succeed(SucceedKind::Stop)));
    assert!(out.output.is_empty());
    let acct = led.get_account(&out.address);
    assert!(acct.code.is_empty());
}

#[test]
fn multiply_two_by_three_returns_six() {
    let contract = from_hex(MULTIPLIER_HEX);
    let mut led = genesis();
    let caller = alice();
    let out = create(&mut led, &caller, &contract, &U256::zero(), 1_000_000, 1).unwrap();
    assert!(matches!(out.reason, ExitReason::Succeed(SucceedKind::Returned)));
    let deployed = led.get_account(&out.address);
    assert_eq!(deployed.code.len(), 0xb8);
    let mut input = from_hex("165c4a16");
    let mut arg = vec![0u8; 32];
    arg[31] = 2;
    input.extend_from_slice(&arg);
    arg[31] = 3;
    input.extend_from_slice(&arg);
    let res = call(
        &mut led,
        &caller,
        &out.address,
        &input,
        &U256::zero(),
        1_000_000,
        1,
    )
    .unwrap();
    assert!(matches!(res.reason, ExitReason::Succeed(SucceedKind::Returned)));
    assert_eq!(res.output.len(), 32);
    let mut six = vec![0u8; 32];
    six[31] = 6;
    assert_eq!(res.output, six);
    assert!(res.gas_used <= 1_000_000);
}

#[test]
fn end_to_end_scenario_balances() {
    let contract = from_hex(MULTIPLIER_HEX);
    let mut led = genesis();
    let caller = alice();
    let d1 = derive_address(&caller, 1);
    let out = create(&mut led, &caller, &contract, &U256::zero(), 1_000_000, 1).unwrap();
    assert!(out.address.eq_addr(&d1));
    let acct = led.get_account(&caller);
    let spent = U256::from_u128(1_000_000_000_000_000 - out.gas_used as u128);
    assert!(acct.balance.eq_word(&spent));
}

#[test]
fn derive_address_is_deterministic() {
    let a = alice();
    let d1 = derive_address(&a, 7);
    let d2 = derive_address(&a, 7);
    assert!(d1.eq_addr(&d2));
    let d3 = derive_address(&a, 8);
    assert!(!d1.eq_addr(&d3));
}

#[test]
fn storage_write_then_read_round_trip() {
    let mut led = Ledger::new();
    let a = alice();
    let key = U256::from_u64(42);
    let val = U256::from_u128(0xdead_beef);
    led.write_storage(&a, key, val);
    let got = led.read_storage(&a, &key);
    assert!(got.eq_word(&val));
    let missing = led.read_storage(&a, &U256::from_u64(43));
    assert!(missing.is_zero());
}

#[test]
fn word_arithmetic_exact_values() {
    let two = U256::from_u64(2);
    let three = U256::from_u64(3);
    assert!(two.wrapping_mul(&three).eq_word(&U256::from_u64(6)));
    assert!(two.wrapping_add(&three).eq_word(&U256::from_u64(5)));
    assert!(three.wrapping_sub(&two).eq_word(&U256::from_u64(1)));
    let max = U256 {
        l0: u64::MAX,
        l1: u64::MAX,
        l2: u64::MAX,
        l3: u64::MAX,
    };
    assert!(max.wrapping_add(&U256::from_u64(1)).is_zero());
    assert!(two.lt(&three));
    assert!(!three.lt(&two));
    assert!(U256::from_u64(256).shr_small(8).eq_word(&U256::from_u64(1)));
}

#[test]
fn gas_meter_charges_and_refunds() {
    let mut g = GasMeter::new(100);
    assert!(g.charge(60));
    assert_eq!(g.remaining(), 40);
    assert!(!g.charge(50));
    assert_eq!(g.remaining(), 40);
    g.refund(10);
    assert_eq!(g.gas_used(), 50);
    g.refund(1000);
    assert_eq!(g.gas_used(), 0);
}

#[test]
fn create_with_short_balance_is_rejected() {
    let mut led = Ledger::new();
    let caller = alice();
    let err = create(
        &mut led,
        &caller,
        &vec![0x00u8],
        &U256::from_u64(5),
        1_000_000,
        1,
    )
    .unwrap_err();
    assert_eq!(err, ValidationError::InsufficientBalance);
}

#[test]
fn transfer_rejects_short_balance() {
    let mut led = genesis();
    let a = alice();
    let b = Address { hi: 0, mid: 0, lo: 9 };
    assert!(led.transfer(&a, &b, &U256::from_u64(100)));
    let got = led.get_account(&b);
    assert!(got.balance.eq_word(&U256::from_u64(100)));
    assert!(!led.transfer(&b, &a, &U256::from_u64(101)));
    assert!(led.get_account(&b).balance.eq_word(&U256::from_u64(100)));
}

#[test]
fn code_is_set_exactly_once() {
    let mut led = Ledger::new();
    let a = alice();
    assert!(led.set_code(&a, vec![1, 2, 3]).is_ok());
    let err = led.set_code(&a, vec![4]).unwrap_err();
    assert_eq!(err, ValidationError::CodeAlreadySet);
}

#[test]
fn call_empty_account_is_pure_transfer() {
    let mut led = genesis();
    let caller = alice();
    let target = Address { hi: 0, mid: 0, lo: 77 };
    let res = call(
        &mut led,
        &caller,
        &target,
        &Vec::new(),
        &U256::from_u64(500),
        1_000_000,
        1,
    )
    .unwrap();
    assert!(matches!(res.reason, ExitReason::Succeed(SucceedKind::Stop)));
    assert_eq!(res.gas_used, 0);
    assert!(led.get_account(&target).balance.eq_word(&U256::from_u64(500)));
}

#[test]
fn reverting_code_discards_writes_and_value() {
    let mut led = genesis();
    let caller = alice();
    // PUSH1 0 PUSH1 0 REVERT
    let out = create(
        &mut led,
        &caller,
        &vec![0x60, 0x00, 0x60, 0x00, 0xfd],
        &U256::from_u64(1000),
        1_000_000,
        1,
    )
    .unwrap();
    assert!(matches!(out.reason, ExitReason::Revert));
    // the value transfer was rolled back; only gas and the nonce moved
    let acct = led.get_account(&out.address);
    assert!(acct.balance.is_zero());
    assert_eq!(led.get_account(&caller).nonce, 2);
}

#[test]
fn validation_needs_value_only_fee_settles_after() {
    let mut led = Ledger::new();
    let payer = Address { hi: 0, mid: 0, lo: 5 };
    led.genesis_insert(payer, U256::from_u64(200), 0, Vec::new(), Vec::new());
    let target = Address { hi: 0, mid: 0, lo: 6 };
    // the balance covers the value but not a whole gas_limit * gas_price
    // reserve; validation passes and the fee is settled from what was used
    let res = call(
        &mut led,
        &payer,
        &target,
        &Vec::new(),
        &U256::from_u64(150),
        1_000_000,
        1,
    )
    .unwrap();
    assert!(matches!(res.reason, ExitReason::Succeed(SucceedKind::Stop)));
    assert_eq!(res.gas_used, 0);
    assert!(led.get_account(&payer).balance.eq_word(&U256::from_u64(50)));
    assert!(led.get_account(&target).balance.eq_word(&U256::from_u64(150)));
}

#[test]
fn sub_call_revert_leaves_parent_overlay_intact() {
    let mut led = genesis();
    let caller = alice();
    let child = Address { hi: 0, mid: 0, lo: 0xC };
    // child: SSTORE(5, 9) then REVERT
    led.genesis_insert(
        child,
        U256::zero(),
        0,
        vec![0x60, 0x09, 0x60, 0x05, 0x55, 0x60, 0x00, 0x60, 0x00, 0xfd],
        Vec::new(),
    );
    // parent: SSTORE(0, 1); CALL child; SSTORE(1, 2); STOP
    let mut parent_code: Vec<u8> = vec![0x60, 0x01, 0x60, 0x00, 0x55];
    parent_code.extend_from_slice(&[0x60, 0x00, 0x60, 0x00, 0x60, 0x00, 0x60, 0x00, 0x60, 0x00]);
    parent_code.push(0x73); // PUSH20 child address
    parent_code.extend_from_slice(&[0; 19]);
    parent_code.push(0x0C);
    parent_code.extend_from_slice(&[0x61, 0xff, 0xff, 0xf1]); // PUSH2 gas, CALL
    parent_code.extend_from_slice(&[0x60, 0x02, 0x60, 0x01, 0x55, 0x00]);
    let parent = Address { hi: 0, mid: 0, lo: 0xF };
    led.genesis_insert(parent, U256::zero(), 0, parent_code, Vec::new());
    let res = call(
        &mut led,
        &caller,
        &parent,
        &Vec::new(),
        &U256::zero(),
        1_000_000,
        1,
    )
    .unwrap();
    assert!(matches!(res.reason, ExitReason::Succeed(SucceedKind::Stop)));
    // the parent's own writes, made before and after the failed sub-call, stand
    assert!(led.read_storage(&parent, &U256::from_u64(0)).eq_word(&U256::from_u64(1)));
    assert!(led.read_storage(&parent, &U256::from_u64(1)).eq_word(&U256::from_u64(2)));
    // the sub-call's write was discarded with its overlay
    assert!(led.read_storage(&child, &U256::from_u64(5)).is_zero());
}

#[test]
fn nested_create_installs_child_code() {
    let mut led = genesis();
    let caller = alice();
    // factory runtime: write the one-byte child init `STOP` to memory and
    // CREATE with it, then STOP. MSTORE puts the byte at offset 31.
    // PUSH1 0x00 PUSH1 0x00 MSTORE  (memory word stays zero; child init is
    // one zero byte at offset 0)
    // PUSH1 0x01 PUSH1 0x00 PUSH1 0x00 CREATE STOP
    let factory = Address { hi: 0, mid: 0, lo: 0xFA };
    led.genesis_insert(
        factory,
        U256::from_u64(1000),
        1,
        vec![0x60, 0x00, 0x60, 0x00, 0x52, 0x60, 0x01, 0x60, 0x00, 0x60, 0x00, 0xf0, 0x00],
        Vec::new(),
    );
    let res = call(
        &mut led,
        &caller,
        &factory,
        &Vec::new(),
        &U256::zero(),
        1_000_000,
        1,
    )
    .unwrap();
    assert!(matches!(res.reason, ExitReason::Succeed(SucceedKind::Stop)));
    // the child was created at the address derived from the factory's nonce,
    // which advanced
    let child = derive_address(&factory, 1);
    assert_eq!(led.get_account(&factory).nonce, 2);
    assert!(led.get_account(&child).code.is_empty());
}

#[test]
fn word_division_exact_values() {
    let (q, r) = U256::from_u64(100).div_rem(&U256::from_u64(7));
    assert!(q.eq_word(&U256::from_u64(14)));
    assert!(r.eq_word(&U256::from_u64(2)));
    let big = U256 {
        l0: 0,
        l1: 0,
        l2: 1,
        l3: 0,
    };
    let (q2, r2) = big.div_rem(&U256::from_u64(3));
    // 2^128 = 3 * q + 1
    assert!(r2.eq_word(&U256::from_u64(1)));
    assert!(q2.wrapping_mul(&U256::from_u64(3)).wrapping_add(&r2).eq_word(&big));
}

#[test]
fn division_by_zero_yields_zero() {
    let mut led = genesis();
    let caller = alice();
    // PUSH1 0 PUSH1 5 DIV; PUSH1 0 PUSH1 5 MOD; ADD;
    // MSTORE at 0 and RETURN the word: both quotient and remainder by
    // zero are zero, so the output decodes to zero
    let target = Address { hi: 0, mid: 0, lo: 0xD0 };
    led.genesis_insert(
        target,
        U256::zero(),
        0,
        vec![
            0x60, 0x00, 0x60, 0x05, 0x04, 0x60, 0x00, 0x60, 0x05, 0x06, 0x01, 0x60, 0x00, 0x52,
            0x60, 0x20, 0x60, 0x00, 0xf3,
        ],
        Vec::new(),
    );
    let res = call(
        &mut led,
        &caller,
        &target,
        &Vec::new(),
        &U256::zero(),
        1_000_000,
        1,
    )
    .unwrap();
    assert!(matches!(res.reason, ExitReason::Succeed(SucceedKind::Returned)));
    assert_eq!(res.output, vec![0u8; 32]);
}

#[test]
fn division_opcode_computes_quotient() {
    let mut led = genesis();
    let caller = alice();
    // PUSH1 3 PUSH1 100 DIV; MSTORE; RETURN -> 33
    let target = Address { hi: 0, mid: 0, lo: 0xD1 };
    led.genesis_insert(
        target,
        U256::zero(),
        0,
        vec![
            0x60, 0x03, 0x60, 0x64, 0x04, 0x60, 0x00, 0x52, 0x60, 0x20, 0x60, 0x00, 0xf3,
        ],
        Vec::new(),
    );
    let res = call(
        &mut led,
        &caller,
        &target,
        &Vec::new(),
        &U256::zero(),
        1_000_000,
        1,
    )
    .unwrap();
    assert!(matches!(res.reason, ExitReason::Succeed(SucceedKind::Returned)));
    let mut want = vec![0u8; 32];
    want[31] = 33;
    assert_eq!(res.output, want);
}
