use trace_replay::address::Address;
use trace_replay::diff::{AccountDiff, AnalyzeAccountDiff, Diff, StateDiff};
use trace_replay::eth;
use trace_replay::profit::{detect_profit, TxInfo};
use trace_replay::rewrite::mock_tx_data;
use trace_replay::simulate::{simulate_trace, trace_block, BlockTrace};
use trace_replay::trace::{
    parse_tx_trace, trace_key, trace_to_tx, Action, CallAction, CreateAction, ReplayableCall,
    TraceEntry, TraceError,
};
use trace_replay::uint256::Uint256;

fn addr(b: u8) -> Address {
    Address::new([b; 20])
}

fn num(v: u128) -> Uint256 {
    Uint256::from_u128(v)
}

fn changed(from: u128, to: u128) -> Diff {
    Diff::Changed { from: num(from), to: num(to) }
}

fn tx(from: Address, to: Option<Address>, nonce: u128) -> TxInfo {
    TxInfo { from, to, nonce: num(nonce), block_number: Some(10) }
}

fn call(from: Address, to: Address, input: Vec<u8>, value: u128) -> Action {
    Action::Call(CallAction { from, to, value: num(value), input })
}

fn entry(path: Vec<usize>, subtraces: usize, action: Action) -> TraceEntry {
    TraceEntry { trace_address: path, subtraces, action }
}

#[test]
fn mock_tx_data_return_origin_data() {
    let data = vec![0x00, 0x00, 0x00, 0x01];
    let parse_data = mock_tx_data(&data, &addr(0x5a), &addr(0xc3));
    assert_eq!(data, parse_data);
}

#[test]
fn mock_tx_data_replace_with_contract_address() {
    let from = addr(0x5a);
    let contract = addr(0xc3);
    let mut origin_data = vec![0x00, 0x00, 0x00, 0x01];
    origin_data.extend_from_slice(&from.bytes);
    let parse_data = mock_tx_data(&origin_data, &from, &contract);
    assert!(origin_data != parse_data);
    let mut expected = vec![0x00, 0x00, 0x00, 0x01];
    expected.extend_from_slice(&contract.bytes);
    assert_eq!(parse_data, expected);
}

#[test]
fn mock_tx_data_replaces_every_occurrence() {
    let from = addr(0x11);
    let to = addr(0x22);
    let mut data = from.bytes.to_vec();
    data.push(0x99);
    data.extend_from_slice(&from.bytes);
    let mut expected = to.bytes.to_vec();
    expected.push(0x99);
    expected.extend_from_slice(&to.bytes);
    assert_eq!(mock_tx_data(&data, &from, &to), expected);
}

#[test]
fn mock_tx_data_matches_across_byte_boundary() {
    // hex text "0" + "abab...ab" (40 digits) + "0": the address starts mid-byte.
    let from = addr(0xab);
    let to = addr(0xcd);
    let mut data = vec![0x0a];
    data.extend_from_slice(&[0xba; 19]);
    data.push(0xb0);
    let mut expected = vec![0x0c];
    expected.extend_from_slice(&[0xdc; 19]);
    expected.push(0xd0);
    assert_eq!(mock_tx_data(&data, &from, &to), expected);
}

#[test]
fn mock_tx_data_empty_data() {
    assert_eq!(mock_tx_data(&vec![], &addr(1), &addr(2)), Vec::<u8>::new());
}

#[test]
fn analyzer_reports_increase() {
    let d = AccountDiff { balance: changed(100, 150), nonce: changed(5, 6) };
    let r = AnalyzeAccountDiff::run(&d, Some(num(5)));
    assert!(r.increase_balance);
    assert_eq!(r.balance_diff, num(50));
    assert!(!r.invalid_nonce);
}

#[test]
fn analyzer_reports_decrease_magnitude() {
    let d = AccountDiff { balance: changed(150, 100), nonce: Diff::Same };
    let r = AnalyzeAccountDiff::run(&d, None);
    assert!(!r.increase_balance);
    assert_eq!(r.balance_diff, num(50));
    assert!(!r.invalid_nonce);
}

#[test]
fn analyzer_unchanged_amount() {
    let d = AccountDiff { balance: changed(7, 7), nonce: Diff::Same };
    let r = AnalyzeAccountDiff::run(&d, Some(num(1)));
    assert!(!r.increase_balance);
    assert_eq!(r.balance_diff, num(0));
    let same = AccountDiff { balance: Diff::Same, nonce: Diff::Born(num(3)) };
    let r = AnalyzeAccountDiff::run(&same, Some(num(1)));
    assert!(!r.increase_balance);
    assert!(r.balance_diff.is_zero());
    assert!(!r.invalid_nonce);
}

#[test]
fn analyzer_flags_nonce_mismatch_only_when_expected() {
    let d = AccountDiff { balance: changed(100, 150), nonce: changed(4, 5) };
    assert!(AnalyzeAccountDiff::run(&d, Some(num(5))).invalid_nonce);
    assert!(!AnalyzeAccountDiff::run(&d, None).invalid_nonce);
    assert!(!AnalyzeAccountDiff::run(&d, Some(num(4))).invalid_nonce);
}

#[test]
fn uint256_arithmetic_across_halves() {
    let a = Uint256 { hi: 1, lo: 0 };
    let b = Uint256 { hi: 0, lo: 1 };
    assert_eq!(a.abs_diff(&b), Uint256 { hi: 0, lo: u128::MAX });
    assert_eq!(b.abs_diff(&a), Uint256 { hi: 0, lo: u128::MAX });
    assert!(a.gt(&b));
    assert!(!b.gt(&a));
    assert_eq!(b.checked_add(&Uint256 { hi: 0, lo: u128::MAX }), Some(a));
    let max = Uint256 { hi: u128::MAX, lo: u128::MAX };
    assert_eq!(max.checked_add(&b), None);
    assert!(a.eq_value(&Uint256 { hi: 1, lo: 0 }));
}

#[test]
fn end_to_end_sender_profit() {
    let sender = addr(1);
    let sd = StateDiff {
        accounts: vec![(sender, AccountDiff { balance: changed(100, 150), nonce: changed(5, 6) })],
    };
    assert_eq!(detect_profit(&tx(sender, None, 5), &sd), Some(num(50)));
}

#[test]
fn profit_prefers_valid_sender() {
    let (s, r) = (addr(1), addr(2));
    let sd = StateDiff {
        accounts: vec![
            (s, AccountDiff { balance: changed(100, 130), nonce: changed(5, 6) }),
            (r, AccountDiff { balance: changed(0, 90), nonce: Diff::Same }),
        ],
    };
    assert_eq!(detect_profit(&tx(s, Some(r), 5), &sd), Some(num(30)));
}

#[test]
fn profit_takes_larger_receiver_when_sender_lost() {
    let (s, r) = (addr(1), addr(2));
    let sd = StateDiff {
        accounts: vec![
            (s, AccountDiff { balance: changed(100, 70), nonce: changed(5, 6) }),
            (r, AccountDiff { balance: changed(0, 90), nonce: Diff::Same }),
        ],
    };
    assert_eq!(detect_profit(&tx(s, Some(r), 5), &sd), Some(num(90)));
    let small = StateDiff {
        accounts: vec![
            (s, AccountDiff { balance: changed(100, 70), nonce: changed(5, 6) }),
            (r, AccountDiff { balance: changed(0, 30), nonce: Diff::Same }),
        ],
    };
    assert_eq!(detect_profit(&tx(s, Some(r), 5), &small), None);
}

#[test]
fn profit_receiver_when_sender_nonce_invalid() {
    let (s, r) = (addr(1), addr(2));
    let sd = StateDiff {
        accounts: vec![
            (s, AccountDiff { balance: changed(100, 110), nonce: changed(7, 8) }),
            (r, AccountDiff { balance: changed(0, 40), nonce: Diff::Same }),
        ],
    };
    assert_eq!(detect_profit(&tx(s, Some(r), 5), &sd), Some(num(40)));
}

#[test]
fn profit_absent_without_sender_diff() {
    let sd = StateDiff {
        accounts: vec![(addr(2), AccountDiff { balance: changed(0, 40), nonce: Diff::Same })],
    };
    assert_eq!(detect_profit(&tx(addr(1), Some(addr(2)), 5), &sd), None);
}

#[test]
fn eth_run_prefers_sender_gain() {
    let (s, r) = (addr(1), addr(2));
    let sd = StateDiff {
        accounts: vec![
            (s, AccountDiff { balance: changed(100, 130), nonce: changed(5, 6) }),
            (r, AccountDiff { balance: changed(0, 90), nonce: Diff::Same }),
        ],
    };
    let trace = BlockTrace { trace: None, state_diff: Some(sd) };
    assert_eq!(eth::run(&tx(s, Some(r), 5), &trace), Some(num(30)));
    let none = BlockTrace { trace: None, state_diff: None };
    assert_eq!(eth::run(&tx(s, Some(r), 5), &none), None);
}

#[test]
fn trace_key_values() {
    assert_eq!(trace_key(&vec![]), Some(0));
    assert_eq!(trace_key(&vec![0]), Some(1));
    assert_eq!(trace_key(&vec![4]), Some(5));
    // [a, b] -> (b + 1) + (2a + 1)
    assert_eq!(trace_key(&vec![1, 0]), Some(4));
    assert_eq!(trace_key(&vec![0, 1]), Some(3));
    assert_eq!(trace_key(&vec![1, 1, 1]), Some(10));
}

#[test]
fn trace_key_collision_of_other_shapes() {
    assert_eq!(trace_key(&vec![1]), trace_key(&vec![0, 0]));
}

#[test]
fn trace_key_overflow() {
    assert_eq!(trace_key(&vec![usize::MAX]), None);
    let mut deep = vec![1];
    deep.extend_from_slice(&[0; 70]);
    assert_eq!(trace_key(&deep), None);
    assert_eq!(trace_key(&vec![0; 70]), Some(70));
}

#[test]
fn parse_tx_trace_call_and_create() {
    let signer = addr(9);
    let contract = addr(8);
    let caller = addr(1);
    let mut input = vec![0xaa];
    input.extend_from_slice(&caller.bytes);
    let e = entry(vec![], 0, call(caller, addr(3), input, 7));
    let mut data = vec![0xaa];
    data.extend_from_slice(&contract.bytes);
    assert_eq!(
        parse_tx_trace(&e, &signer, &Some(contract)),
        Some(ReplayableCall { from: signer, to: Some(addr(3)), data, value: num(7) })
    );
    let c = entry(
        vec![0],
        0,
        Action::Create(CreateAction { from: caller, value: num(2), init: caller.bytes.to_vec() }),
    );
    assert_eq!(
        parse_tx_trace(&c, &signer, &None),
        Some(ReplayableCall { from: signer, to: None, data: signer.bytes.to_vec(), value: num(2) })
    );
    assert_eq!(parse_tx_trace(&entry(vec![1], 0, Action::Other), &signer, &None), None);
}

fn replayed(signer: Address, to: Address, value: u128) -> ReplayableCall {
    ReplayableCall { from: signer, to: Some(to), data: vec![0x01], value: num(value) }
}

#[test]
fn trace_to_tx_happy_path() {
    let signer = addr(9);
    let o = addr(1);
    let entries = vec![
        entry(vec![], 3, call(o, addr(10), vec![0x01], 1)),
        entry(vec![0], 1, call(o, addr(11), vec![0x01], 2)),
        entry(vec![0, 0], 0, call(o, addr(12), vec![0x01], 3)),
        entry(vec![1], 0, call(o, addr(13), vec![0x01], 4)),
        entry(vec![2], 0, call(o, addr(14), vec![0x01], 5)),
    ];
    let plan = trace_to_tx(&entries, &signer, &None).unwrap();
    assert_eq!(
        plan,
        vec![
            vec![replayed(signer, addr(10), 1)],
            vec![
                replayed(signer, addr(11), 2),
                replayed(signer, addr(13), 4),
                replayed(signer, addr(14), 5),
            ],
        ]
    );
}

#[test]
fn trace_to_tx_skips_unreplayable_entries() {
    let signer = addr(9);
    let o = addr(1);
    let entries = vec![
        entry(vec![], 2, Action::Other),
        entry(vec![0], 0, Action::Other),
        entry(vec![1], 0, call(o, addr(13), vec![0x01], 4)),
    ];
    let plan = trace_to_tx(&entries, &signer, &None).unwrap();
    assert_eq!(plan, vec![vec![], vec![replayed(signer, addr(13), 4)]]);
    let alone = vec![entry(vec![], 1, call(o, addr(10), vec![0x01], 1)), entry(vec![0], 0, Action::Other)];
    let plan = trace_to_tx(&alone, &signer, &None).unwrap();
    assert_eq!(plan, vec![vec![replayed(signer, addr(10), 1)]]);
}

#[test]
fn trace_to_tx_missing_entries() {
    let signer = addr(9);
    let o = addr(1);
    let no_root = vec![entry(vec![0], 0, call(o, addr(11), vec![], 2))];
    assert_eq!(trace_to_tx(&no_root, &signer, &None), Err(TraceError::MalformedTrace));
    assert_eq!(trace_to_tx(&vec![], &signer, &None), Err(TraceError::MalformedTrace));
    let no_child = vec![
        entry(vec![], 2, call(o, addr(10), vec![], 1)),
        entry(vec![0], 0, call(o, addr(11), vec![], 2)),
    ];
    assert_eq!(trace_to_tx(&no_child, &signer, &None), Err(TraceError::MalformedTrace));
}

#[test]
fn trace_block_choice() {
    assert_eq!(trace_block(Some(100), true), Some(99));
    assert_eq!(trace_block(Some(100), false), Some(100));
    assert_eq!(trace_block(None, true), None);
    assert_eq!(trace_block(None, false), None);
}

#[test]
fn simulate_trace_returns_plan_and_profit() {
    let signer = addr(9);
    let s = addr(1);
    let sd = StateDiff {
        accounts: vec![(s, AccountDiff { balance: changed(100, 150), nonce: changed(5, 6) })],
    };
    let trace = BlockTrace {
        trace: Some(vec![entry(vec![], 0, call(s, addr(10), vec![0x01], 1))]),
        state_diff: Some(sd),
    };
    let r = simulate_trace(&tx(s, Some(addr(10)), 5), &trace, &signer, &None).unwrap();
    assert_eq!(r, Some((vec![vec![replayed(signer, addr(10), 1)]], num(50))));
}

#[test]
fn simulate_trace_nothing_to_do() {
    let signer = addr(9);
    let s = addr(1);
    let lost = StateDiff {
        accounts: vec![(s, AccountDiff { balance: changed(150, 100), nonce: changed(5, 6) })],
    };
    let trace = BlockTrace {
        trace: Some(vec![entry(vec![], 0, call(s, addr(10), vec![], 1))]),
        state_diff: Some(lost),
    };
    assert_eq!(simulate_trace(&tx(s, None, 5), &trace, &signer, &None), Ok(None));
    let gained = StateDiff {
        accounts: vec![(s, AccountDiff { balance: changed(100, 150), nonce: changed(5, 6) })],
    };
    let no_trace = BlockTrace { trace: None, state_diff: Some(gained) };
    assert_eq!(simulate_trace(&tx(s, None, 5), &no_trace, &signer, &None), Ok(None));
    let no_diff = BlockTrace { trace: Some(vec![]), state_diff: None };
    assert_eq!(simulate_trace(&tx(s, None, 5), &no_diff, &signer, &None), Ok(None));
}

#[test]
fn simulate_trace_malformed() {
    let signer = addr(9);
    let s = addr(1);
    let sd = StateDiff {
        accounts: vec![(s, AccountDiff { balance: changed(100, 150), nonce: changed(5, 6) })],
    };
    let trace = BlockTrace { trace: Some(vec![]), state_diff: Some(sd) };
    assert_eq!(
        simulate_trace(&tx(s, None, 5), &trace, &signer, &None),
        Err(TraceError::MalformedTrace)
    );
}

#[test]
fn simulate_trace_nothing_replayable() {
    let signer = addr(9);
    let s = addr(1);
    let sd = StateDiff {
        accounts: vec![(s, AccountDiff { balance: changed(100, 150), nonce: changed(5, 6) })],
    };
    let trace = BlockTrace {
        trace: Some(vec![entry(vec![], 1, Action::Other), entry(vec![0], 0, Action::Other)]),
        state_diff: Some(sd),
    };
    assert_eq!(simulate_trace(&tx(s, None, 5), &trace, &signer, &None), Ok(None));
}

#[test]
fn trace_to_tx_deeper_entry_after_child_is_ignored() {
    let signer = addr(9);
    let o = addr(1);
    // [0, 0] shares the key 2 with [1] and comes after it.
    let entries = vec![
        entry(vec![], 2, call(o, addr(10), vec![0x01], 1)),
        entry(vec![0], 1, call(o, addr(11), vec![0x01], 2)),
        entry(vec![1], 0, call(o, addr(13), vec![0x01], 4)),
        entry(vec![0, 0], 0, call(o, addr(12), vec![0x01], 3)),
    ];
    let plan = trace_to_tx(&entries, &signer, &None).unwrap();
    assert_eq!(
        plan,
        vec![
            vec![replayed(signer, addr(10), 1)],
            vec![replayed(signer, addr(11), 2), replayed(signer, addr(13), 4)],
        ]
    );
}

#[test]
fn trace_to_tx_deeper_entry_does_not_stand_in_for_missing_child() {
    let signer = addr(9);
    let o = addr(1);
    let entries = vec![
        entry(vec![], 2, call(o, addr(10), vec![0x01], 1)),
        entry(vec![0], 1, call(o, addr(11), vec![0x01], 2)),
        entry(vec![0, 0], 0, call(o, addr(12), vec![0x01], 3)),
    ];
    assert_eq!(trace_to_tx(&entries, &signer, &None), Err(TraceError::MalformedTrace));
}
