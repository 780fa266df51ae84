use hdwallet_core::keys::{derive_address, seed_from_mnemonic, wallet_descriptor_for_seed, DerivationError, Network};
use hdwallet_core::sync::{
    balance, reconcile, scan_round, AddressRequest, AddressScan, BackendError, RoundResult, UnspentOutput, Utxo,
    WalletState,
};

fn out(t: u8, vout: u32, amount: u64, height: Option<u32>) -> UnspentOutput {
    UnspentOutput { txid: vec![t; 32], vout, amount, script: vec![0x00, 0x14, t], height }
}

fn same(a: &[Utxo], b: &[Utxo]) -> bool {
    a.len() == b.len()
        && a.iter().zip(b.iter()).all(|(x, y)| {
            x.txid == y.txid && x.vout == y.vout && x.amount == y.amount && x.script == y.script
                && x.height == y.height && x.spent == y.spent
        })
}

#[test]
fn one_unspent_output_gives_its_amount() {
    let mut w = WalletState::new();
    let round = RoundResult { receive_next: 1, change_next: 0, unspent: vec![out(1, 0, 50_000, Some(101))] };
    assert!(w.commit_round(Ok(round)).is_ok());
    assert_eq!(w.utxos.len(), 1);
    let b = w.balance(546);
    assert_eq!(b.total, 50_000);
    assert_eq!(b.confirmed, 50_000);
    let mut u = WalletState::new();
    let round = RoundResult { receive_next: 1, change_next: 0, unspent: vec![out(2, 1, 7_000, None)] };
    u.commit_round(Ok(round)).unwrap();
    assert_eq!(u.balance(546).total, 7_000);
    assert_eq!(u.balance(546).confirmed, 0);
}

#[test]
fn dust_and_spent_outputs_are_not_counted() {
    let utxos = vec![
        Utxo { txid: vec![1; 32], vout: 0, amount: 100, script: vec![], height: Some(1), spent: false },
        Utxo { txid: vec![2; 32], vout: 0, amount: 9_000, script: vec![], height: Some(1), spent: true },
        Utxo { txid: vec![3; 32], vout: 0, amount: 1_000, script: vec![], height: None, spent: false },
        Utxo { txid: vec![4; 32], vout: 0, amount: 2_000, script: vec![], height: Some(5), spent: false },
    ];
    let b = balance(&utxos, 546);
    assert_eq!(b.total, 3_000);
    assert_eq!(b.confirmed, 2_000);
    let big = vec![
        Utxo { txid: vec![1; 32], vout: 0, amount: u64::MAX, script: vec![], height: Some(1), spent: false },
        Utxo { txid: vec![2; 32], vout: 0, amount: u64::MAX, script: vec![], height: Some(1), spent: false },
    ];
    assert_eq!(balance(&big, 0).total, 2 * (u64::MAX as u128));
}

#[test]
fn reconcile_flags_spent_and_adds_new() {
    let known = vec![
        Utxo { txid: vec![1; 32], vout: 0, amount: 10, script: vec![1], height: None, spent: false },
        Utxo { txid: vec![2; 32], vout: 3, amount: 20, script: vec![2], height: Some(4), spent: false },
    ];
    let backend = vec![out(1, 0, 10, Some(9)), out(5, 0, 30, None), out(5, 0, 30, None)];
    let r = reconcile(&known, &backend);
    assert_eq!(r.len(), 3);
    assert_eq!(r[0].height, Some(9));
    assert!(!r[0].spent);
    assert!(r[1].spent);
    assert_eq!(r[1].height, Some(4));
    assert_eq!(r[2].txid, vec![5; 32]);
    assert!(!r[2].spent);
}

#[test]
fn second_identical_round_changes_nothing() {
    let mut w = WalletState::new();
    let round = RoundResult {
        receive_next: 3,
        change_next: 1,
        unspent: vec![out(1, 0, 10, Some(9)), out(2, 1, 20, None)],
    };
    w.commit_round(Ok(round.clone())).unwrap();
    let first = w.clone();
    w.commit_round(Ok(round)).unwrap();
    assert_eq!(w.receive_index, first.receive_index);
    assert_eq!(w.change_index, first.change_index);
    assert!(same(&w.utxos, &first.utxos));
}

#[test]
fn failed_round_leaves_state_unchanged() {
    let mut w = WalletState::new();
    w.commit_round(Ok(RoundResult { receive_next: 2, change_next: 0, unspent: vec![out(1, 0, 10, None)] }))
        .unwrap();
    let before = w.clone();
    assert_eq!(w.commit_round(Err(BackendError::Protocol)), Err(BackendError::Protocol));
    assert_eq!(w.commit_round(Err(BackendError::Transient)), Err(BackendError::Transient));
    assert_eq!(w.receive_index, before.receive_index);
    assert!(same(&w.utxos, &before.utxos));
}

#[test]
fn indices_never_go_back() {
    let mut w = WalletState::new();
    w.commit_round(Ok(RoundResult { receive_next: 5, change_next: 2, unspent: vec![] })).unwrap();
    w.commit_round(Ok(RoundResult { receive_next: 3, change_next: 4, unspent: vec![] })).unwrap();
    assert_eq!(w.receive_index, 5);
    assert_eq!(w.change_index, 4);
}

#[test]
fn gap_limit_stops_after_gap_unused() {
    let mut s = AddressScan::new(0);
    for used in [true, false, true] {
        s.observe(used);
    }
    assert!(!s.is_exhausted(3));
    for _ in 0..2 {
        s.observe(false);
        assert!(!s.is_exhausted(3));
    }
    s.observe(false);
    assert!(s.is_exhausted(3));
    assert_eq!(s.next_to_query(), 6);
    assert_eq!(s.last_active(), Some(2));
    assert_eq!(s.next_index(), 3);
}

#[test]
fn cursor_advances_to_last_active_only() {
    let mut s = AddressScan::new(10);
    s.observe(true);
    for _ in 0..20 {
        s.observe(false);
    }
    assert!(s.is_exhausted(20));
    assert_eq!(s.next_index(), 11);
    let mut next = AddressScan::new(s.next_index());
    for _ in 0..20 {
        next.observe(false);
    }
    next.observe(true);
    assert!(!next.is_exhausted(20));
    assert_eq!(next.next_index(), 32);
    let empty = AddressScan::new(7);
    assert_eq!(empty.next_index(), 7);
    assert!(empty.is_exhausted(0));
}

#[test]
fn new_address_is_issued_once() {
    let seed = seed_from_mnemonic(
        "abandon abandon abandon abandon abandon abandon abandon abandon abandon abandon abandon about",
        "",
    )
    .unwrap();
    let d = wallet_descriptor_for_seed(&seed, Network::Testnet, 0).unwrap();
    let mut w = WalletState::new();
    let a0 = w.get_address(&d, Network::Testnet, AddressRequest::New).unwrap();
    assert_eq!(a0, "tb1q6rz28mcfaxtmd6v789l9rrlrusdprr9pqcpvkl");
    assert_eq!(w.receive_index, 1);
    let a1 = w.get_address(&d, Network::Testnet, AddressRequest::New).unwrap();
    assert_ne!(a0, a1);
    assert_eq!(a1, derive_address(&d, 1, Network::Testnet).unwrap().0);
    let last = w.get_address(&d, Network::Testnet, AddressRequest::LastIssued).unwrap();
    assert_eq!(last, a1);
    assert_eq!(w.receive_index, 2);
    w.receive_index = 0x8000_0000;
    assert_eq!(w.get_address(&d, Network::Testnet, AddressRequest::New), Err(DerivationError::DerivationOverflow));
}

#[test]
fn scan_round_stops_at_gap_after_last_used() {
    let used = vec![true, false, false, true, false, false, false, true];
    assert_eq!(scan_round(&used, 3), 7);
    assert_eq!(scan_round(&used, 4), 8);
    assert_eq!(scan_round(&vec![false, false, false], 2), 2);
    assert_eq!(scan_round(&vec![], 5), 0);
}
