use my_csv_parser::ledger::{ApplyError, Ledger};
use my_csv_parser::types::{
    Balances, Centicents, ClientId, ClientState, ParseError, Record, RecordType,
};

fn deposit(client: u16, tx: u32, amount: &str) -> Record {
    Record {
        record_type: RecordType::Deposit,
        client_id: client,
        transaction_id: tx,
        amount: Some(amount.to_string()),
    }
}

fn withdrawal(client: u16, tx: u32, amount: &str) -> Record {
    Record {
        record_type: RecordType::Withdrawal,
        client_id: client,
        transaction_id: tx,
        amount: Some(amount.to_string()),
    }
}

fn bare(kind: RecordType, client: u16, tx: u32) -> Record {
    Record {
        record_type: kind,
        client_id: client,
        transaction_id: tx,
        amount: None,
    }
}

fn balances(ledger: &Ledger, client: u16) -> Balances {
    ledger.get_client(client).unwrap().balances
}

#[test]
fn deposit_scenario() {
    let mut ledger = Ledger::default();
    ledger.process(vec![deposit(0, 0, "10.5001")]).unwrap();
    let b = balances(&ledger, 0);
    assert_eq!(b.available, Centicents(105001));
    assert_eq!(b.held, Centicents(0));
}

#[test]
fn dispute_scenario() {
    let mut ledger = Ledger::default();
    ledger
        .process(vec![deposit(0, 0, "10.5001"), bare(RecordType::Dispute, 0, 0)])
        .unwrap();
    let b = balances(&ledger, 0);
    assert_eq!(b.available, Centicents(0));
    assert_eq!(b.held, Centicents(105001));
    assert!(ledger.get_transaction(0).unwrap().is_disputed);
}

#[test]
fn resolve_scenario() {
    let mut ledger = Ledger::default();
    ledger
        .process(vec![
            deposit(0, 0, "10.5001"),
            bare(RecordType::Dispute, 0, 0),
            bare(RecordType::Resolve, 0, 0),
        ])
        .unwrap();
    let b = balances(&ledger, 0);
    assert_eq!(b.available, Centicents(105001));
    assert_eq!(b.held, Centicents(0));
    assert!(!ledger.get_transaction(0).unwrap().is_disputed);
}

#[test]
fn chargeback_after_withdrawal_scenario() {
    let mut ledger = Ledger::default();
    ledger
        .process(vec![
            deposit(0, 0, "10.5001"),
            withdrawal(0, 1, "10.5001"),
            bare(RecordType::Dispute, 0, 0),
            bare(RecordType::Chargeback, 0, 0),
        ])
        .unwrap();
    let state = ledger.get_client(0).unwrap();
    assert_eq!(state.balances.available, Centicents(-105001));
    assert_eq!(state.balances.held, Centicents(0));
    assert!(state.is_frozen);

    // The account is frozen for good: a further deposit changes nothing.
    ledger.process(vec![deposit(0, 2, "100.5001")]).unwrap();
    let state = ledger.get_client(0).unwrap();
    assert_eq!(state.balances.available, Centicents(-105001));
    assert_eq!(state.balances.held, Centicents(0));
    assert!(state.is_frozen);
    assert_eq!(ledger.get_transaction(2), None);
}

#[test]
fn withdrawal_blocked_without_funds() {
    let mut ledger = Ledger::default();
    ledger
        .process(vec![deposit(0, 0, "5"), withdrawal(0, 1, "7.5")])
        .unwrap();
    let b = balances(&ledger, 0);
    // The balance is untouched, but the withdrawal is still recorded.
    assert_eq!(b.available, Centicents(50000));
    assert_eq!(b.held, Centicents(0));
    assert_eq!(ledger.get_transaction(1).unwrap().amount, Centicents(75000));
}

#[test]
fn withdrawal_of_entire_balance_succeeds() {
    let mut ledger = Ledger::default();
    ledger
        .process(vec![deposit(0, 0, "5"), withdrawal(0, 1, "5")])
        .unwrap();
    assert_eq!(balances(&ledger, 0).available, Centicents(0));
}

#[test]
fn unknown_transaction_is_a_silent_no_op() {
    let mut ledger = Ledger::default();
    ledger.process(vec![deposit(0, 0, "5")]).unwrap();
    ledger
        .process(vec![
            bare(RecordType::Dispute, 0, 99),
            bare(RecordType::Resolve, 0, 99),
            bare(RecordType::Chargeback, 0, 99),
        ])
        .unwrap();
    let b = balances(&ledger, 0);
    assert_eq!(b.available, Centicents(50000));
    assert_eq!(b.held, Centicents(0));
    assert!(!ledger.get_client(0).unwrap().is_frozen);
    assert_eq!(ledger.transaction_count(), 1);
}

#[test]
fn missing_amount_is_an_error() {
    let mut ledger = Ledger::default();
    let err = ledger
        .process(vec![bare(RecordType::Deposit, 0, 0)])
        .unwrap_err();
    assert_eq!(err, ApplyError::MissingAmount);
    let err = ledger
        .process(vec![bare(RecordType::Withdrawal, 0, 0)])
        .unwrap_err();
    assert_eq!(err, ApplyError::MissingAmount);
}

#[test]
fn malformed_amount_stops_the_run() {
    let mut ledger = Ledger::default();
    let err = ledger
        .process(vec![
            deposit(0, 0, "5"),
            deposit(0, 1, "bad"),
            deposit(0, 2, "7"),
        ])
        .unwrap_err();
    assert_eq!(err, ApplyError::InvalidAmount(ParseError::InvalidDigit));
    // The record before the failure took effect; the one after it did not.
    assert_eq!(balances(&ledger, 0).available, Centicents(50000));
    assert_eq!(ledger.get_transaction(2), None);
}

#[test]
fn deposit_overflow_is_an_error() {
    let mut ledger = Ledger::default();
    ledger
        .process(vec![deposit(0, 0, "922337203685477.5807")])
        .unwrap();
    let err = ledger
        .process(vec![deposit(0, 1, "0.0001")])
        .unwrap_err();
    assert_eq!(err, ApplyError::BalanceOverflow);
    assert_eq!(balances(&ledger, 0).available, Centicents(i64::MAX));
}

#[test]
fn snapshot_is_sorted_by_client() {
    let mut ledger = Ledger::default();
    ledger
        .process(vec![
            deposit(7, 0, "1.5"),
            deposit(2, 1, "2"),
            deposit(5, 2, "3.25"),
        ])
        .unwrap();
    let rows = ledger.snapshot();
    assert_eq!(rows.len(), 3);
    assert_eq!(rows[0].0, ClientId(2));
    assert_eq!(rows[1].0, ClientId(5));
    assert_eq!(rows[2].0, ClientId(7));
    assert_eq!(rows[0].1.balances.available, Centicents(20000));
    assert_eq!(rows[1].1.balances.available, Centicents(32500));
    assert_eq!(rows[2].1.balances.available, Centicents(15000));
}

#[test]
fn total_is_available_less_held() {
    let state = ClientState {
        balances: Balances {
            available: Centicents(105001),
            held: Centicents(5001),
        },
        is_frozen: false,
    };
    assert_eq!(state.balances.total(), Some(Centicents(100000)));
    let extreme = Balances {
        available: Centicents(i64::MAX),
        held: Centicents(-1),
    };
    assert_eq!(extreme.total(), None);
}

#[test]
fn dispute_on_another_clients_transaction_uses_recorded_amount() {
    // The ledger looks the transaction up by id alone, as the reference
    // behaviour does: the disputing client's balances move by its amount.
    let mut ledger = Ledger::default();
    ledger
        .process(vec![deposit(1, 0, "5"), bare(RecordType::Dispute, 2, 0)])
        .unwrap();
    let b = balances(&ledger, 2);
    assert_eq!(b.available, Centicents(-50000));
    assert_eq!(b.held, Centicents(50000));
    assert_eq!(balances(&ledger, 1).available, Centicents(50000));
}
