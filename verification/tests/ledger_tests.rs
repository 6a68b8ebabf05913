use my_csv_parser::ledger::Ledger;
use my_csv_parser::types::{
    Balances, Centicents, ClientState, Record, RecordType, TransactionInfo,
};

#[test]
fn test_deposit() {
    let mut ledger = Ledger::default();
    ledger
        .process(vec![Record {
            record_type: RecordType::Deposit,
            client_id: 0,
            transaction_id: 0,
            amount: Some("10.5001".to_string()),
        }])
        .unwrap();

    assert_eq!(ledger.transaction_count(), 1);
    assert_eq!(
        ledger.get_transaction(0),
        Some(TransactionInfo {
            amount: Centicents(105_001),
            is_disputed: false,
        })
    );

    assert_eq!(ledger.client_count(), 1);
    assert_eq!(
        ledger.get_client(0),
        Some(ClientState {
            balances: Balances {
                available: Centicents(105_001),
                held: Centicents(0),
            },
            is_frozen: false,
        })
    );
}

#[test]
fn test_dispute() {
    let mut ledger = Ledger::default();
    ledger
        .process(vec![
            Record {
                record_type: RecordType::Deposit,
                client_id: 0,
                transaction_id: 0,
                amount: Some("10.5001".to_string()),
            },
            Record {
                record_type: RecordType::Dispute,
                client_id: 0,
                transaction_id: 0,
                amount: None,
            },
        ])
        .unwrap();

    assert_eq!(ledger.transaction_count(), 1);
    assert_eq!(
        ledger.get_transaction(0),
        Some(TransactionInfo {
            amount: Centicents(105_001),
            is_disputed: true,
        })
    );

    assert_eq!(ledger.client_count(), 1);
    assert_eq!(
        ledger.get_client(0),
        Some(ClientState {
            balances: Balances {
                available: Centicents(0),
                held: Centicents(105_001),
            },
            is_frozen: false,
        })
    );
}

#[test]
fn test_resolve() {
    let mut ledger = Ledger::default();
    ledger
        .process(vec![
            Record {
                record_type: RecordType::Deposit,
                client_id: 0,
                transaction_id: 0,
                amount: Some("10.5001".to_string()),
            },
            Record {
                record_type: RecordType::Dispute,
                client_id: 0,
                transaction_id: 0,
                amount: None,
            },
            Record {
                record_type: RecordType::Resolve,
                client_id: 0,
                transaction_id: 0,
                amount: None,
            },
        ])
        .unwrap();

    assert_eq!(ledger.transaction_count(), 1);
    assert_eq!(
        ledger.get_transaction(0),
        Some(TransactionInfo {
            amount: Centicents(105_001),
            is_disputed: false,
        })
    );

    assert_eq!(ledger.client_count(), 1);
    assert_eq!(
        ledger.get_client(0),
        Some(ClientState {
            balances: Balances {
                available: Centicents(105_001),
                held: Centicents(0),
            },
            is_frozen: false,
        })
    );
}

#[test]
fn test_chargeback() {
    let mut ledger = Ledger::default();
    ledger
        .process(vec![
            Record {
                record_type: RecordType::Deposit,
                client_id: 0,
                transaction_id: 0,
                amount: Some("10.5001".to_string()),
            },
            Record {
                record_type: RecordType::Dispute,
                client_id: 0,
                transaction_id: 0,
                amount: None,
            },
            Record {
                record_type: RecordType::Chargeback,
                client_id: 0,
                transaction_id: 0,
                amount: None,
            },
            // The account is frozen now, so even a deposit is a no-op.
            Record {
                record_type: RecordType::Deposit,
                client_id: 0,
                transaction_id: 1,
                amount: Some("100.5001".to_string()),
            },
        ])
        .unwrap();

    assert_eq!(ledger.transaction_count(), 1);
    assert_eq!(
        ledger.get_transaction(0),
        Some(TransactionInfo {
            amount: Centicents(105_001),
            is_disputed: true,
        })
    );

    assert_eq!(ledger.client_count(), 1);
    assert_eq!(
        ledger.get_client(0),
        Some(ClientState {
            balances: Balances {
                available: Centicents(0),
                held: Centicents(0),
            },
            is_frozen: true,
        })
    );
}

#[test]
fn test_negative_balance_chargeback() {
    let mut ledger = Ledger::default();
    ledger
        .process(vec![
            Record {
                record_type: RecordType::Deposit,
                client_id: 0,
                transaction_id: 0,
                amount: Some("10.5001".to_string()),
            },
            Record {
                record_type: RecordType::Withdrawal,
                client_id: 0,
                transaction_id: 1,
                amount: Some("10.5001".to_string()),
            },
            Record {
                record_type: RecordType::Dispute,
                client_id: 0,
                transaction_id: 0,
                amount: None,
            },
            Record {
                record_type: RecordType::Chargeback,
                client_id: 0,
                transaction_id: 0,
                amount: None,
            },
        ])
        .unwrap();

    assert_eq!(ledger.transaction_count(), 2);
    assert_eq!(
        ledger.get_transaction(0),
        Some(TransactionInfo {
            amount: Centicents(105_001),
            is_disputed: true,
        })
    );
    assert_eq!(
        ledger.get_transaction(1),
        Some(TransactionInfo {
            amount: Centicents(105_001),
            is_disputed: false,
        })
    );

    assert_eq!(ledger.client_count(), 1);
    assert_eq!(
        ledger.get_client(0),
        Some(ClientState {
            balances: Balances {
                available: Centicents(-105_001),
                held: Centicents(0),
            },
            is_frozen: true,
        })
    );
}
