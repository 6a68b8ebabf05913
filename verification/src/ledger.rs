//! The account state machine: applying records to per-client balances.

use std::collections::HashMap;
use vstd::prelude::*;

use crate::types::{
    in_i64, spec_parse, Balances, Centicents, ClientId, ClientState, ParseError, Record,
    RecordType, TransactionInfo,
};

verus! {

broadcast use vstd::std_specs::hash::group_hash_axioms;

/// Why applying a record failed.  A failure leaves the ledger unchanged.
#[derive(Debug, Clone, Copy, PartialEq, Eq, Structural)]
pub enum ApplyError {
    /// A deposit or withdrawal record carried no amount.
    MissingAmount,
    /// The amount text of a deposit or withdrawal did not parse.
    InvalidAmount(ParseError),
    /// A balance would have left the representable range; a machine limit,
    /// not a rule of the ledger.
    BalanceOverflow,
}

/// The ledger: every client's balances and every recorded transaction.
///
/// The two maps are owned exclusively by the ledger and are only ever
/// changed through `apply` (or `process`); `clients` and `transactions`
/// are their mathematical views, and every contract speaks through them.
pub struct Ledger {
    transaction_data: HashMap<u32, TransactionInfo>,
    clients_data: HashMap<u16, ClientState>,
}

impl Ledger {
    /// The per-client account map.
    pub closed spec fn clients(&self) -> Map<u16, ClientState> {
        self.clients_data@
    }

    /// The per-transaction history map.
    pub closed spec fn transactions(&self) -> Map<u32, TransactionInfo> {
        self.transaction_data@
    }

    /// An empty ledger: no clients, no transactions.
    pub fn new() -> (r: Ledger)
        ensures
            r.clients() == Map::<u16, ClientState>::empty(),
            r.transactions() == Map::<u32, TransactionInfo>::empty(),
    {
        Ledger { transaction_data: HashMap::new(), clients_data: HashMap::new() }
    }
}

impl Default for Ledger {
    /// An empty ledger.
    fn default() -> (r: Self)
        ensures
            r.clients() == Map::<u16, ClientState>::empty(),
            r.transactions() == Map::<u32, TransactionInfo>::empty(),
    {
        Ledger::new()
    }
}

/// The account of a client: the stored one, or a fresh one the first time a
/// record refers to the client.
pub open spec fn account_or_new(clients: Map<u16, ClientState>, c: u16) -> ClientState {
    if clients.contains_key(c) {
        clients[c]
    } else {
        ClientState {
            balances: Balances { available: Centicents(0), held: Centicents(0) },
            is_frozen: false,
        }
    }
}

/// The amount a deposit or withdrawal record carries, parsed.
pub open spec fn spec_amount(amount: Option<String>) -> Result<i64, ApplyError> {
    match amount {
        Option::None => Err(ApplyError::MissingAmount),
        Option::Some(s) => match spec_parse(s@) {
            Ok(v) => Ok(v),
            Err(e) => Err(ApplyError::InvalidAmount(e)),
        },
    }
}

/// What applying one record does: the new client map, the new transaction
/// map, and the outcome handed to the caller.
///
/// The rules, in the order they are checked:
/// - A frozen account ignores every record for it, silently; the maps do
///   not change and the amount is not even parsed.
/// - A deposit parses its amount, records the transaction (overwriting any
///   entry under the same id) as undisputed, and adds the amount to
///   `available`.
/// - A withdrawal parses its amount and records the transaction like a
///   deposit; it subtracts the amount from `available` only when
///   `available` covers it, and otherwise leaves the balances alone —
///   the bookkeeping entry stays either way.
/// - Dispute, resolve and chargeback ignore their amount field and are
///   silent no-ops when the transaction id is unknown.  A dispute moves the
///   recorded amount from `available` to `held` and marks the transaction
///   disputed; a resolve moves it back and clears the mark; a chargeback
///   removes it from `held` and freezes the account.  None of the three
///   asks whether the transaction was already disputed, and a chargeback
///   leaves `available` alone: the amount left it when the dispute was
///   raised.
/// - A record that fails — a missing amount, text that does not parse, or
///   a balance pushed outside the representable range — changes nothing.
///
/// Applying a record creates the client's account if it did not exist, in
/// every successful outcome.
pub open spec fn spec_apply(
    clients: Map<u16, ClientState>,
    txs: Map<u32, TransactionInfo>,
    r: Record,
) -> (Map<u16, ClientState>, Map<u32, TransactionInfo>, Result<(), ApplyError>) {
    let cs = account_or_new(clients, r.client_id);
    if cs.is_frozen {
        (clients, txs, Ok(()))
    } else {
        match r.record_type {
            RecordType::Deposit => match spec_amount(r.amount) {
                Err(e) => (clients, txs, Err(e)),
                Ok(a) => {
                    let na = cs.balances.available.0 + a;
                    if !in_i64(na) {
                        (clients, txs, Err(ApplyError::BalanceOverflow))
                    } else {
                        (
                            clients.insert(
                                r.client_id,
                                ClientState {
                                    balances: Balances {
                                        available: Centicents(na as i64),
                                        held: cs.balances.held,
                                    },
                                    is_frozen: false,
                                },
                            ),
                            txs.insert(
                                r.transaction_id,
                                TransactionInfo { amount: Centicents(a), is_disputed: false },
                            ),
                            Ok(()),
                        )
                    }
                },
            },
            RecordType::Withdrawal => match spec_amount(r.amount) {
                Err(e) => (clients, txs, Err(e)),
                Ok(a) => {
                    let debited = if cs.balances.available.0 >= a {
                        ClientState {
                            balances: Balances {
                                available: Centicents((cs.balances.available.0 - a) as i64),
                                held: cs.balances.held,
                            },
                            is_frozen: false,
                        }
                    } else {
                        cs
                    };
                    (
                        clients.insert(r.client_id, debited),
                        txs.insert(
                            r.transaction_id,
                            TransactionInfo { amount: Centicents(a), is_disputed: false },
                        ),
                        Ok(()),
                    )
                },
            },
            RecordType::Dispute => {
                if !txs.contains_key(r.transaction_id) {
                    (clients.insert(r.client_id, cs), txs, Ok(()))
                } else {
                    let t = txs[r.transaction_id];
                    let na = cs.balances.available.0 - t.amount.0;
                    let nh = cs.balances.held.0 + t.amount.0;
                    if !in_i64(na) || !in_i64(nh) {
                        (clients, txs, Err(ApplyError::BalanceOverflow))
                    } else {
                        (
                            clients.insert(
                                r.client_id,
                                ClientState {
                                    balances: Balances {
                                        available: Centicents(na as i64),
                                        held: Centicents(nh as i64),
                                    },
                                    is_frozen: false,
                                },
                            ),
                            txs.insert(
                                r.transaction_id,
                                TransactionInfo { amount: t.amount, is_disputed: true },
                            ),
                            Ok(()),
                        )
                    }
                }
            },
            RecordType::Resolve => {
                if !txs.contains_key(r.transaction_id) {
                    (clients.insert(r.client_id, cs), txs, Ok(()))
                } else {
                    let t = txs[r.transaction_id];
                    let na = cs.balances.available.0 + t.amount.0;
                    let nh = cs.balances.held.0 - t.amount.0;
                    if !in_i64(na) || !in_i64(nh) {
                        (clients, txs, Err(ApplyError::BalanceOverflow))
                    } else {
                        (
                            clients.insert(
                                r.client_id,
                                ClientState {
                                    balances: Balances {
                                        available: Centicents(na as i64),
                                        held: Centicents(nh as i64),
                                    },
                                    is_frozen: false,
                                },
                            ),
                            txs.insert(
                                r.transaction_id,
                                TransactionInfo { amount: t.amount, is_disputed: false },
                            ),
                            Ok(()),
                        )
                    }
                }
            },
            RecordType::Chargeback => {
                if !txs.contains_key(r.transaction_id) {
                    (clients.insert(r.client_id, cs), txs, Ok(()))
                } else {
                    let t = txs[r.transaction_id];
                    let nh = cs.balances.held.0 - t.amount.0;
                    if !in_i64(nh) {
                        (clients, txs, Err(ApplyError::BalanceOverflow))
                    } else {
                        (
                            clients.insert(
                                r.client_id,
                                ClientState {
                                    balances: Balances {
                                        available: cs.balances.available,
                                        held: Centicents(nh as i64),
                                    },
                                    is_frozen: true,
                                },
                            ),
                            txs,
                            Ok(()),
                        )
                    }
                }
            },
        }
    }
}

/// What applying a whole batch does: records are applied in order, and the
/// first failure stops the run, keeping the effects of the records before
/// it.
pub open spec fn spec_process(
    clients: Map<u16, ClientState>,
    txs: Map<u32, TransactionInfo>,
    rs: Seq<Record>,
) -> (Map<u16, ClientState>, Map<u32, TransactionInfo>, Result<(), ApplyError>)
    decreases rs.len(),
{
    if rs.len() == 0 {
        (clients, txs, Ok(()))
    } else {
        let (c1, t1, r1) = spec_apply(clients, txs, rs[0]);
        if r1 is Err {
            (c1, t1, r1)
        } else {
            spec_process(c1, t1, rs.drop_first())
        }
    }
}

impl Ledger {
    /// Applies one record, exactly as `spec_apply` states.
    pub fn apply(&mut self, record: &Record) -> (r: Result<(), ApplyError>)
        ensures
            ({
                let (cm, tm, res) = spec_apply(
                    old(self).clients(),
                    old(self).transactions(),
                    *record,
                );
                final(self).clients() == cm && final(self).transactions() == tm && r == res
            }),
    {
        let cs = match self.clients_data.get(&record.client_id) {
            Option::Some(c) => *c,
            Option::None => ClientState::default(),
        };
        assert(cs == account_or_new(self.clients(), record.client_id));
        if cs.is_frozen {
            return Ok(());
        }
        match record.record_type {
            RecordType::Deposit => {
                let a = match &record.amount {
                    Option::Some(text) => match crate::types::parse_amount(text.as_str()) {
                        Ok(v) => v,
                        Err(e) => {
                            return Err(ApplyError::InvalidAmount(e));
                        },
                    },
                    Option::None => {
                        return Err(ApplyError::MissingAmount);
                    },
                };
                let na = match cs.balances.available.0.checked_add(a) {
                    Option::Some(v) => v,
                    Option::None => {
                        return Err(ApplyError::BalanceOverflow);
                    },
                };
                self.clients_data.insert(
                    record.client_id,
                    ClientState {
                        balances: Balances { available: Centicents(na), held: cs.balances.held },
                        is_frozen: false,
                    },
                );
                self.transaction_data.insert(
                    record.transaction_id,
                    TransactionInfo { amount: Centicents(a), is_disputed: false },
                );
                Ok(())
            },
            RecordType::Withdrawal => {
                let a = match &record.amount {
                    Option::Some(text) => match crate::types::parse_amount(text.as_str()) {
                        Ok(v) => v,
                        Err(e) => {
                            return Err(ApplyError::InvalidAmount(e));
                        },
                    },
                    Option::None => {
                        return Err(ApplyError::MissingAmount);
                    },
                };
                proof {
                    if let Option::Some(text) = &record.amount {
                        crate::types::lemma_parse_nonneg(text@);
                    }
                }
                let debited = if cs.balances.available.0 >= a {
                    ClientState {
                        balances: Balances {
                            available: Centicents(cs.balances.available.0 - a),
                            held: cs.balances.held,
                        },
                        is_frozen: false,
                    }
                } else {
                    cs
                };
                self.clients_data.insert(record.client_id, debited);
                self.transaction_data.insert(
                    record.transaction_id,
                    TransactionInfo { amount: Centicents(a), is_disputed: false },
                );
                Ok(())
            },
            RecordType::Dispute => {
                let t = match self.transaction_data.get(&record.transaction_id) {
                    Option::Some(t) => *t,
                    Option::None => {
                        self.clients_data.insert(record.client_id, cs);
                        return Ok(());
                    },
                };
                let na = match cs.balances.available.0.checked_sub(t.amount.0) {
                    Option::Some(v) => v,
                    Option::None => {
                        return Err(ApplyError::BalanceOverflow);
                    },
                };
                let nh = match cs.balances.held.0.checked_add(t.amount.0) {
                    Option::Some(v) => v,
                    Option::None => {
                        return Err(ApplyError::BalanceOverflow);
                    },
                };
                self.clients_data.insert(
                    record.client_id,
                    ClientState {
                        balances: Balances { available: Centicents(na), held: Centicents(nh) },
                        is_frozen: false,
                    },
                );
                self.transaction_data.insert(
                    record.transaction_id,
                    TransactionInfo { amount: t.amount, is_disputed: true },
                );
                Ok(())
            },
            RecordType::Resolve => {
                let t = match self.transaction_data.get(&record.transaction_id) {
                    Option::Some(t) => *t,
                    Option::None => {
                        self.clients_data.insert(record.client_id, cs);
                        return Ok(());
                    },
                };
                let na = match cs.balances.available.0.checked_add(t.amount.0) {
                    Option::Some(v) => v,
                    Option::None => {
                        return Err(ApplyError::BalanceOverflow);
                    },
                };
                let nh = match cs.balances.held.0.checked_sub(t.amount.0) {
                    Option::Some(v) => v,
                    Option::None => {
                        return Err(ApplyError::BalanceOverflow);
                    },
                };
                self.clients_data.insert(
                    record.client_id,
                    ClientState {
                        balances: Balances { available: Centicents(na), held: Centicents(nh) },
                        is_frozen: false,
                    },
                );
                self.transaction_data.insert(
                    record.transaction_id,
                    TransactionInfo { amount: t.amount, is_disputed: false },
                );
                Ok(())
            },
            RecordType::Chargeback => {
                let t = match self.transaction_data.get(&record.transaction_id) {
                    Option::Some(t) => *t,
                    Option::None => {
                        self.clients_data.insert(record.client_id, cs);
                        return Ok(());
                    },
                };
                let nh = match cs.balances.held.0.checked_sub(t.amount.0) {
                    Option::Some(v) => v,
                    Option::None => {
                        return Err(ApplyError::BalanceOverflow);
                    },
                };
                self.clients_data.insert(
                    record.client_id,
                    ClientState {
                        balances: Balances { available: cs.balances.available, held: Centicents(nh) },
                        is_frozen: true,
                    },
                );
                Ok(())
            },
        }
    }

    /// Applies a batch of records in order, exactly as `spec_process`
    /// states: the first failure stops the run and is handed back, and the
    /// effects of the records before it remain.
    #[verifier::loop_isolation(false)]
    pub fn process(&mut self, records: Vec<Record>) -> (r: Result<(), ApplyError>)
        ensures
            ({
                let (cm, tm, res) = spec_process(
                    old(self).clients(),
                    old(self).transactions(),
                    records@,
                );
                final(self).clients() == cm && final(self).transactions() == tm && r == res
            }),
    {
        let n = records.len();
        assert(records@.skip(0) =~= records@);
        let mut i: usize = 0;
        while i < n
            invariant
                0 <= i <= n,
                spec_process(old(self).clients(), old(self).transactions(), records@)
                    == spec_process(self.clients(), self.transactions(), records@.skip(i as int)),
            decreases n - i,
        {
            let ghost pre = records@.skip(i as int);
            assert(pre[0] == records@[i as int]);
            match self.apply(&records[i]) {
                Ok(()) => {},
                Err(e) => {
                    return Err(e);
                },
            }
            proof {
                assert(pre.drop_first() =~= records@.skip(i + 1));
            }
            i += 1;
        }
        proof {
            assert(records@.skip(n as int) =~= Seq::<Record>::empty());
        }
        Ok(())
    }

    /// The stored account of a client, if any record has referred to them.
    pub fn get_client(&self, client: u16) -> (r: Option<ClientState>)
        ensures
            match r {
                Option::Some(cs) => self.clients().contains_key(client) && cs
                    == self.clients().index(client),
                Option::None => !self.clients().contains_key(client),
            },
    {
        match self.clients_data.get(&client) {
            Option::Some(c) => Option::Some(*c),
            Option::None => Option::None,
        }
    }

    /// The recorded transaction under an id, if there is one.
    pub fn get_transaction(&self, tx: u32) -> (r: Option<TransactionInfo>)
        ensures
            match r {
                Option::Some(t) => self.transactions().contains_key(tx) && t
                    == self.transactions()[tx],
                Option::None => !self.transactions().contains_key(tx),
            },
    {
        match self.transaction_data.get(&tx) {
            Option::Some(t) => Option::Some(*t),
            Option::None => Option::None,
        }
    }

    /// How many clients hold an account.
    pub fn client_count(&self) -> (n: usize)
        ensures
            n == self.clients().len(),
    {
        self.clients_data.len()
    }

    /// How many transactions are recorded.
    pub fn transaction_count(&self) -> (n: usize)
        ensures
            n == self.transactions().len(),
    {
        self.transaction_data.len()
    }

    /// Every client's account, ascending by client id: a pure read of the
    /// final state, one row per client that any record referred to.
    #[verifier::loop_isolation(false)]
    pub fn snapshot(&self) -> (r: Vec<(ClientId, ClientState)>)
        ensures
            forall|i: int, j: int| 0 <= i < j < r@.len() ==> r@[i].0.0 < r@[j].0.0,
            forall|i: int|
                0 <= i < r@.len() ==> self.clients().contains_key(#[trigger] r@[i].0.0) && r@[i].1
                    == self.clients()[r@[i].0.0],
            forall|k: u16|
                self.clients().contains_key(k) ==> exists|i: int|
                    0 <= i < r@.len() && (#[trigger] r@[i].0.0) == k,
    {
        let mut out: Vec<(ClientId, ClientState)> = Vec::new();
        let mut id: u32 = 0;
        while id < 65536
            invariant
                0 <= id <= 65536,
                forall|i: int, j: int| 0 <= i < j < out@.len() ==> out@[i].0.0 < out@[j].0.0,
                forall|i: int| 0 <= i < out@.len() ==> (#[trigger] out@[i].0.0) < id,
                forall|i: int|
                    0 <= i < out@.len() ==> self.clients().contains_key(#[trigger] out@[i].0.0)
                        && out@[i].1 == self.clients()[out@[i].0.0],
                forall|k: u16|
                    k < id && self.clients().contains_key(k) ==> exists|i: int|
                        0 <= i < out@.len() && (#[trigger] out@[i].0.0) == k,
            decreases 65536 - id,
        {
            let key = id as u16;
            match self.clients_data.get(&key) {
                Option::Some(cs) => {
                    let ghost prev = out@;
                    out.push((ClientId(key), *cs));
                    assert(out@[out@.len() - 1].0.0 == key);
                    assert(forall|i: int|
                        0 <= i < prev.len() ==> out@[i] == #[trigger] prev[i]);
                },
                Option::None => {},
            }
            id += 1;
        }
        out
    }
}

/// A deposit that succeeds increases `available` by exactly the parsed
/// amount and never touches `held` or the frozen mark.
pub proof fn lemma_deposit_effect(
    clients: Map<u16, ClientState>,
    txs: Map<u32, TransactionInfo>,
    r: Record,
    a: i64,
)
    requires
        r.record_type == RecordType::Deposit,
        !account_or_new(clients, r.client_id).is_frozen,
        spec_amount(r.amount) == Ok::<i64, ApplyError>(a),
        in_i64(account_or_new(clients, r.client_id).balances.available.0 + a),
    ensures
        ({
            let cs = account_or_new(clients, r.client_id);
            let (cm, tm, res) = spec_apply(clients, txs, r);
            res == Ok::<(), ApplyError>(()) && cm[r.client_id].balances.available.0
                == cs.balances.available.0 + a && cm[r.client_id].balances.held
                == cs.balances.held && cm[r.client_id].is_frozen == cs.is_frozen && tm
                == txs.insert(
                r.transaction_id,
                TransactionInfo { amount: Centicents(a), is_disputed: false },
            )
        }),
{
}

/// A withdrawal debits `available` exactly when `available` covers the
/// parsed amount, and otherwise leaves every balance alone; either way the
/// transaction is recorded and `held` never moves.
pub proof fn lemma_withdrawal_effect(
    clients: Map<u16, ClientState>,
    txs: Map<u32, TransactionInfo>,
    r: Record,
    a: i64,
)
    requires
        r.record_type == RecordType::Withdrawal,
        !account_or_new(clients, r.client_id).is_frozen,
        spec_amount(r.amount) == Ok::<i64, ApplyError>(a),
    ensures
        ({
            let cs = account_or_new(clients, r.client_id);
            let (cm, tm, res) = spec_apply(clients, txs, r);
            res == Ok::<(), ApplyError>(()) && cm[r.client_id].balances.available.0 == (
            if cs.balances.available.0 >= a {
                cs.balances.available.0 - a
            } else {
                cs.balances.available.0 as int
            }) && cm[r.client_id].balances.held == cs.balances.held && tm == txs.insert(
                r.transaction_id,
                TransactionInfo { amount: Centicents(a), is_disputed: false },
            )
        }),
{
    if let Option::Some(s) = r.amount {
        crate::types::lemma_parse_nonneg(s@);
    }
}

/// A dispute moves exactly the recorded amount from `available` to `held`,
/// so the sum of the two balances does not move.
pub proof fn lemma_dispute_conserves_sum(
    clients: Map<u16, ClientState>,
    txs: Map<u32, TransactionInfo>,
    r: Record,
)
    requires
        r.record_type == RecordType::Dispute,
        !account_or_new(clients, r.client_id).is_frozen,
        txs.contains_key(r.transaction_id),
        in_i64(
            account_or_new(clients, r.client_id).balances.available.0
                - txs[r.transaction_id].amount.0,
        ),
        in_i64(
            account_or_new(clients, r.client_id).balances.held.0 + txs[r.transaction_id].amount.0,
        ),
    ensures
        ({
            let cs = account_or_new(clients, r.client_id);
            let amt = txs[r.transaction_id].amount.0;
            let (cm, tm, res) = spec_apply(clients, txs, r);
            res == Ok::<(), ApplyError>(()) && cm[r.client_id].balances.available.0
                == cs.balances.available.0 - amt && cm[r.client_id].balances.held.0
                == cs.balances.held.0 + amt && cm[r.client_id].balances.available.0
                + cm[r.client_id].balances.held.0 == cs.balances.available.0 + cs.balances.held.0
                && tm[r.transaction_id].is_disputed && tm[r.transaction_id].amount
                == txs[r.transaction_id].amount
        }),
{
}

/// A resolve exactly reverses the dispute raised before it: the balances
/// return to what they were, and the transaction is marked undisputed.
pub proof fn lemma_resolve_reverses_dispute(
    clients: Map<u16, ClientState>,
    txs: Map<u32, TransactionInfo>,
    dispute: Record,
    resolve: Record,
)
    requires
        dispute.record_type == RecordType::Dispute,
        resolve.record_type == RecordType::Resolve,
        dispute.client_id == resolve.client_id,
        dispute.transaction_id == resolve.transaction_id,
        !account_or_new(clients, dispute.client_id).is_frozen,
        txs.contains_key(dispute.transaction_id),
        in_i64(
            account_or_new(clients, dispute.client_id).balances.available.0
                - txs[dispute.transaction_id].amount.0,
        ),
        in_i64(
            account_or_new(clients, dispute.client_id).balances.held.0
                + txs[dispute.transaction_id].amount.0,
        ),
    ensures
        ({
            let (c1, t1, r1) = spec_apply(clients, txs, dispute);
            let (c2, t2, r2) = spec_apply(c1, t1, resolve);
            r1 == Ok::<(), ApplyError>(()) && r2 == Ok::<(), ApplyError>(()) && c2
                == clients.insert(
                dispute.client_id,
                account_or_new(clients, dispute.client_id),
            ) && t2 == txs.insert(
                dispute.transaction_id,
                TransactionInfo { amount: txs[dispute.transaction_id].amount, is_disputed: false },
            )
        }),
{
    let (c1, t1, r1) = spec_apply(clients, txs, dispute);
    let (c2, t2, r2) = spec_apply(c1, t1, resolve);
    assert(c2 =~= clients.insert(dispute.client_id, account_or_new(clients, dispute.client_id)));
    assert(t2 =~= txs.insert(
        dispute.transaction_id,
        TransactionInfo { amount: txs[dispute.transaction_id].amount, is_disputed: false },
    ));
}

/// A frozen account is terminal: a record for that client changes nothing
/// and is no error, and no record for any client moves that account.
pub proof fn lemma_frozen_is_terminal(
    clients: Map<u16, ClientState>,
    txs: Map<u32, TransactionInfo>,
    r: Record,
    c: u16,
)
    requires
        clients.contains_key(c),
        clients[c].is_frozen,
    ensures
        ({
            let (cm, tm, res) = spec_apply(clients, txs, r);
            account_or_new(cm, c) == clients[c] && (r.client_id == c ==> cm == clients && tm
                == txs && res == Ok::<(), ApplyError>(()))
        }),
{
}

/// A dispute, resolve or chargeback that names an unknown transaction id
/// never errs and moves no account and no transaction.
pub proof fn lemma_unknown_transaction_is_noop(
    clients: Map<u16, ClientState>,
    txs: Map<u32, TransactionInfo>,
    r: Record,
)
    requires
        r.record_type == RecordType::Dispute || r.record_type == RecordType::Resolve
            || r.record_type == RecordType::Chargeback,
        !txs.contains_key(r.transaction_id),
    ensures
        ({
            let (cm, tm, res) = spec_apply(clients, txs, r);
            res == Ok::<(), ApplyError>(()) && tm == txs && forall|k: u16|
                #[trigger] account_or_new(cm, k) == account_or_new(clients, k)
        }),
{
}

} // verus!
