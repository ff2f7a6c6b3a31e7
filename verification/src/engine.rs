//! The transaction processor: routes each record to its account, resolves
//! dispute references against history, and emits the final summaries.

use crate::client::{Client, ClientInfo};
use crate::error::Error;
use crate::model::{
    Account, Ledger, Outcome, Record, account_wf, fresh_account, get_account, has_entry, has_tx,
    ledger_wf, lemma_kinds_distinct, lemma_step_preserves_wf, lemma_with_account_wf, outcome_of,
    read_step, run, run_overflows, run_read, run_stop_state, step, step_overflows, total_of,
    valid_record, with_account,
};
use crate::transaction::{TransactionInfo, TransactionType};
use std::collections::HashMap;
use vstd::prelude::*;

verus! {

broadcast use vstd::std_specs::hash::group_hash_axioms;

/// The ledger as a whole: the history of accepted deposits and
/// withdrawals keyed by transaction id, the account registry keyed by
/// client id, and the order in which accounts were first referenced.
pub struct Engine {
    pub transactions: HashMap<u32, TransactionInfo>,
    pub clients: HashMap<u16, ClientInfo>,
    pub client_order: Vec<u16>,
}

impl View for Engine {
    type V = Ledger;

    open spec fn view(&self) -> Ledger {
        Ledger {
            txs: self.transactions@.map_values(|t: TransactionInfo| t@),
            accounts: self.clients@.map_values(|c: ClientInfo| c@),
            order: self.client_order@,
        }
    }
}

impl Engine {
    /// Valid engine state: the ledger model is well formed and every
    /// account's derived total fits the fixed-point range.
    pub open spec fn inv(&self) -> bool {
        &&& ledger_wf(self@)
        &&& forall|c: u16| #[trigger] self@.accounts.contains_key(c) ==> total_of(
            self@.accounts[c],
        ) <= i64::MAX as int
    }

    /// The record sequence a vector of transactions stands for.
    pub open spec fn views_of(s: Seq<TransactionInfo>) -> Seq<Record> {
        s.map_values(|t: TransactionInfo| t@)
    }

    /// Every record of the vector carries a valid (nonnegative) amount.
    pub open spec fn all_valid(s: Seq<TransactionInfo>) -> bool {
        forall|i: int| 0 <= i < s.len() ==> valid_record((#[trigger] s[i])@)
    }

    /// Create the account for this client if it does not exist yet.
    fn ensure_client(&mut self, id: u16)
        requires
            old(self).inv(),
        ensures
            final(self).inv(),
            final(self)@ == with_account(old(self)@, id),
    {
        proof {
            lemma_with_account_wf(old(self)@, id);
        }
        if !self.clients.contains_key(&id) {
            let c = ClientInfo::new(id);
            self.clients.insert(id, c);
            self.client_order.push(id);
            proof {
                assert(self@.accounts =~= with_account(old(self)@, id).accounts);
                assert(self@ =~= with_account(old(self)@, id));
                assert forall|c2: u16| #[trigger] self@.accounts.contains_key(c2) implies total_of(
                    self@.accounts[c2],
                ) <= i64::MAX as int by {
                    if c2 != id {
                        assert(self@.accounts[c2] == old(self)@.accounts[c2]);
                    } else {
                        assert(self@.accounts[c2] == fresh_account(id));
                    }
                }
            }
        } else {
            proof {
                assert(self@ =~= with_account(old(self)@, id));
            }
        }
    }

    /// Apply one deposit or withdrawal: reject a duplicate id, apply the
    /// balance effect, and on success record the transaction in history.
    fn apply_fundflow(&mut self, t: &TransactionInfo, amount: i64, is_deposit: bool) -> (r: Result<
        (),
        Error,
    >)
        requires
            old(self).inv(),
            valid_record(t@),
            is_deposit ==> t@.kind == "deposit"@,
            !is_deposit ==> t@.kind == "withdrawal"@,
            t@.amount == Some(amount as int),
        ensures
            final(self).inv(),
            (r == Err::<(), Error>(Error::AmountOverflow)) == step_overflows(old(self)@, t@),
            !step_overflows(old(self)@, t@) ==> final(self)@ == step(old(self)@, t@).0
                && outcome_of(r) == step(old(self)@, t@).1,
            step_overflows(old(self)@, t@) ==> final(self)@ == old(self)@,
            (r matches Err(Error::TransactionAlreadyProcessed(x)) ==> x == t.tx),
            !(r matches Err(Error::UnknownTransactionType(_))),
    {
        proof {
            lemma_kinds_distinct();
        }
        let ghost m0 = self@;
        if self.transactions.contains_key(&t.tx) {
            return Err(Error::TransactionAlreadyProcessed(t.tx));
        }
        let (mut c, existed): (ClientInfo, bool) = match self.clients.remove(&t.client) {
            Some(c) => (c, true),
            None => (ClientInfo::new(t.client), false),
        };
        proof {
            if existed {
                assert(crate::model::account_ok(m0, t.client));
            }
            assert(c@ == get_account(m0, t.client));
        }
        let res = if is_deposit {
            c.deposit(amount)
        } else {
            c.withdraw(amount)
        };
        match res {
            Ok(()) => {
                self.clients.insert(t.client, c);
                if !existed {
                    self.client_order.push(t.client);
                }
                let t2 = t.duplicate();
                self.transactions.insert(t.tx, t2);
                proof {
                    lemma_with_account_wf(m0, t.client);
                    let m1 = with_account(m0, t.client);
                    assert(self@.txs =~= m1.txs.insert(t.tx, t@));
                    assert(self@.accounts =~= m1.accounts.insert(t.client, c@));
                    assert(self@.order == m1.order);
                    assert(self@ =~= step(m0, t@).0);
                    lemma_step_preserves_wf(m0, t@);
                    assert forall|c2: u16| #[trigger] self@.accounts.contains_key(
                        c2,
                    ) implies total_of(self@.accounts[c2]) <= i64::MAX as int by {
                        if c2 != t.client {
                            assert(self@.accounts[c2] == m0.accounts[c2]);
                        }
                    }
                }
                Ok(())
            },
            Err(e) => {
                if existed {
                    self.clients.insert(t.client, c);
                }
                proof {
                    assert(self@.accounts =~= m0.accounts);
                    assert(self@ =~= m0);
                }
                Err(e)
            },
        }
    }

    /// Apply one dispute or resolve: a reference to an id that is not in
    /// history, or whose transaction belongs to another client, is
    /// silently ignored; otherwise the account applies the effect with
    /// the historical amount.
    fn apply_reference(&mut self, t: &TransactionInfo, kind: TransactionType) -> (r: Result<
        (),
        Error,
    >)
        requires
            old(self).inv(),
            valid_record(t@),
            kind matches TransactionType::Dispute ==> t@.kind == "dispute"@,
            kind matches TransactionType::Resolve ==> t@.kind == "resolve"@,
            kind matches TransactionType::Dispute || kind matches TransactionType::Resolve,
        ensures
            final(self).inv(),
            (r == Err::<(), Error>(Error::AmountOverflow)) == step_overflows(old(self)@, t@),
            !step_overflows(old(self)@, t@) ==> final(self)@ == step(old(self)@, t@).0
                && outcome_of(r) == step(old(self)@, t@).1,
            step_overflows(old(self)@, t@) ==> final(self)@ == old(self)@,
            !(r matches Err(Error::UnknownTransactionType(_))),
            !(r matches Err(Error::TransactionAlreadyProcessed(_))),
    {
        proof {
            lemma_kinds_distinct();
        }
        let ghost m0 = self@;
        let hist = self.transactions.get(&t.tx);
        match hist {
            None => {
                self.ensure_client(t.client);
                Ok(())
            },
            Some(h) => {
                let h_client: u16 = h.client;
                let h_amount: Option<i64> = h.amount;
                proof {
                    assert(m0.txs[t.tx] == h@);
                    assert(crate::model::entry_ok(m0, t.tx));
                }
                if h_client != t.client {
                    self.ensure_client(t.client);
                    Ok(())
                } else {
                    let amt: i64 = match h_amount {
                        Some(a) => a,
                        None => {
                            proof {
                                assert(false);
                            }
                            0
                        },
                    };
                    proof {
                        assert(amt as int == crate::model::amount_of(m0.txs[t.tx]));
                        assert(m0.accounts.contains_key(t.client));
                        assert(crate::model::account_ok(m0, t.client));
                    }
                    let mut c: ClientInfo = match self.clients.remove(&t.client) {
                        Some(c) => c,
                        None => {
                            proof {
                                assert(false);
                            }
                            ClientInfo::new(t.client)
                        },
                    };
                    let ghost acct = m0.accounts[t.client];
                    proof {
                        assert(c@ == acct);
                    }
                    let res = c.dispute_or_resolve(&kind, t.tx, amt);
                    self.clients.insert(t.client, c);
                    proof {
                        assert(self@.accounts =~= m0.accounts.insert(t.client, c@));
                        assert(self@.txs == m0.txs);
                        assert(self@.order == m0.order);
                        if c@ == acct {
                            assert(m0.accounts.insert(t.client, c@) =~= m0.accounts);
                            assert(self@ =~= m0);
                        } else {
                            assert(self@ =~= Ledger {
                                accounts: m0.accounts.insert(t.client, c@),
                                ..m0
                            });
                        }
                        if res is Ok {
                            lemma_step_preserves_wf(m0, t@);
                            assert(step(m0, t@).0 == self@);
                        }
                        assert forall|c2: u16| #[trigger] self@.accounts.contains_key(
                            c2,
                        ) implies total_of(self@.accounts[c2]) <= i64::MAX as int by {
                            if c2 != t.client {
                                assert(self@.accounts[c2] == m0.accounts[c2]);
                            } else {
                                assert(total_of(c@) <= total_of(acct));
                            }
                        }
                    }
                    match res {
                        Ok(()) => Ok(()),
                        Err(e) => Err(e),
                    }
                }
            },
        }
    }

    /// Apply one chargeback: a reference to an id that is not in history
    /// is a hard failure; otherwise the account applies the effect with
    /// the historical amount, which is a no-op unless that transaction is
    /// under dispute with that amount.
    fn apply_chargeback(&mut self, t: &TransactionInfo) -> (r: Result<(), Error>)
        requires
            old(self).inv(),
            valid_record(t@),
            t@.kind == "chargeback"@,
        ensures
            final(self).inv(),
            (r == Err::<(), Error>(Error::AmountOverflow)) == step_overflows(old(self)@, t@),
            !step_overflows(old(self)@, t@) ==> final(self)@ == step(old(self)@, t@).0
                && outcome_of(r) == step(old(self)@, t@).1,
            !(r matches Err(Error::UnknownTransactionType(_))),
            !(r matches Err(Error::TransactionAlreadyProcessed(_))),
    {
        proof {
            lemma_kinds_distinct();
        }
        let ghost m0 = self@;
        let hist = self.transactions.get(&t.tx);
        match hist {
            None => Err(Error::UnableToProcessTransaction),
            Some(h) => {
                let h_amount: Option<i64> = h.amount;
                proof {
                    assert(m0.txs[t.tx] == h@);
                    assert(crate::model::entry_ok(m0, t.tx));
                }
                let amt: i64 = match h_amount {
                    Some(a) => a,
                    None => {
                        proof {
                            assert(false);
                        }
                        0
                    },
                };
                let (mut c, existed): (ClientInfo, bool) = match self.clients.remove(&t.client) {
                    Some(c) => (c, true),
                    None => (ClientInfo::new(t.client), false),
                };
                let ghost acct = get_account(m0, t.client);
                proof {
                    if existed {
                        assert(crate::model::account_ok(m0, t.client));
                    }
                    assert(c@ == acct);
                    assert(amt as int == crate::model::amount_of(m0.txs[t.tx]));
                }
                let res = c.chargeback(t.tx, amt);
                self.clients.insert(t.client, c);
                if !existed {
                    self.client_order.push(t.client);
                }
                proof {
                    lemma_with_account_wf(m0, t.client);
                    let m1 = with_account(m0, t.client);
                    assert(self@.accounts =~= m1.accounts.insert(t.client, c@));
                    assert(self@.txs == m1.txs);
                    assert(self@.order == m1.order);
                    if has_entry(acct.disputed, t.tx, amt as int) {
                        assert(existed) by {
                            if !existed {
                                assert(acct == fresh_account(t.client));
                            }
                        }
                        assert(m1 == m0);
                        assert(self@ =~= step(m0, t@).0);
                    } else {
                        assert(c@ == acct);
                        assert(m1.accounts.insert(t.client, c@) =~= m1.accounts);
                        assert(self@ =~= m1);
                    }
                    lemma_step_preserves_wf(m0, t@);
                    assert forall|c2: u16| #[trigger] self@.accounts.contains_key(
                        c2,
                    ) implies total_of(self@.accounts[c2]) <= i64::MAX as int by {
                        if c2 != t.client {
                            assert(self@.accounts[c2] == m0.accounts[c2]);
                        } else {
                            assert(total_of(c@) <= total_of(acct));
                        }
                    }
                }
                match res {
                    Ok(()) => Ok(()),
                    Err(e) => {
                        proof {
                            assert(false);
                        }
                        Err(e)
                    },
                }
            },
        }
    }

    /// Process one transaction record, as `step` describes: classify it,
    /// route it to its account (created lazily), resolve any reference
    /// against history, and apply the effect. A fatal outcome leaves the
    /// whole engine unchanged; an update that would leave the fixed-point
    /// range fails with `AmountOverflow`, likewise without effect.
    pub fn process(&mut self, t: &TransactionInfo) -> (r: Result<(), Error>)
        requires
            old(self).inv(),
            valid_record(t@),
        ensures
            final(self).inv(),
            (r == Err::<(), Error>(Error::AmountOverflow)) == step_overflows(old(self)@, t@),
            !step_overflows(old(self)@, t@) ==> final(self)@ == step(old(self)@, t@).0
                && outcome_of(r) == step(old(self)@, t@).1,
            step_overflows(old(self)@, t@) ==> final(self)@ == old(self)@,
            (r matches Err(Error::UnknownTransactionType(s)) ==> s@ == t.tx_type@),
            (r matches Err(Error::TransactionAlreadyProcessed(x)) ==> x == t.tx),
    {
        proof {
            lemma_kinds_distinct();
        }
        let kind = match TransactionType::try_from(t.tx_type.as_str(), t.amount) {
            Ok(k) => k,
            Err(e) => {
                return Err(e);
            },
        };
        match kind {
            TransactionType::Deposit(a) => self.apply_fundflow(t, a, true),
            TransactionType::Withdrawal(a) => self.apply_fundflow(t, a, false),
            TransactionType::Dispute => self.apply_reference(t, TransactionType::Dispute),
            TransactionType::Resolve => self.apply_reference(t, TransactionType::Resolve),
            TransactionType::Chargeback => self.apply_chargeback(t),
        }
    }

    /// Process a whole record stream in arrival order, stopping at the
    /// first fatal outcome, as `run` describes. On an error the run is
    /// aborted and no summary should be emitted.
    pub fn stream(&mut self, records: &Vec<TransactionInfo>) -> (r: Result<(), Error>)
        requires
            old(self).inv(),
            Engine::all_valid(records@),
        ensures
            final(self).inv(),
            (r == Err::<(), Error>(Error::AmountOverflow)) == run_overflows(
                old(self)@,
                Engine::views_of(records@),
            ),
            !run_overflows(old(self)@, Engine::views_of(records@)) ==> final(self)@ == run(
                old(self)@,
                Engine::views_of(records@),
            ).0 && outcome_of(r) == run(old(self)@, Engine::views_of(records@)).1,
            final(self)@ == run_stop_state(old(self)@, Engine::views_of(records@)),
            (r matches Err(Error::TransactionAlreadyProcessed(x)) ==> exists|k: int|
                0 <= k < records@.len() && (#[trigger] records@[k]).tx == x),
            (r matches Err(Error::UnknownTransactionType(s)) ==> exists|k: int|
                0 <= k < records@.len() && s@ == (#[trigger] records@[k]).tx_type@),
    {
        let ghost m0 = self@;
        let ghost views = Engine::views_of(records@);
        proof {
            assert(views.skip(0) =~= views);
        }
        let mut i: usize = 0;
        while i < records.len()
            invariant
                self.inv(),
                i <= records@.len(),
                Engine::all_valid(records@),
                m0 == old(self)@,
                views == Engine::views_of(records@),
                run(m0, views) == run(self@, views.skip(i as int)),
                run_overflows(m0, views) == run_overflows(self@, views.skip(i as int)),
                run_stop_state(m0, views) == run_stop_state(self@, views.skip(i as int)),
            decreases records@.len() - i,
        {
            let ghost m_here = self@;
            let ghost rest = views.skip(i as int);
            proof {
                assert(records@[i as int]@ == views[i as int]);
                assert(rest[0] == views[i as int]);
                assert(rest.drop_first() =~= views.skip(i as int + 1));
            }
            let res = self.process(&records[i]);
            let ghost o = outcome_of(res);
            match res {
                Ok(()) => {
                    proof {
                        assert(run(m_here, rest) == run(self@, rest.drop_first()));
                        assert(run_overflows(m_here, rest) == run_overflows(
                            self@,
                            rest.drop_first(),
                        ));
                        assert(run_stop_state(m_here, rest) == run_stop_state(
                            self@,
                            rest.drop_first(),
                        ));
                    }
                    i = i + 1;
                },
                Err(e) => {
                    proof {
                        if step_overflows(m_here, rest[0]) {
                            assert(run_overflows(m_here, rest));
                            assert(run_stop_state(m_here, rest) == m_here);
                        } else {
                            assert(o != Outcome::Accepted);
                            assert(run(m_here, rest) == (step(m_here, rest[0]).0, o));
                            assert(!run_overflows(m_here, rest));
                        }
                        assert(e matches Error::TransactionAlreadyProcessed(x) ==> records@[
                            i as int
                        ].tx == x);
                        assert(e matches Error::UnknownTransactionType(s) ==> s@ == records@[
                            i as int
                        ].tx_type@);
                    }
                    return Err(e);
                },
            }
        }
        proof {
            assert(views.skip(records@.len() as int) =~= Seq::<Record>::empty());
        }
        Ok(())
    }

    /// Validate a whole record stream in arrival order, as `run_read`
    /// describes: reject unknown transaction types and duplicate or
    /// amount-less deposits and withdrawals, registering clients and
    /// history entries but applying no balance effect.
    pub fn read(&mut self, records: &Vec<TransactionInfo>) -> (r: Result<(), Error>)
        requires
            old(self).inv(),
            Engine::all_valid(records@),
        ensures
            final(self).inv(),
            final(self)@ == run_read(old(self)@, Engine::views_of(records@)).0,
            outcome_of(r) == run_read(old(self)@, Engine::views_of(records@)).1,
            (r matches Err(Error::UnknownTransactionType(s)) ==> exists|i: int|
                0 <= i < records@.len() && s@ == (#[trigger] records@[i]).tx_type@),
            (r matches Err(Error::TransactionAlreadyProcessed(x)) ==> exists|i: int|
                0 <= i < records@.len() && (#[trigger] records@[i]).tx == x),
    {
        let ghost m0 = self@;
        let ghost views = Engine::views_of(records@);
        proof {
            assert(views.skip(0) =~= views);
        }
        let mut i: usize = 0;
        while i < records.len()
            invariant
                self.inv(),
                i <= records@.len(),
                Engine::all_valid(records@),
                m0 == old(self)@,
                views == Engine::views_of(records@),
                run_read(m0, views) == run_read(self@, views.skip(i as int)),
            decreases records@.len() - i,
        {
            let ghost m_here = self@;
            let ghost rest = views.skip(i as int);
            proof {
                lemma_kinds_distinct();
                assert(records@[i as int]@ == views[i as int]);
                assert(rest[0] == views[i as int]);
                assert(rest.drop_first() =~= views.skip(i as int + 1));
            }
            let res = self.read_one(&records[i]);
            let ghost o = outcome_of(res);
            match res {
                Ok(()) => {
                    proof {
                        assert(run_read(m_here, rest) == run_read(self@, rest.drop_first()));
                    }
                    i = i + 1;
                },
                Err(e) => {
                    proof {
                        assert(o != Outcome::Accepted);
                        assert(run_read(m_here, rest) == (read_step(m_here, rest[0]).0, o));
                        assert(e matches Error::UnknownTransactionType(s) ==> s@ == records@[
                            i as int
                        ].tx_type@);
                        assert(e matches Error::TransactionAlreadyProcessed(x) ==> records@[
                            i as int
                        ].tx == x);
                    }
                    return Err(e);
                },
            }
        }
        proof {
            assert(views.skip(records@.len() as int) =~= Seq::<Record>::empty());
        }
        Ok(())
    }

    /// One step of the validation pass, as `read_step` describes.
    fn read_one(&mut self, t: &TransactionInfo) -> (r: Result<(), Error>)
        requires
            old(self).inv(),
            valid_record(t@),
        ensures
            final(self).inv(),
            final(self)@ == read_step(old(self)@, t@).0,
            outcome_of(r) == read_step(old(self)@, t@).1,
            (r matches Err(Error::UnknownTransactionType(s)) ==> s@ == t.tx_type@),
            (r matches Err(Error::TransactionAlreadyProcessed(x)) ==> x == t.tx),
    {
        proof {
            lemma_kinds_distinct();
        }
        let ghost m0 = self@;
        let kind = match TransactionType::try_from(t.tx_type.as_str(), t.amount) {
            Ok(k) => k,
            Err(e) => {
                return Err(e);
            },
        };
        match kind {
            TransactionType::Deposit(_) | TransactionType::Withdrawal(_) => {
                if self.transactions.contains_key(&t.tx) {
                    return Err(Error::TransactionAlreadyProcessed(t.tx));
                }
                self.ensure_client(t.client);
                let ghost m1 = with_account(m0, t.client);
                let t2 = t.duplicate();
                self.transactions.insert(t.tx, t2);
                proof {
                    lemma_with_account_wf(m0, t.client);
                    assert(self@.txs =~= m1.txs.insert(t.tx, t@));
                    assert(self@ =~= read_step(m0, t@).0);
                    crate::model::lemma_insert_entry_wf(m1, t@);
                    assert forall|c2: u16| #[trigger] self@.accounts.contains_key(
                        c2,
                    ) implies total_of(self@.accounts[c2]) <= i64::MAX as int by {
                        if c2 != t.client {
                            assert(self@.accounts[c2] == m0.accounts[c2]);
                        } else {
                            assert(self@.accounts[c2] == m1.accounts[c2]);
                        }
                    }
                }
                Ok(())
            },
            _ => {
                self.ensure_client(t.client);
                Ok(())
            },
        }
    }

    /// The final account summaries, one per account, in the order the
    /// accounts were first referenced.
    pub fn write(&self) -> (r: Vec<Client>)
        requires
            self.inv(),
        ensures
            r@.len() == self@.order.len(),
            forall|i: int|
                0 <= i < r@.len() ==> {
                    let a = self@.accounts[self@.order[i]];
                    &&& (#[trigger] r@[i]).client == self@.order[i]
                    &&& r@[i].available == a.available
                    &&& r@[i].held == a.held
                    &&& r@[i].total == total_of(a)
                    &&& r@[i].locked == a.locked
                },
    {
        let mut out: Vec<Client> = Vec::new();
        let mut i: usize = 0;
        while i < self.client_order.len()
            invariant
                self.inv(),
                i <= self@.order.len(),
                out@.len() == i,
                forall|k: int|
                    0 <= k < i ==> {
                        let a = self@.accounts[self@.order[k]];
                        &&& (#[trigger] out@[k]).client == self@.order[k]
                        &&& out@[k].available == a.available
                        &&& out@[k].held == a.held
                        &&& out@[k].total == total_of(a)
                        &&& out@[k].locked == a.locked
                    },
            decreases self@.order.len() - i,
        {
            let id = self.client_order[i];
            let info = match self.clients.get(&id) {
                Some(info) => info,
                None => {
                    proof {
                        assert(self@.accounts.contains_key(id));
                        assert(false);
                    }
                    return out;
                },
            };
            proof {
                assert(self@.accounts.contains_key(id));
                assert(info@ == self@.accounts[id]);
                assert(crate::model::account_ok(self@, id));
            }
            let row = Client::from(info);
            out.push(row);
            i = i + 1;
        }
        out
    }
}

impl Default for Engine {
    /// A new engine: no history, no accounts.
    fn default() -> (r: Engine)
        ensures
            r.inv(),
            r@.txs == Map::<u32, Record>::empty(),
            r@.accounts == Map::<u16, Account>::empty(),
            r@.order == Seq::<u16>::empty(),
    {
        let r = Engine {
            transactions: HashMap::new(),
            clients: HashMap::new(),
            client_order: Vec::new(),
        };
        proof {
            assert(r@.txs =~= Map::<u32, Record>::empty());
            assert(r@.accounts =~= Map::<u16, Account>::empty());
        }
        r
    }
}

} // verus!
