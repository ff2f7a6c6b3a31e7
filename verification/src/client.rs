//! Per-client account state and the single-transaction effects on it.

use crate::error::Error;
use crate::model::{
    Account, after_chargeback, after_deposit, after_dispute, after_resolve, after_withdraw,
    account_wf, fresh_account, has_entry, has_tx, lemma_remove_disputed, lemma_sum_at_least,
    lemma_sum_nonneg, lemma_sum_push, sum_amounts, total_of, tx_index, unique_txs,
};
use crate::transaction::TransactionType;
use vstd::prelude::*;

verus! {

/// The funds of one account, in fixed-point minor units. The total is
/// never stored: it is always derived as available plus held.
pub struct ClientFunds {
    pub available: i64,
    pub held: i64,
}

/// The state kept for one client: balances, the lock flag, and the
/// transactions currently under dispute, each with its disputed amount.
pub struct ClientInfo {
    pub id: u16,
    pub funds: ClientFunds,
    pub locked: bool,
    pub disputed_funds: Vec<(u32, i64)>,
}

/// The summary row written for one account at the end of a run: a
/// read-only projection of a `ClientInfo` with the derived total.
pub struct Client {
    pub client: u16,
    pub available: i64,
    pub held: i64,
    pub total: i64,
    pub locked: bool,
}

impl View for ClientInfo {
    type V = Account;

    open spec fn view(&self) -> Account {
        Account {
            id: self.id,
            available: self.funds.available as int,
            held: self.funds.held as int,
            locked: self.locked,
            disputed: self.disputed_funds@.map_values(|p: (u32, i64)| (p.0, p.1 as int)),
        }
    }
}

/// The index of the first entry with this transaction id, if any.
fn find_disputed(v: &Vec<(u32, i64)>, tx: u32) -> (r: Option<usize>)
    ensures
        match r {
            Some(i) => 0 <= i < v@.len() && v@[i as int].0 == tx,
            None => forall|k: int| 0 <= k < v@.len() ==> (#[trigger] v@[k]).0 != tx,
        },
{
    let mut i: usize = 0;
    while i < v.len()
        invariant
            i <= v@.len(),
            forall|k: int| 0 <= k < i ==> (#[trigger] v@[k]).0 != tx,
        decreases v@.len() - i,
    {
        if v[i].0 == tx {
            return Some(i);
        }
        i = i + 1;
    }
    None
}

impl ClientInfo {
    /// Valid account state: the model invariant holds of the view and the
    /// derived total fits the fixed-point range.
    pub open spec fn inv(&self) -> bool {
        &&& account_wf(self@)
        &&& total_of(self@) <= i64::MAX as int
    }

    /// A new account: zero balances, unlocked, nothing disputed.
    pub fn new(id: u16) -> (r: Self)
        ensures
            r.inv(),
            r@ == fresh_account(id),
    {
        let r = ClientInfo {
            id,
            funds: ClientFunds { available: 0, held: 0 },
            locked: false,
            disputed_funds: Vec::new(),
        };
        proof {
            assert(r@.disputed =~= Seq::<(u32, int)>::empty());
            assert(sum_amounts(Seq::<(u32, int)>::empty()) == 0);
            assert(r@ =~= fresh_account(id));
        }
        r
    }

    /// A deposit: adds the amount to the available funds. Fails on a
    /// locked account, or when the new total would not be representable.
    pub fn deposit(&mut self, amount: i64) -> (r: Result<(), Error>)
        requires
            old(self).inv(),
            0 <= amount,
        ensures
            final(self).inv(),
            old(self)@.locked ==> r == Err::<(), Error>(Error::AccountLocked) && final(self)@
                == old(self)@,
            !old(self)@.locked && total_of(old(self)@) + amount > i64::MAX ==> r == Err::<
                (),
                Error,
            >(Error::AmountOverflow) && final(self)@ == old(self)@,
            !old(self)@.locked && total_of(old(self)@) + amount <= i64::MAX ==> r == Ok::<
                (),
                Error,
            >(()) && final(self)@ == after_deposit(old(self)@, amount as int),
    {
        if self.locked {
            return Err(Error::AccountLocked);
        }
        proof {
            lemma_sum_nonneg(self@.disputed);
        }
        let total: i64 = self.funds.available + self.funds.held;
        if total >= 0 && amount > i64::MAX - total {
            return Err(Error::AmountOverflow);
        }
        self.funds.available = self.funds.available + amount;
        proof {
            assert(self@ =~= after_deposit(old(self)@, amount as int));
        }
        Ok(())
    }

    /// A withdrawal: takes the amount from the available funds. Fails on
    /// a locked account, or when the available funds fall short (an exact
    /// match succeeds: the whole balance may be withdrawn).
    pub fn withdraw(&mut self, amount: i64) -> (r: Result<(), Error>)
        requires
            old(self).inv(),
            0 <= amount,
        ensures
            final(self).inv(),
            old(self)@.locked ==> r == Err::<(), Error>(Error::AccountLocked) && final(self)@
                == old(self)@,
            !old(self)@.locked && old(self)@.available < amount ==> r == Err::<(), Error>(
                Error::InsufficientFunds,
            ) && final(self)@ == old(self)@,
            !old(self)@.locked && old(self)@.available >= amount ==> r == Ok::<(), Error>(())
                && final(self)@ == after_withdraw(old(self)@, amount as int),
    {
        if self.locked {
            return Err(Error::AccountLocked);
        }
        if self.funds.available < amount {
            return Err(Error::InsufficientFunds);
        }
        self.funds.available = self.funds.available - amount;
        proof {
            assert(self@ =~= after_withdraw(old(self)@, amount as int));
        }
        Ok(())
    }

    /// A dispute or a resolve against this account, with the amount the
    /// referenced transaction was recorded with.
    ///
    /// A dispute moves the amount from available to held and records the
    /// transaction as disputed; one already under dispute is rejected. A
    /// resolve moves the amount back and closes the dispute; a resolve
    /// whose id and amount match no open dispute changes nothing. Any
    /// other transaction type is rejected. A locked account still accepts
    /// both operations.
    pub fn dispute_or_resolve(
        &mut self,
        t_type: &TransactionType,
        t_id: u32,
        amount: i64,
    ) -> (r: Result<(), Error>)
        requires
            old(self).inv(),
            0 <= amount,
        ensures
            final(self).inv(),
            (match t_type {
                TransactionType::Dispute => {
                    if has_tx(old(self)@.disputed, t_id) {
                        r == Err::<(), Error>(Error::AlreadyDisputed) && final(self)@ == old(
                            self,
                        )@
                    } else if old(self)@.held + amount > i64::MAX || old(self)@.available - amount
                        < i64::MIN {
                        r == Err::<(), Error>(Error::AmountOverflow) && final(self)@ == old(self)@
                    } else {
                        r == Ok::<(), Error>(()) && final(self)@ == after_dispute(
                            old(self)@,
                            t_id,
                            amount as int,
                        )
                    }
                },
                TransactionType::Resolve => {
                    if has_entry(old(self)@.disputed, t_id, amount as int) {
                        r == Ok::<(), Error>(()) && final(self)@ == after_resolve(
                            old(self)@,
                            t_id,
                            amount as int,
                        )
                    } else {
                        r == Ok::<(), Error>(()) && final(self)@ == old(self)@
                    }
                },
                _ => r == Err::<(), Error>(Error::UnknownDisputeOrResolutionType) && final(self)@
                    == old(self)@,
            }),
    {
        match t_type {
            TransactionType::Dispute => {
                match find_disputed(&self.disputed_funds, t_id) {
                    Some(i) => {
                        proof {
                            assert(old(self)@.disputed[i as int].0 == t_id);
                        }
                        Err(Error::AlreadyDisputed)
                    },
                    None => {
                        proof {
                            assert(forall|k: int|
                                0 <= k < old(self)@.disputed.len() ==> (#[trigger] old(
                                    self,
                                )@.disputed[k]).0 != t_id);
                        }
                        if self.funds.held > i64::MAX - amount {
                            return Err(Error::AmountOverflow);
                        }
                        if self.funds.available < i64::MIN + amount {
                            return Err(Error::AmountOverflow);
                        }
                        self.funds.available = self.funds.available - amount;
                        self.funds.held = self.funds.held + amount;
                        self.disputed_funds.push((t_id, amount));
                        proof {
                            assert(self@.disputed =~= old(self)@.disputed.push(
                                (t_id, amount as int),
                            ));
                            lemma_sum_push(old(self)@.disputed, (t_id, amount as int));
                            assert(self@ =~= after_dispute(old(self)@, t_id, amount as int));
                        }
                        Ok(())
                    },
                }
            },
            TransactionType::Resolve => {
                match find_disputed(&self.disputed_funds, t_id) {
                    None => {
                        proof {
                            assert(!has_entry(old(self)@.disputed, t_id, amount as int)) by {
                                if has_entry(old(self)@.disputed, t_id, amount as int) {
                                    let s = old(self)@.disputed;
                                    let k = choose|k: int|
                                        0 <= k < s.len() && s[k] == (t_id, amount as int);
                                    assert((#[trigger] old(self)@.disputed[k]).0 == t_id);
                                }
                            }
                        }
                        Ok(())
                    },
                    Some(i) => {
                        if self.disputed_funds[i].1 != amount {
                            proof {
                                assert(!has_entry(old(self)@.disputed, t_id, amount as int)) by {
                                    if has_entry(old(self)@.disputed, t_id, amount as int) {
                                        let s = old(self)@.disputed;
                                        let k = choose|k: int|
                                            0 <= k < s.len() && s[k] == (t_id, amount as int);
                                        assert(s[k].0 == t_id && s[i as int].0 == t_id);
                                        assert(k == i as int);
                                    }
                                }
                            }
                            Ok(())
                        } else {
                            proof {
                                let s = old(self)@.disputed;
                                assert(s[i as int] == (t_id, amount as int));
                                assert(has_entry(s, t_id, amount as int));
                                lemma_sum_at_least(s, i as int);
                                assert(tx_index(s, t_id) == i as int) by {
                                    assert(has_tx(s, t_id));
                                    let j = tx_index(s, t_id);
                                    assert(0 <= j < s.len() && s[j].0 == t_id);
                                }
                            }
                            self.funds.available = self.funds.available + amount;
                            self.funds.held = self.funds.held - amount;
                            self.disputed_funds.remove(i);
                            proof {
                                let s = old(self)@.disputed;
                                s.remove_ensures(i as int);
                                old(self).disputed_funds@.remove_ensures(i as int);
                                assert(self@.disputed =~= s.remove(i as int));
                                lemma_remove_disputed(s, i as int);
                                assert(self@ =~= after_resolve(old(self)@, t_id, amount as int));
                            }
                            Ok(())
                        }
                    },
                }
            },
            _ => Err(Error::UnknownDisputeOrResolutionType),
        }
    }

    /// A chargeback against this account, with the amount the referenced
    /// transaction was recorded with. When the id and amount match an
    /// open dispute, the held amount is withdrawn for good, the dispute
    /// is closed, and the account is frozen; otherwise nothing changes.
    pub fn chargeback(&mut self, t_id: u32, amount: i64) -> (r: Result<(), Error>)
        requires
            old(self).inv(),
            0 <= amount,
        ensures
            final(self).inv(),
            r == Ok::<(), Error>(()),
            has_entry(old(self)@.disputed, t_id, amount as int) ==> final(self)@
                == after_chargeback(old(self)@, t_id, amount as int),
            !has_entry(old(self)@.disputed, t_id, amount as int) ==> final(self)@ == old(self)@,
    {
        match find_disputed(&self.disputed_funds, t_id) {
            None => {
                proof {
                    assert(!has_entry(old(self)@.disputed, t_id, amount as int)) by {
                        if has_entry(old(self)@.disputed, t_id, amount as int) {
                            let s = old(self)@.disputed;
                            let k = choose|k: int| 0 <= k < s.len() && s[k] == (t_id, amount as int);
                            assert((#[trigger] old(self)@.disputed[k]).0 == t_id);
                        }
                    }
                }
                Ok(())
            },
            Some(i) => {
                if self.disputed_funds[i].1 != amount {
                    proof {
                        assert(!has_entry(old(self)@.disputed, t_id, amount as int)) by {
                            if has_entry(old(self)@.disputed, t_id, amount as int) {
                                let s = old(self)@.disputed;
                                let k = choose|k: int|
                                    0 <= k < s.len() && s[k] == (t_id, amount as int);
                                assert(s[k].0 == t_id && s[i as int].0 == t_id);
                                assert(k == i as int);
                            }
                        }
                    }
                    Ok(())
                } else {
                    proof {
                        let s = old(self)@.disputed;
                        assert(s[i as int] == (t_id, amount as int));
                        assert(has_entry(s, t_id, amount as int));
                        lemma_sum_at_least(s, i as int);
                        assert(tx_index(s, t_id) == i as int) by {
                            assert(has_tx(s, t_id));
                            let j = tx_index(s, t_id);
                            assert(0 <= j < s.len() && s[j].0 == t_id);
                        }
                    }
                    self.locked = true;
                    self.funds.held = self.funds.held - amount;
                    self.disputed_funds.remove(i);
                    proof {
                        let s = old(self)@.disputed;
                        s.remove_ensures(i as int);
                        old(self).disputed_funds@.remove_ensures(i as int);
                        assert(self@.disputed =~= s.remove(i as int));
                        lemma_remove_disputed(s, i as int);
                        assert(self@ =~= after_chargeback(old(self)@, t_id, amount as int));
                    }
                    Ok(())
                }
            },
        }
    }

    /// The derived total: available plus held funds.
    fn get_total(&self) -> (r: i64)
        requires
            self.inv(),
        ensures
            r == total_of(self@),
    {
        proof {
            lemma_sum_nonneg(self@.disputed);
        }
        self.funds.available + self.funds.held
    }
}

impl Client {
    /// The summary row for one account: the balances as they stand, the
    /// total derived as available plus held, and the lock flag.
    pub fn from(info: &ClientInfo) -> (r: Client)
        requires
            info.inv(),
        ensures
            r.client == info@.id,
            r.available == info@.available,
            r.held == info@.held,
            r.total == total_of(info@),
            r.locked == info@.locked,
    {
        Client {
            client: info.id,
            available: info.funds.available,
            held: info.funds.held,
            total: info.get_total(),
            locked: info.locked,
        }
    }
}

} // verus!
