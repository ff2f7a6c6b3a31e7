//! Mathematical model of the ledger: ghost state, the transition function
//! `step`, and the laws proved about it.

use crate::error::Error;
use vstd::prelude::*;

verus! {

broadcast use vstd::string::group_string_axioms;

/// One parsed input record as the model sees it: the transaction kind as a
/// character sequence, the target client, the transaction id, and the amount
/// in fixed-point minor units (absent for dispute, resolve and chargeback).
#[verifier::ext_equal]
pub ghost struct Record {
    pub kind: Seq<char>,
    pub client: u16,
    pub tx: u32,
    pub amount: Option<int>,
}

/// One account of the ledger model: balances in minor units, the lock flag,
/// and the transactions currently under dispute, each with the amount that
/// was moved to `held` when its dispute was opened.
#[verifier::ext_equal]
pub ghost struct Account {
    pub id: u16,
    pub available: int,
    pub held: int,
    pub locked: bool,
    pub disputed: Seq<(u32, int)>,
}

/// The whole ledger model: the immutable transaction history, the account
/// registry, and the order in which accounts were first referenced.
#[verifier::ext_equal]
pub ghost struct Ledger {
    pub txs: Map<u32, Record>,
    pub accounts: Map<u16, Account>,
    pub order: Seq<u16>,
}

/// How one step of the ledger ends. `Accepted` covers both an applied
/// effect and a silently ignored dispute/resolve reference.
pub ghost enum Outcome {
    Accepted,
    UnknownType,
    MissingAmount,
    Duplicate,
    Locked,
    ShortFunds,
    NoSuchTransaction,
    AlreadyDisputed,
    WrongKind,
    Overflow,
}

/// A record is valid when its amount, if present, is nonnegative.
pub open spec fn valid_record(t: Record) -> bool {
    t.amount matches Some(a) ==> a >= 0
}

/// The five recognized transaction kinds.
pub open spec fn known_kind(k: Seq<char>) -> bool {
    ||| k == "deposit"@
    ||| k == "withdrawal"@
    ||| k == "dispute"@
    ||| k == "resolve"@
    ||| k == "chargeback"@
}

/// Sum of the disputed amounts of a dispute list.
pub open spec fn sum_amounts(s: Seq<(u32, int)>) -> int
    decreases s.len(),
{
    if s.len() == 0 {
        0
    } else {
        s[0].1 + sum_amounts(s.drop_first())
    }
}

/// No transaction id occurs twice in a dispute list.
pub open spec fn unique_txs(s: Seq<(u32, int)>) -> bool {
    forall|i: int, j: int| 0 <= i < j < s.len() ==> s[i].0 != s[j].0
}

/// Some entry of the dispute list carries this transaction id.
pub open spec fn has_tx(s: Seq<(u32, int)>, tx: u32) -> bool {
    exists|i: int| 0 <= i < s.len() && s[i].0 == tx
}

/// Some entry of the dispute list is exactly this id with this amount.
pub open spec fn has_entry(s: Seq<(u32, int)>, tx: u32, amount: int) -> bool {
    exists|i: int| 0 <= i < s.len() && s[i] == (tx, amount)
}

/// The index of the entry carrying this transaction id.
pub open spec fn tx_index(s: Seq<(u32, int)>, tx: u32) -> int {
    choose|i: int| 0 <= i < s.len() && s[i].0 == tx
}

/// A freshly created account: zero balances, unlocked, nothing disputed.
pub open spec fn fresh_account(id: u16) -> Account {
    Account { id, available: 0, held: 0, locked: false, disputed: Seq::empty() }
}

/// Total funds of an account: always derived, never stored.
pub open spec fn total_of(a: Account) -> int {
    a.available + a.held
}

/// Per-account well-formedness: disputed ids are unique, disputed amounts
/// are nonnegative, and `held` is exactly the sum of the disputed amounts.
pub open spec fn account_wf(a: Account) -> bool {
    &&& unique_txs(a.disputed)
    &&& forall|i: int| 0 <= i < a.disputed.len() ==> #[trigger] a.disputed[i].1 >= 0
    &&& a.held == sum_amounts(a.disputed)
}

/// Account after a deposit: `amount` is added to the available funds.
pub open spec fn after_deposit(a: Account, amount: int) -> Account {
    Account { available: a.available + amount, ..a }
}

/// Account after a withdrawal: `amount` is taken from the available funds.
pub open spec fn after_withdraw(a: Account, amount: int) -> Account {
    Account { available: a.available - amount, ..a }
}

/// Account after a dispute is opened: `amount` moves from available to
/// held, and the transaction is recorded as disputed.
pub open spec fn after_dispute(a: Account, tx: u32, amount: int) -> Account {
    Account {
        available: a.available - amount,
        held: a.held + amount,
        disputed: a.disputed.push((tx, amount)),
        ..a
    }
}

/// Account after a dispute is resolved: `amount` moves back from held to
/// available, and the transaction is no longer disputed.
pub open spec fn after_resolve(a: Account, tx: u32, amount: int) -> Account {
    Account {
        available: a.available + amount,
        held: a.held - amount,
        disputed: a.disputed.remove(tx_index(a.disputed, tx)),
        ..a
    }
}

/// Account after a chargeback: the held amount is withdrawn for good, the
/// dispute is closed, and the account is frozen.
pub open spec fn after_chargeback(a: Account, tx: u32, amount: int) -> Account {
    Account {
        held: a.held - amount,
        locked: true,
        disputed: a.disputed.remove(tx_index(a.disputed, tx)),
        ..a
    }
}

/// The account of `c`, or a fresh one if `c` was never referenced.
pub open spec fn get_account(m: Ledger, c: u16) -> Account {
    if m.accounts.contains_key(c) {
        m.accounts[c]
    } else {
        fresh_account(c)
    }
}

/// The ledger with an account for `c`, created now if it did not exist.
pub open spec fn with_account(m: Ledger, c: u16) -> Ledger {
    if m.accounts.contains_key(c) {
        m
    } else {
        Ledger {
            accounts: m.accounts.insert(c, fresh_account(c)),
            order: m.order.push(c),
            ..m
        }
    }
}

/// A history entry is sound: keyed by its own id, carries a nonnegative
/// amount, and its client has an account.
pub open spec fn entry_ok(m: Ledger, t: u32) -> bool {
    &&& m.txs[t].tx == t
    &&& m.txs[t].amount matches Some(a) && a >= 0
    &&& m.accounts.contains_key(m.txs[t].client)
}

/// An account of the registry is sound: keyed by its own id, well formed,
/// and every disputed entry points at a history entry of this client whose
/// recorded amount is the disputed amount.
pub open spec fn account_ok(m: Ledger, c: u16) -> bool {
    &&& m.accounts[c].id == c
    &&& account_wf(m.accounts[c])
    &&& forall|i: int|
        0 <= i < m.accounts[c].disputed.len() ==> {
            let e = #[trigger] m.accounts[c].disputed[i];
            &&& m.txs.contains_key(e.0)
            &&& m.txs[e.0].client == c
            &&& m.txs[e.0].amount == Some(e.1)
        }
}

/// Well-formedness of the whole ledger.
pub open spec fn ledger_wf(m: Ledger) -> bool {
    &&& forall|c: u16| #[trigger] m.accounts.contains_key(c) ==> account_ok(m, c)
    &&& forall|t: u32| #[trigger] m.txs.contains_key(t) ==> entry_ok(m, t)
    &&& m.order.no_duplicates()
    &&& forall|c: u16| #[trigger] m.accounts.contains_key(c) ==> m.order.contains(c)
    &&& forall|i: int| 0 <= i < m.order.len() ==> m.accounts.contains_key(#[trigger] m.order[i])
}

/// The amount of a record, as an integer; meaningful only when present.
pub open spec fn amount_of(t: Record) -> int {
    match t.amount {
        Some(a) => a,
        None => 0,
    }
}

/// One step of the ledger: the state after one record, and its outcome.
///
/// A fatal outcome leaves the ledger unchanged. A silently ignored
/// dispute or resolve reference still creates the target account, as the
/// account registry is consulted before the reference is resolved.
pub open spec fn step(m: Ledger, t: Record) -> (Ledger, Outcome) {
    if t.kind == "deposit"@ || t.kind == "withdrawal"@ {
        match t.amount {
            None => (m, Outcome::MissingAmount),
            Some(a) => {
                if m.txs.contains_key(t.tx) {
                    (m, Outcome::Duplicate)
                } else {
                    let acct = get_account(m, t.client);
                    if acct.locked {
                        (m, Outcome::Locked)
                    } else if t.kind == "withdrawal"@ && acct.available < a {
                        (m, Outcome::ShortFunds)
                    } else {
                        let acct2 = if t.kind == "deposit"@ {
                            after_deposit(acct, a)
                        } else {
                            after_withdraw(acct, a)
                        };
                        let m1 = with_account(m, t.client);
                        (
                            Ledger {
                                txs: m1.txs.insert(t.tx, t),
                                accounts: m1.accounts.insert(t.client, acct2),
                                order: m1.order,
                            },
                            Outcome::Accepted,
                        )
                    }
                }
            },
        }
    } else if t.kind == "dispute"@ || t.kind == "resolve"@ {
        if !m.txs.contains_key(t.tx) {
            (with_account(m, t.client), Outcome::Accepted)
        } else if m.txs[t.tx].client != t.client {
            (with_account(m, t.client), Outcome::Accepted)
        } else {
            let amt = amount_of(m.txs[t.tx]);
            let acct = get_account(m, t.client);
            if t.kind == "dispute"@ {
                if has_tx(acct.disputed, t.tx) {
                    (m, Outcome::AlreadyDisputed)
                } else {
                    (
                        Ledger {
                            accounts: m.accounts.insert(t.client, after_dispute(acct, t.tx, amt)),
                            ..m
                        },
                        Outcome::Accepted,
                    )
                }
            } else {
                if has_entry(acct.disputed, t.tx, amt) {
                    (
                        Ledger {
                            accounts: m.accounts.insert(t.client, after_resolve(acct, t.tx, amt)),
                            ..m
                        },
                        Outcome::Accepted,
                    )
                } else {
                    (m, Outcome::Accepted)
                }
            }
        }
    } else if t.kind == "chargeback"@ {
        if !m.txs.contains_key(t.tx) {
            (m, Outcome::NoSuchTransaction)
        } else {
            let amt = amount_of(m.txs[t.tx]);
            let acct = get_account(m, t.client);
            if has_entry(acct.disputed, t.tx, amt) {
                (
                    Ledger {
                        accounts: m.accounts.insert(t.client, after_chargeback(acct, t.tx, amt)),
                        ..m
                    },
                    Outcome::Accepted,
                )
            } else {
                (with_account(m, t.client), Outcome::Accepted)
            }
        }
    } else {
        (m, Outcome::UnknownType)
    }
}

/// Whether applying this record would push a stored balance outside the
/// fixed-point range. The model itself computes with unbounded integers;
/// the executable ledger refuses exactly these steps.
pub open spec fn step_overflows(m: Ledger, t: Record) -> bool {
    if t.kind == "deposit"@ {
        match t.amount {
            None => false,
            Some(a) => {
                let acct = get_account(m, t.client);
                &&& !m.txs.contains_key(t.tx)
                &&& !acct.locked
                &&& total_of(acct) + a > i64::MAX
            },
        }
    } else if t.kind == "dispute"@ {
        if !m.txs.contains_key(t.tx) || m.txs[t.tx].client != t.client {
            false
        } else {
            let amt = amount_of(m.txs[t.tx]);
            let acct = get_account(m, t.client);
            &&& !has_tx(acct.disputed, t.tx)
            &&& (acct.held + amt > i64::MAX || acct.available - amt < i64::MIN)
        }
    } else {
        false
    }
}

/// The ledger after a whole record sequence, stopping at the first fatal
/// outcome, with that outcome.
pub open spec fn run(m: Ledger, s: Seq<Record>) -> (Ledger, Outcome)
    decreases s.len(),
{
    if s.len() == 0 {
        (m, Outcome::Accepted)
    } else {
        let (m1, o) = step(m, s[0]);
        if o != Outcome::Accepted {
            (m1, o)
        } else {
            run(m1, s.drop_first())
        }
    }
}

/// Whether a run over this record sequence hits a balance outside the
/// fixed-point range before any earlier fatal outcome stops it.
pub open spec fn run_overflows(m: Ledger, s: Seq<Record>) -> bool
    decreases s.len(),
{
    if s.len() == 0 {
        false
    } else if step_overflows(m, s[0]) {
        true
    } else {
        step(m, s[0]).1 == Outcome::Accepted && run_overflows(step(m, s[0]).0, s.drop_first())
    }
}

/// The state a run has reached when it stops: at the first record whose
/// update would leave the fixed-point range, at the first fatal outcome,
/// or at the end of the sequence.
pub open spec fn run_stop_state(m: Ledger, s: Seq<Record>) -> Ledger
    decreases s.len(),
{
    if s.len() == 0 {
        m
    } else if step_overflows(m, s[0]) {
        m
    } else {
        let (m1, o) = step(m, s[0]);
        if o != Outcome::Accepted {
            m1
        } else {
            run_stop_state(m1, s.drop_first())
        }
    }
}

/// One step of the validation pass: classify the record, reject duplicate
/// or amount-less deposits and withdrawals, and register clients and
/// history entries, without touching any balance.
pub open spec fn read_step(m: Ledger, t: Record) -> (Ledger, Outcome) {
    if t.kind == "deposit"@ || t.kind == "withdrawal"@ {
        match t.amount {
            None => (m, Outcome::MissingAmount),
            Some(a) => {
                if m.txs.contains_key(t.tx) {
                    (m, Outcome::Duplicate)
                } else {
                    let m1 = with_account(m, t.client);
                    (Ledger { txs: m1.txs.insert(t.tx, t), ..m1 }, Outcome::Accepted)
                }
            },
        }
    } else if known_kind(t.kind) {
        (with_account(m, t.client), Outcome::Accepted)
    } else {
        (m, Outcome::UnknownType)
    }
}

/// The validation pass over a whole record sequence.
pub open spec fn run_read(m: Ledger, s: Seq<Record>) -> (Ledger, Outcome)
    decreases s.len(),
{
    if s.len() == 0 {
        (m, Outcome::Accepted)
    } else {
        let (m1, o) = read_step(m, s[0]);
        if o != Outcome::Accepted {
            (m1, o)
        } else {
            run_read(m1, s.drop_first())
        }
    }
}

/// Pushing an entry grows the sum by that entry's amount.
pub proof fn lemma_sum_push(s: Seq<(u32, int)>, e: (u32, int))
    ensures
        sum_amounts(s.push(e)) == sum_amounts(s) + e.1,
    decreases s.len(),
{
    assert(s.push(e).len() == s.len() + 1);
    assert(sum_amounts(s.push(e)) == s.push(e)[0].1 + sum_amounts(s.push(e).drop_first()));
    if s.len() == 0 {
        assert(s.push(e).drop_first() =~= Seq::<(u32, int)>::empty());
        assert(s.push(e)[0] == e);
        assert(sum_amounts(Seq::<(u32, int)>::empty()) == 0);
    } else {
        assert(s.push(e).drop_first() =~= s.drop_first().push(e));
        lemma_sum_push(s.drop_first(), e);
        assert(s.push(e)[0] == s[0]);
        assert(sum_amounts(s) == s[0].1 + sum_amounts(s.drop_first()));
    }
}

/// Removing an entry shrinks the sum by that entry's amount.
pub proof fn lemma_sum_remove(s: Seq<(u32, int)>, i: int)
    requires
        0 <= i < s.len(),
    ensures
        sum_amounts(s.remove(i)) == sum_amounts(s) - s[i].1,
    decreases s.len(),
{
    if i == 0 {
        assert(s.remove(0) =~= s.drop_first());
    } else {
        assert(s.remove(i).drop_first() =~= s.drop_first().remove(i - 1));
        lemma_sum_remove(s.drop_first(), i - 1);
        assert(s.remove(i)[0] == s[0]);
        assert(s.drop_first()[i - 1] == s[i]);
    }
}

/// A sum of nonnegative amounts is nonnegative.
pub proof fn lemma_sum_nonneg(s: Seq<(u32, int)>)
    requires
        forall|i: int| 0 <= i < s.len() ==> #[trigger] s[i].1 >= 0,
    ensures
        sum_amounts(s) >= 0,
    decreases s.len(),
{
    if s.len() > 0 {
        assert forall|i: int| 0 <= i < s.drop_first().len() implies #[trigger] s.drop_first()[i].1
            >= 0 by {
            assert(s.drop_first()[i] == s[i + 1]);
        }
        lemma_sum_nonneg(s.drop_first());
        assert(s[0].1 >= 0);
    }
}

/// In a list of nonnegative amounts, no single entry exceeds the sum.
pub proof fn lemma_sum_at_least(s: Seq<(u32, int)>, i: int)
    requires
        forall|k: int| 0 <= k < s.len() ==> #[trigger] s[k].1 >= 0,
        0 <= i < s.len(),
    ensures
        s[i].1 <= sum_amounts(s),
{
    lemma_sum_remove(s, i);
    s.remove_ensures(i);
    assert forall|k: int| 0 <= k < s.remove(i).len() implies #[trigger] s.remove(i)[k].1 >= 0 by {
        if k < i {
            assert(s.remove(i)[k] == s[k]);
        } else {
            assert(s.remove(i)[k] == s[k + 1]);
        }
    }
    lemma_sum_nonneg(s.remove(i));
}

/// Removing one entry from a unique, nonnegative dispute list keeps it
/// unique and nonnegative, and shrinks the sum by that entry's amount.
pub proof fn lemma_remove_disputed(s: Seq<(u32, int)>, i: int)
    requires
        unique_txs(s),
        forall|k: int| 0 <= k < s.len() ==> #[trigger] s[k].1 >= 0,
        0 <= i < s.len(),
    ensures
        unique_txs(s.remove(i)),
        forall|k: int| 0 <= k < s.remove(i).len() ==> #[trigger] s.remove(i)[k].1 >= 0,
        sum_amounts(s.remove(i)) == sum_amounts(s) - s[i].1,
{
    s.remove_ensures(i);
    let s2 = s.remove(i);
    assert forall|a: int, b: int| 0 <= a < b < s2.len() implies s2[a].0 != s2[b].0 by {
        let a1: int = if a < i {
            a
        } else {
            a + 1
        };
        let b1: int = if b < i {
            b
        } else {
            b + 1
        };
        assert(s2[a] == s[a1]);
        assert(s2[b] == s[b1]);
    }
    assert forall|k: int| 0 <= k < s2.len() implies #[trigger] s2[k].1 >= 0 by {
        if k < i {
            assert(s2[k] == s[k]);
        } else {
            assert(s2[k] == s[k + 1]);
        }
    }
    lemma_sum_remove(s, i);
}

/// Replacing one existing account with a well-formed account whose
/// disputed entries stay coupled to history preserves well-formedness.
pub proof fn lemma_update_account_wf(m: Ledger, c: u16, acct2: Account)
    requires
        ledger_wf(m),
        m.accounts.contains_key(c),
        acct2.id == c,
        account_wf(acct2),
        forall|i: int|
            0 <= i < acct2.disputed.len() ==> {
                let e = #[trigger] acct2.disputed[i];
                &&& m.txs.contains_key(e.0)
                &&& m.txs[e.0].client == c
                &&& m.txs[e.0].amount == Some(e.1)
            },
    ensures
        ledger_wf(Ledger { accounts: m.accounts.insert(c, acct2), ..m }),
{
    let m2 = Ledger { accounts: m.accounts.insert(c, acct2), ..m };
    assert forall|c2: u16| #[trigger] m2.accounts.contains_key(c2) implies account_ok(m2, c2) by {
        if c2 == c {
            assert(m2.accounts[c2] == acct2);
        } else {
            assert(account_ok(m, c2));
            assert(m2.accounts[c2] == m.accounts[c2]);
            assert forall|i: int| 0 <= i < m2.accounts[c2].disputed.len() implies {
                let e = #[trigger] m2.accounts[c2].disputed[i];
                &&& m2.txs.contains_key(e.0)
                &&& m2.txs[e.0].client == c2
                &&& m2.txs[e.0].amount == Some(e.1)
            } by {
                assert(m2.accounts[c2].disputed[i] == m.accounts[c2].disputed[i]);
            }
        }
    }
    assert forall|t2: u32| #[trigger] m2.txs.contains_key(t2) implies entry_ok(m2, t2) by {
        assert(entry_ok(m, t2));
    }
    assert forall|c2: u16| #[trigger] m2.accounts.contains_key(c2) implies m2.order.contains(
        c2,
    ) by {
        assert(m.accounts.contains_key(c2));
    }
    assert forall|i: int| 0 <= i < m2.order.len() implies m2.accounts.contains_key(
        #[trigger] m2.order[i],
    ) by {
        assert(m.accounts.contains_key(m.order[i]));
    }
}

/// Recording one new history entry preserves well-formedness, provided
/// the entry carries a nonnegative amount and its client has an account.
pub proof fn lemma_insert_entry_wf(m: Ledger, t: Record)
    requires
        ledger_wf(m),
        !m.txs.contains_key(t.tx),
        t.amount matches Some(a) && a >= 0,
        m.accounts.contains_key(t.client),
    ensures
        ledger_wf(Ledger { txs: m.txs.insert(t.tx, t), ..m }),
{
    let m2 = Ledger { txs: m.txs.insert(t.tx, t), ..m };
    assert forall|c2: u16| #[trigger] m2.accounts.contains_key(c2) implies account_ok(m2, c2) by {
        assert(account_ok(m, c2));
        assert forall|i: int| 0 <= i < m2.accounts[c2].disputed.len() implies {
            let e = #[trigger] m2.accounts[c2].disputed[i];
            &&& m2.txs.contains_key(e.0)
            &&& m2.txs[e.0].client == c2
            &&& m2.txs[e.0].amount == Some(e.1)
        } by {
            let e = m.accounts[c2].disputed[i];
            assert(m2.accounts[c2].disputed[i] == e);
            assert(m.txs.contains_key(e.0));
            assert(e.0 != t.tx);
            assert(m2.txs[e.0] == m.txs[e.0]);
        }
    }
    assert forall|t2: u32| #[trigger] m2.txs.contains_key(t2) implies entry_ok(m2, t2) by {
        if t2 == t.tx {
            assert(m2.txs[t2] == t);
        } else {
            assert(entry_ok(m, t2));
            assert(m2.txs[t2] == m.txs[t2]);
        }
    }
}

/// The account read by `get_account` is well formed and coupled to the
/// ledger's history.
pub proof fn lemma_get_account_ok(m: Ledger, c: u16)
    requires
        ledger_wf(m),
    ensures
        account_wf(get_account(m, c)),
        get_account(m, c).id == c,
        forall|i: int|
            0 <= i < get_account(m, c).disputed.len() ==> {
                let e = #[trigger] get_account(m, c).disputed[i];
                &&& m.txs.contains_key(e.0)
                &&& m.txs[e.0].client == c
                &&& m.txs[e.0].amount == Some(e.1)
            },
{
    if m.accounts.contains_key(c) {
        assert(account_ok(m, c));
    } else {
        assert(sum_amounts(Seq::<(u32, int)>::empty()) == 0);
    }
}

/// Creating a missing account preserves well-formedness, and the new
/// registry holds the old accounts unchanged plus at most a fresh one.
pub proof fn lemma_with_account_wf(m: Ledger, c: u16)
    requires
        ledger_wf(m),
    ensures
        ledger_wf(with_account(m, c)),
        with_account(m, c).txs == m.txs,
        with_account(m, c).accounts.contains_key(c),
        with_account(m, c).accounts == m.accounts.insert(c, get_account(m, c)),
{
    let m1 = with_account(m, c);
    if m.accounts.contains_key(c) {
        assert(m1.accounts =~= m.accounts.insert(c, get_account(m, c)));
    } else {
        assert(sum_amounts(Seq::<(u32, int)>::empty()) == 0);
        assert(account_ok(m1, c));
        assert forall|c2: u16| #[trigger] m1.accounts.contains_key(c2) implies account_ok(
            m1,
            c2,
        ) by {
            if c2 != c {
                assert(account_ok(m, c2));
            }
        }
        assert forall|t: u32| #[trigger] m1.txs.contains_key(t) implies entry_ok(m1, t) by {
            assert(entry_ok(m, t));
        }
        assert forall|c2: u16| #[trigger] m1.accounts.contains_key(c2) implies m1.order.contains(
            c2,
        ) by {
            if c2 == c {
                assert(m1.order[m.order.len() as int] == c);
            } else {
                let i = choose|i: int| 0 <= i < m.order.len() && m.order[i] == c2;
                assert(m1.order[i] == c2);
            }
        }
        assert forall|i: int| 0 <= i < m1.order.len() implies m1.accounts.contains_key(
            #[trigger] m1.order[i],
        ) by {
            if i < m.order.len() {
                assert(m1.order[i] == m.order[i]);
            }
        }
        assert(!m.order.contains(c));
        assert(m1.order.no_duplicates());
    }
}

/// The outcome that one processing result stands for.
pub open spec fn outcome_of(r: Result<(), Error>) -> Outcome {
    match r {
        Ok(()) => Outcome::Accepted,
        Err(Error::UnknownTransactionType(_)) => Outcome::UnknownType,
        Err(Error::AmountMissing) => Outcome::MissingAmount,
        Err(Error::TransactionAlreadyProcessed(_)) => Outcome::Duplicate,
        Err(Error::AccountLocked) => Outcome::Locked,
        Err(Error::InsufficientFunds) => Outcome::ShortFunds,
        Err(Error::UnableToProcessTransaction) => Outcome::NoSuchTransaction,
        Err(Error::AlreadyDisputed) => Outcome::AlreadyDisputed,
        Err(Error::UnknownDisputeOrResolutionType) => Outcome::WrongKind,
        Err(Error::AmountOverflow) => Outcome::Overflow,
    }
}

/// The five transaction kinds are pairwise distinct character sequences.
pub proof fn lemma_kinds_distinct()
    ensures
        "deposit"@ != "withdrawal"@,
        "deposit"@ != "dispute"@,
        "deposit"@ != "resolve"@,
        "deposit"@ != "chargeback"@,
        "withdrawal"@ != "dispute"@,
        "withdrawal"@ != "resolve"@,
        "withdrawal"@ != "chargeback"@,
        "dispute"@ != "resolve"@,
        "dispute"@ != "chargeback"@,
        "resolve"@ != "chargeback"@,
{
    reveal_strlit("deposit");
    reveal_strlit("withdrawal");
    reveal_strlit("dispute");
    reveal_strlit("resolve");
    reveal_strlit("chargeback");
    assert("deposit"@.len() == 7);
    assert("withdrawal"@.len() == 10);
    assert("dispute"@.len() == 7);
    assert("resolve"@.len() == 7);
    assert("chargeback"@.len() == 10);
    assert("deposit"@[1] == 'e' && "dispute"@[1] == 'i');
    assert("deposit"@[0] == 'd' && "resolve"@[0] == 'r');
    assert("withdrawal"@[0] == 'w' && "chargeback"@[0] == 'c');
}

/// Closing the dispute at the entry `(tx, amount)` leaves a dispute list
/// that is still unique, nonnegative, coupled to history, and whose sum
/// is the old held funds less the closed amount.
proof fn lemma_close_dispute_list(m: Ledger, c: u16, tx: u32, amount: int)
    requires
        ledger_wf(m),
        m.accounts.contains_key(c),
        has_entry(m.accounts[c].disputed, tx, amount),
    ensures
        ({
            let s = m.accounts[c].disputed;
            let idx = tx_index(s, tx);
            &&& 0 <= idx < s.len()
            &&& s[idx] == (tx, amount)
            &&& unique_txs(s.remove(idx))
            &&& forall|i: int| 0 <= i < s.remove(idx).len() ==> #[trigger] s.remove(idx)[i].1 >= 0
            &&& sum_amounts(s.remove(idx)) == m.accounts[c].held - amount
            &&& forall|i: int|
                0 <= i < s.remove(idx).len() ==> {
                    let e = #[trigger] s.remove(idx)[i];
                    &&& m.txs.contains_key(e.0)
                    &&& m.txs[e.0].client == c
                    &&& m.txs[e.0].amount == Some(e.1)
                }
        }),
{
    assert(account_ok(m, c));
    let s = m.accounts[c].disputed;
    let i0 = choose|i: int| 0 <= i < s.len() && s[i] == (tx, amount);
    assert(s[i0].0 == tx);
    assert(has_tx(s, tx));
    let idx = tx_index(s, tx);
    assert(0 <= idx < s.len() && s[idx].0 == tx);
    assert(s[idx] == (tx, amount));
    s.remove_ensures(idx);
    let s2 = s.remove(idx);
    assert forall|i: int, j: int| 0 <= i < j < s2.len() implies s2[i].0 != s2[j].0 by {
        let i1: int = if i < idx {
            i
        } else {
            i + 1
        };
        let j1: int = if j < idx {
            j
        } else {
            j + 1
        };
        assert(s2[i] == s[i1]);
        assert(s2[j] == s[j1]);
    }
    assert forall|i: int| 0 <= i < s2.len() implies {
        let e = #[trigger] s2[i];
        &&& e.1 >= 0
        &&& m.txs.contains_key(e.0)
        &&& m.txs[e.0].client == c
        &&& m.txs[e.0].amount == Some(e.1)
    } by {
        let i1: int = if i < idx {
            i
        } else {
            i + 1
        };
        assert(s2[i] == s[i1]);
        assert(s[i1].1 >= 0);
    }
    lemma_sum_remove(s, idx);
}

/// Law: every step of the ledger preserves well-formedness. In
/// particular, after any transaction each account's held funds are still
/// exactly the sum of its disputed amounts, so the derived total is
/// exactly available plus held at every point.
pub proof fn lemma_step_preserves_wf(m: Ledger, t: Record)
    requires
        ledger_wf(m),
        valid_record(t),
    ensures
        ledger_wf(step(m, t).0),
{
    if t.kind == "deposit"@ || t.kind == "withdrawal"@ {
        match t.amount {
            None => {},
            Some(a) => {
                if !m.txs.contains_key(t.tx) {
                    let acct = get_account(m, t.client);
                    if !acct.locked && !(t.kind == "withdrawal"@ && acct.available < a) {
                        let acct2 = if t.kind == "deposit"@ {
                            after_deposit(acct, a)
                        } else {
                            after_withdraw(acct, a)
                        };
                        lemma_get_account_ok(m, t.client);
                        lemma_with_account_wf(m, t.client);
                        let ma = with_account(m, t.client);
                        assert(ma.accounts[t.client] == acct);
                        assert(acct2.disputed == acct.disputed);
                        assert forall|i: int| 0 <= i < acct2.disputed.len() implies {
                            let e = #[trigger] acct2.disputed[i];
                            &&& ma.txs.contains_key(e.0)
                            &&& ma.txs[e.0].client == t.client
                            &&& ma.txs[e.0].amount == Some(e.1)
                        } by {
                            assert(acct2.disputed[i] == acct.disputed[i]);
                        }
                        lemma_update_account_wf(ma, t.client, acct2);
                        let mb = Ledger { accounts: ma.accounts.insert(t.client, acct2), ..ma };
                        assert(mb.accounts.contains_key(t.client));
                        lemma_insert_entry_wf(mb, t);
                        assert(step(m, t).0 == Ledger { txs: mb.txs.insert(t.tx, t), ..mb });
                    }
                }
            },
        }
    } else if t.kind == "dispute"@ || t.kind == "resolve"@ {
        if !m.txs.contains_key(t.tx) {
            lemma_with_account_wf(m, t.client);
        } else if m.txs[t.tx].client != t.client {
            lemma_with_account_wf(m, t.client);
        } else {
            assert(entry_ok(m, t.tx));
            assert(m.accounts.contains_key(t.client));
            let amt = amount_of(m.txs[t.tx]);
            assert(m.txs[t.tx].amount == Some(amt) && amt >= 0);
            let acct = get_account(m, t.client);
            assert(acct == m.accounts[t.client]);
            assert(account_ok(m, t.client));
            if t.kind == "dispute"@ {
                if !has_tx(acct.disputed, t.tx) {
                    let acct2 = after_dispute(acct, t.tx, amt);
                    let s2 = acct2.disputed;
                    assert forall|i: int, j: int| 0 <= i < j < s2.len() implies s2[i].0
                        != s2[j].0 by {
                        if j == s2.len() - 1 {
                            assert(s2[i] == acct.disputed[i]);
                            assert(s2[j] == (t.tx, amt));
                        } else {
                            assert(s2[i] == acct.disputed[i]);
                            assert(s2[j] == acct.disputed[j]);
                        }
                    }
                    lemma_sum_push(acct.disputed, (t.tx, amt));
                    assert forall|i: int| 0 <= i < s2.len() implies {
                        let e = #[trigger] s2[i];
                        &&& e.1 >= 0
                        &&& m.txs.contains_key(e.0)
                        &&& m.txs[e.0].client == t.client
                        &&& m.txs[e.0].amount == Some(e.1)
                    } by {
                        if i == s2.len() - 1 {
                            assert(s2[i] == (t.tx, amt));
                        } else {
                            assert(s2[i] == acct.disputed[i]);
                        }
                    }
                    lemma_update_account_wf(m, t.client, acct2);
                }
            } else {
                if has_entry(acct.disputed, t.tx, amt) {
                    lemma_close_dispute_list(m, t.client, t.tx, amt);
                    let acct2 = after_resolve(acct, t.tx, amt);
                    lemma_update_account_wf(m, t.client, acct2);
                }
            }
        }
    } else if t.kind == "chargeback"@ {
        if m.txs.contains_key(t.tx) {
            assert(entry_ok(m, t.tx));
            let amt = amount_of(m.txs[t.tx]);
            let acct = get_account(m, t.client);
            if has_entry(acct.disputed, t.tx, amt) {
                assert(acct.disputed.len() > 0);
                assert(m.accounts.contains_key(t.client)) by {
                    if !m.accounts.contains_key(t.client) {
                        assert(acct == fresh_account(t.client));
                    }
                }
                assert(account_ok(m, t.client));
                lemma_close_dispute_list(m, t.client, t.tx, amt);
                let acct2 = after_chargeback(acct, t.tx, amt);
                lemma_update_account_wf(m, t.client, acct2);
            } else {
                lemma_with_account_wf(m, t.client);
            }
        }
    }
}

/// Law: the lock is monotonic — once an account is locked, no later
/// transaction of any kind unlocks it.
pub proof fn lemma_step_locked_monotonic(m: Ledger, t: Record, c: u16)
    requires
        ledger_wf(m),
        m.accounts.contains_key(c),
        m.accounts[c].locked,
    ensures
        step(m, t).0.accounts.contains_key(c),
        step(m, t).0.accounts[c].locked,
{
    lemma_with_account_wf(m, t.client);
    assert(with_account(m, t.client).accounts[c] == m.accounts[c]);
}

/// A dispute or resolve that must be silently ignored: it references a
/// transaction id that is not in history, or one that belongs to another
/// client, or (for a resolve) one that is not currently under dispute.
pub open spec fn ignored_reference(m: Ledger, t: Record) -> bool {
    &&& (t.kind == "dispute"@ || t.kind == "resolve"@)
    &&& {
        ||| !m.txs.contains_key(t.tx)
        ||| m.txs[t.tx].client != t.client
        ||| (t.kind == "resolve"@ && !has_entry(
            get_account(m, t.client).disputed,
            t.tx,
            amount_of(m.txs[t.tx]),
        ))
    }
}

/// Law: an ignored dispute or resolve reference is accepted without any
/// effect beyond the lazy creation of the target account, and repeating
/// it gives exactly the same state and outcome as doing it once.
pub proof fn lemma_ignored_reference_idempotent(m: Ledger, t: Record)
    requires
        ledger_wf(m),
        ignored_reference(m, t),
    ensures
        step(m, t) == (with_account(m, t.client), Outcome::Accepted),
        step(step(m, t).0, t) == step(m, t),
{
    lemma_kinds_distinct();
    lemma_with_account_wf(m, t.client);
    let m1 = with_account(m, t.client);
    if m.txs.contains_key(t.tx) && m.txs[t.tx].client == t.client {
        assert(entry_ok(m, t.tx));
        assert(m.accounts.contains_key(t.client));
        assert(m1 == m);
    }
    assert(m1.accounts.contains_key(t.client));
    assert(with_account(m1, t.client) == m1);
    if m.txs.contains_key(t.tx) && m.txs[t.tx].client == t.client {
        assert(get_account(m1, t.client) == get_account(m, t.client));
    }
}

/// Law: well-formedness holds at every point of a run — after any prefix
/// of valid records, every account still satisfies the ledger invariant,
/// so its derived total is exactly available plus held throughout.
pub proof fn lemma_run_preserves_wf(m: Ledger, s: Seq<Record>)
    requires
        ledger_wf(m),
        forall|i: int| 0 <= i < s.len() ==> valid_record(#[trigger] s[i]),
    ensures
        ledger_wf(run(m, s).0),
    decreases s.len(),
{
    if s.len() > 0 {
        lemma_step_preserves_wf(m, s[0]);
        let (m1, o) = step(m, s[0]);
        if o == Outcome::Accepted {
            assert forall|i: int| 0 <= i < s.drop_first().len() implies valid_record(
                #[trigger] s.drop_first()[i],
            ) by {
                assert(s.drop_first()[i] == s[i + 1]);
            }
            lemma_run_preserves_wf(m1, s.drop_first());
        }
    }
}

/// Law: the lock is monotonic over a whole run — an account locked at
/// some point stays locked through every later record.
pub proof fn lemma_run_locked_monotonic(m: Ledger, s: Seq<Record>, c: u16)
    requires
        ledger_wf(m),
        forall|i: int| 0 <= i < s.len() ==> valid_record(#[trigger] s[i]),
        m.accounts.contains_key(c),
        m.accounts[c].locked,
    ensures
        run(m, s).0.accounts.contains_key(c),
        run(m, s).0.accounts[c].locked,
    decreases s.len(),
{
    if s.len() > 0 {
        lemma_step_locked_monotonic(m, s[0], c);
        lemma_step_preserves_wf(m, s[0]);
        let (m1, o) = step(m, s[0]);
        if o == Outcome::Accepted {
            assert forall|i: int| 0 <= i < s.drop_first().len() implies valid_record(
                #[trigger] s.drop_first()[i],
            ) by {
                assert(s.drop_first()[i] == s[i + 1]);
            }
            lemma_run_locked_monotonic(m1, s.drop_first(), c);
        }
    }
}

/// Law: history is immutable after insert — a recorded transaction is
/// never changed or deleted by any later record, not even by the
/// chargeback that consumes it.
pub proof fn lemma_history_immutable(m: Ledger, t: Record, x: u32)
    requires
        m.txs.contains_key(x),
    ensures
        step(m, t).0.txs.contains_key(x),
        step(m, t).0.txs[x] == m.txs[x],
{
}

/// Law: an account, once created, is never deleted by any later record.
pub proof fn lemma_account_never_deleted(m: Ledger, t: Record, c: u16)
    requires
        m.accounts.contains_key(c),
    ensures
        step(m, t).0.accounts.contains_key(c),
{
}

/// Law: a deposit or withdrawal whose transaction id is already in
/// history is rejected as a duplicate and changes nothing.
pub proof fn lemma_duplicate_rejected(m: Ledger, t: Record)
    requires
        t.kind == "deposit"@ || t.kind == "withdrawal"@,
        t.amount is Some,
        m.txs.contains_key(t.tx),
    ensures
        step(m, t) == (m, Outcome::Duplicate),
{
}

} // verus!

