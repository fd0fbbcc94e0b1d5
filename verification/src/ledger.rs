//! The account ledger: balances and nonces keyed by compressed public key,
//! and the transactional apply / revert of a block's payments.
use vstd::prelude::*;
use crate::u256::U256;
use crate::u256::pow128;
use crate::u256::pow256;
use crate::alist::AList;
use crate::encoding::clone_bytes;
use crate::transaction::Transaction;
use crate::transaction::TxView;
use crate::block::tx_views;

verus! {

#[derive(Clone, Copy)]
pub struct AccountState {
    pub balance: U256,
    pub nonce: u128,
}

pub struct AccountView {
    pub balance: nat,
    pub nonce: nat,
}

impl View for AccountState {
    type V = AccountView;

    open spec fn view(&self) -> AccountView {
        AccountView { balance: self.balance@, nonce: self.nonce as nat }
    }
}

pub type Ledger = Map<Seq<u8>, AccountView>;

/// Every balance fits in 256 bits and every nonce in 128: true of any
/// ledger actually held in an account table.
pub open spec fn ledger_bounded(m: Ledger) -> bool {
    forall|k: Seq<u8>|
        #[trigger] m.contains_key(k) ==> m[k].balance < pow256() && m[k].nonce < pow128()
}

/// The account under `k`, or a fresh zero account: accounts come into being
/// on first reference.
pub open spec fn acct_or_new(m: Ledger, k: Seq<u8>) -> AccountView {
    if m.contains_key(k) {
        m[k]
    } else {
        AccountView { balance: 0, nonce: 0 }
    }
}

/// One payment: the sender is debited `amount + fee` and its nonce advances;
/// the receiver (created if absent) is credited `amount`. `None` when the
/// sender is unknown, the nonce does not match, funds are short, or a
/// counter would leave its 256-bit (or 128-bit) range.
pub open spec fn apply_tx(m: Ledger, t: TxView) -> Option<Ledger> {
    if !m.contains_key(t.public_key_from) {
        None
    } else if t.nonce != m[t.public_key_from].nonce {
        None
    } else if m[t.public_key_from].balance < t.amount + t.fee {
        None
    } else if m[t.public_key_from].nonce + 1 >= pow128() {
        None
    } else {
        let sender = m[t.public_key_from];
        let m1 = m.insert(
            t.public_key_from,
            AccountView {
                balance: (sender.balance - t.amount - t.fee) as nat,
                nonce: sender.nonce + 1,
            },
        );
        let recv = acct_or_new(m1, t.public_key_to);
        if recv.balance + t.amount >= pow256() {
            None
        } else {
            Some(
                m1.insert(
                    t.public_key_to,
                    AccountView { balance: recv.balance + t.amount, nonce: recv.nonce },
                ),
            )
        }
    }
}

/// The payments of a block, in order.
pub open spec fn apply_txs(m: Ledger, txs: Seq<TxView>) -> Option<Ledger>
    decreases txs.len(),
{
    if txs.len() == 0 {
        Some(m)
    } else {
        match apply_tx(m, txs.first()) {
            None => None,
            Some(m1) => apply_txs(m1, txs.drop_first()),
        }
    }
}

pub open spec fn sum_fees(txs: Seq<TxView>) -> nat
    decreases txs.len(),
{
    if txs.len() == 0 {
        0
    } else {
        sum_fees(txs.drop_first()) + txs.first().fee
    }
}

/// A whole block against the ledger: all payments in order, then the miner
/// (created if absent) credited with the fees and the mining reward.
pub open spec fn apply_block_ledger(m: Ledger, txs: Seq<TxView>, miner: Seq<u8>, reward: nat)
    -> Option<Ledger> {
    match apply_txs(m, txs) {
        None => None,
        Some(m1) => {
            let acct = acct_or_new(m1, miner);
            if acct.balance + sum_fees(txs) + reward >= pow256() {
                None
            } else {
                Some(
                    m1.insert(
                        miner,
                        AccountView {
                            balance: acct.balance + sum_fees(txs) + reward,
                            nonce: acct.nonce,
                        },
                    ),
                )
            }
        },
    }
}

/// Undoes one payment: the receiver gives back `amount`, the sender gets
/// back `amount + fee` and its nonce steps back.
pub open spec fn revert_tx(m: Ledger, t: TxView) -> Option<Ledger> {
    if !m.contains_key(t.public_key_to) {
        None
    } else if m[t.public_key_to].balance < t.amount {
        None
    } else {
        let recv = m[t.public_key_to];
        let m1 = m.insert(
            t.public_key_to,
            AccountView { balance: (recv.balance - t.amount) as nat, nonce: recv.nonce },
        );
        if !m1.contains_key(t.public_key_from) {
            None
        } else if m1[t.public_key_from].nonce < 1 {
            None
        } else if m1[t.public_key_from].balance + t.amount + t.fee >= pow256() {
            None
        } else {
            let sender = m1[t.public_key_from];
            Some(
                m1.insert(
                    t.public_key_from,
                    AccountView {
                        balance: sender.balance + t.amount + t.fee,
                        nonce: (sender.nonce - 1) as nat,
                    },
                ),
            )
        }
    }
}

/// Undoes the payments of a block, last first.
pub open spec fn revert_txs(m: Ledger, txs: Seq<TxView>) -> Option<Ledger>
    decreases txs.len(),
{
    if txs.len() == 0 {
        Some(m)
    } else {
        match revert_tx(m, txs.last()) {
            None => None,
            Some(m1) => revert_txs(m1, txs.drop_last()),
        }
    }
}

/// Undoes a whole block: the miner first gives back the fees and the
/// reward, then the payments are undone in reverse order.
pub open spec fn revert_block_ledger(m: Ledger, txs: Seq<TxView>, miner: Seq<u8>, reward: nat)
    -> Option<Ledger> {
    if !m.contains_key(miner) {
        None
    } else if m[miner].balance < sum_fees(txs) + reward {
        None
    } else {
        let acct = m[miner];
        let m1 = m.insert(
            miner,
            AccountView {
                balance: (acct.balance - sum_fees(txs) - reward) as nat,
                nonce: acct.nonce,
            },
        );
        revert_txs(m1, txs)
    }
}

/// Splitting a transaction list splits its application.
pub proof fn lemma_apply_txs_concat(m: Ledger, a: Seq<TxView>, b: Seq<TxView>)
    ensures
        apply_txs(m, a + b) == (match apply_txs(m, a) {
            None => None::<Ledger>,
            Some(m1) => apply_txs(m1, b),
        }),
    decreases a.len(),
{
    if a.len() == 0 {
        assert(a + b =~= b);
    } else {
        assert((a + b).first() == a.first());
        assert((a + b).drop_first() =~= a.drop_first() + b);
        match apply_tx(m, a.first()) {
            None => {
            },
            Some(m1) => {
                lemma_apply_txs_concat(m1, a.drop_first(), b);
            },
        }
    }
}

pub proof fn lemma_sum_fees_concat(a: Seq<TxView>, b: Seq<TxView>)
    ensures
        sum_fees(a + b) == sum_fees(a) + sum_fees(b),
    decreases a.len(),
{
    if a.len() == 0 {
        assert(a + b =~= b);
    } else {
        assert((a + b).first() == a.first());
        assert((a + b).drop_first() =~= a.drop_first() + b);
        lemma_sum_fees_concat(a.drop_first(), b);
    }
}

/// If the running total of reward and fees no longer fits in 256 bits, the
/// final miner credit cannot fit either, whatever the ledger holds.
proof fn lemma_fees_overflow(m0: Ledger, tv: Seq<TxView>, i: int, miner: Seq<u8>, reward: nat)
    requires
        0 <= i < tv.len(),
        reward + sum_fees(tv.take(i)) + tv[i].fee >= pow256(),
    ensures
        apply_block_ledger(m0, tv, miner, reward) is None,
{
    assert(tv.take(i + 1) =~= tv.take(i) + seq![tv[i]]);
    lemma_sum_fees_concat(tv.take(i), seq![tv[i]]);
    assert(seq![tv[i]].drop_first() =~= Seq::<TxView>::empty());
    assert(tv =~= tv.take(i + 1) + tv.skip(i + 1));
    lemma_sum_fees_concat(tv.take(i + 1), tv.skip(i + 1));
    assert(sum_fees(tv) + reward >= pow256());
}

/// One step of the block application fold.
proof fn lemma_apply_step(m0: Ledger, mpre: Ledger, tv: Seq<TxView>, i: int)
    requires
        0 <= i < tv.len(),
        apply_txs(m0, tv.take(i)) == Some(mpre),
    ensures
        apply_txs(m0, tv.take(i + 1)) == apply_tx(mpre, tv[i]),
        sum_fees(tv.take(i + 1)) == sum_fees(tv.take(i)) + tv[i].fee,
        apply_tx(mpre, tv[i]) is None ==> apply_txs(m0, tv) is None,
{
    let prefix = tv.take(i);
    let t = tv[i];
    assert(tv.take(i + 1) =~= prefix + seq![t]);
    lemma_apply_txs_concat(m0, prefix, seq![t]);
    lemma_sum_fees_concat(prefix, seq![t]);
    assert(seq![t].drop_first() =~= Seq::<TxView>::empty());
    assert(seq![t].first() == t);
    assert(sum_fees(seq![t]) == sum_fees(seq![t].drop_first()) + seq![t].first().fee);
    assert(apply_txs(mpre, seq![t]) == (match apply_tx(mpre, t) {
        None => None::<Ledger>,
        Some(m2) => apply_txs(m2, seq![t].drop_first()),
    }));
    lemma_apply_txs_concat(m0, tv.take(i + 1), tv.skip(i + 1));
    assert(tv.take(i + 1) + tv.skip(i + 1) =~= tv);
}

/// Applies the transactions of a block to `accounts` and credits the miner;
/// on any failure nothing changes.
#[verifier::rlimit(60)]
pub fn apply_transactions(
    accounts: &mut AList<AccountState>,
    txs: &Vec<Transaction>,
    miner: &Vec<u8>,
    reward: &U256,
) -> (r: bool)
    ensures
        r == (apply_block_ledger(old(accounts)@, tx_views(txs@), miner@, reward@) is Some),
        (apply_block_ledger(old(accounts)@, tx_views(txs@), miner@, reward@) matches Some(m)
            ==> final(accounts)@ == m),
        !r ==> final(accounts)@ == old(accounts)@,
{
    let ghost m0 = accounts@;
    let ghost tv = tx_views(txs@);
    let mut work = accounts.duplicate();
    let mut delta: U256 = *reward;
    let mut i: usize = 0;
    proof {
        assert(tv.take(0) =~= Seq::<TxView>::empty());
    }
    while i < txs.len()
        invariant
            i <= txs@.len(),
            tv == tx_views(txs@),
            m0 == old(accounts)@,
            accounts@ == old(accounts)@,
            apply_txs(m0, tv.take(i as int)) == Some(work@),
            delta@ == reward@ + sum_fees(tv.take(i as int)),
        decreases txs@.len() - i,
    {
        let ghost t = tv[i as int];
        let ghost mpre = work@;
        proof {
            lemma_apply_step(m0, mpre, tv, i as int);
        }
        let tx = &txs[i];
        let sender: AccountState = match work.get(&tx.public_key_from) {
            Some(a) => *a,
            None => {
                proof {
                    assert(apply_tx(mpre, t) is None);
                }
                return false;
            },
        };
        if tx.nonce != sender.nonce {
            proof {
                assert(apply_tx(mpre, t) is None);
            }
            return false;
        }
        let cost = match tx.amount.checked_add(&tx.fee) {
            Some(c) => c,
            None => {
                proof {
                    U256::lemma_view_bound(sender.balance);
                    assert(apply_tx(mpre, t) is None);
                }
                return false;
            },
        };
        let new_balance = match sender.balance.checked_sub(&cost) {
            Some(b) => b,
            None => {
                proof {
                    assert(apply_tx(mpre, t) is None);
                }
                return false;
            },
        };
        if tx.nonce == u128::MAX {
            proof {
                assert(t.nonce + 1 >= pow128());
                assert(apply_tx(mpre, t) is None);
            }
            return false;
        }
        work.insert(
            clone_bytes(&tx.public_key_from),
            AccountState { balance: new_balance, nonce: tx.nonce + 1 },
        );
        let receiver: AccountState = match work.get(&tx.public_key_to) {
            Some(a) => *a,
            None => AccountState { balance: U256::zero(), nonce: 0 },
        };
        let recv_balance = match receiver.balance.checked_add(&tx.amount) {
            Some(b) => b,
            None => {
                proof {
                    assert(apply_tx(mpre, t) is None);
                }
                return false;
            },
        };
        work.insert(
            clone_bytes(&tx.public_key_to),
            AccountState { balance: recv_balance, nonce: receiver.nonce },
        );
        delta = match delta.checked_add(&tx.fee) {
            Some(d) => d,
            None => {
                proof {
                    lemma_fees_overflow(m0, tv, i as int, miner@, reward@);
                }
                return false;
            },
        };
        proof {
            assert(apply_tx(mpre, t) == Some(work@));
        }
        i = i + 1;
    }
    proof {
        assert(tv.take(txs@.len() as int) =~= tv);
    }
    let miner_acct: AccountState = match work.get(miner) {
        Some(a) => *a,
        None => AccountState { balance: U256::zero(), nonce: 0 },
    };
    let credited = match miner_acct.balance.checked_add(&delta) {
        Some(b) => b,
        None => {
            return false;
        },
    };
    work.insert(clone_bytes(miner), AccountState { balance: credited, nonce: miner_acct.nonce });
    *accounts = work;
    true
}

/// Any ledger stored in an account table is bounded.
pub proof fn lemma_accounts_bounded(accounts: &AList<AccountState>)
    ensures
        ledger_bounded(accounts@),
{
    assert forall|k: Seq<u8>| #[trigger] accounts@.contains_key(k) implies accounts@[k].balance
        < pow256() && accounts@[k].nonce < pow128() by {
        accounts.lemma_value_origin(k);
        let i = choose|i: int|
            0 <= i < accounts.spec_entries().len() && #[trigger] accounts.spec_entries()[i].1@
                == accounts@[k];
        U256::lemma_view_bound(accounts.spec_entries()[i].1.balance);
    }
}

/// A prefix of the fees never exceeds the whole sum.
proof fn lemma_sum_fees_prefix(tv: Seq<TxView>, i: int)
    requires
        0 <= i <= tv.len(),
    ensures
        sum_fees(tv.take(i)) <= sum_fees(tv),
{
    assert(tv.take(i) + tv.skip(i) =~= tv);
    lemma_sum_fees_concat(tv.take(i), tv.skip(i));
}

/// Undoes a block's transactions on `accounts` and takes back the miner's
/// fees and reward; on any failure nothing changes.
#[verifier::rlimit(60)]
pub fn revert_transactions(
    accounts: &mut AList<AccountState>,
    txs: &Vec<Transaction>,
    miner: &Vec<u8>,
    reward: &U256,
) -> (r: bool)
    ensures
        r == (revert_block_ledger(old(accounts)@, tx_views(txs@), miner@, reward@) is Some),
        (revert_block_ledger(old(accounts)@, tx_views(txs@), miner@, reward@) matches Some(m)
            ==> final(accounts)@ == m),
        !r ==> final(accounts)@ == old(accounts)@,
{
    let ghost m0 = accounts@;
    let ghost tv = tx_views(txs@);
    proof {
        lemma_accounts_bounded(accounts);
    }
    let mut fees = U256::zero();
    let mut i: usize = 0;
    proof {
        assert(tv.take(0) =~= Seq::<TxView>::empty());
    }
    while i < txs.len()
        invariant
            i <= txs@.len(),
            tv == tx_views(txs@),
            m0 == old(accounts)@,
            accounts@ == old(accounts)@,
            ledger_bounded(m0),
            fees@ == sum_fees(tv.take(i as int)),
        decreases txs@.len() - i,
    {
        proof {
            lemma_apply_step_fees(tv, i as int);
        }
        fees = match fees.checked_add(&txs[i].fee) {
            Some(f) => f,
            None => {
                proof {
                    lemma_sum_fees_prefix(tv, i + 1);
                    if m0.contains_key(miner@) {
                        assert(m0[miner@].balance < sum_fees(tv) + reward@);
                    }
                }
                return false;
            },
        };
        i = i + 1;
    }
    proof {
        assert(tv.take(txs@.len() as int) =~= tv);
    }
    let total = match fees.checked_add(reward) {
        Some(t) => t,
        None => {
            proof {
                if m0.contains_key(miner@) {
                    assert(m0[miner@].balance < sum_fees(tv) + reward@);
                }
            }
            return false;
        },
    };
    let miner_acct: AccountState = match accounts.get(miner) {
        Some(a) => *a,
        None => {
            return false;
        },
    };
    let debited = match miner_acct.balance.checked_sub(&total) {
        Some(b) => b,
        None => {
            return false;
        },
    };
    let mut work = accounts.duplicate();
    work.insert(clone_bytes(miner), AccountState { balance: debited, nonce: miner_acct.nonce });
    let ghost m1 = work@;
    let mut i: usize = txs.len();
    while i > 0
        invariant
            i <= txs@.len(),
            tv == tx_views(txs@),
            m0 == old(accounts)@,
            accounts@ == old(accounts)@,
            revert_block_ledger(m0, tv, miner@, reward@) == revert_txs(work@, tv.take(i as int)),
        decreases i,
    {
        let ghost mpre = work@;
        let ghost t = tv[i - 1 as int];
        proof {
            assert(tv.take(i as int).last() == t);
            assert(tv.take(i as int).drop_last() =~= tv.take(i - 1 as int));
        }
        let tx = &txs[i - 1];
        let receiver: AccountState = match work.get(&tx.public_key_to) {
            Some(a) => *a,
            None => {
                proof {
                    assert(revert_tx(mpre, t) is None);
                }
                return false;
            },
        };
        let recv_balance = match receiver.balance.checked_sub(&tx.amount) {
            Some(b) => b,
            None => {
                proof {
                    assert(revert_tx(mpre, t) is None);
                }
                return false;
            },
        };
        work.insert(
            clone_bytes(&tx.public_key_to),
            AccountState { balance: recv_balance, nonce: receiver.nonce },
        );
        let sender: AccountState = match work.get(&tx.public_key_from) {
            Some(a) => *a,
            None => {
                proof {
                    assert(revert_tx(mpre, t) is None);
                }
                return false;
            },
        };
        if sender.nonce == 0 {
            proof {
                assert(revert_tx(mpre, t) is None);
            }
            return false;
        }
        let with_amount = match sender.balance.checked_add(&tx.amount) {
            Some(b) => b,
            None => {
                proof {
                    assert(revert_tx(mpre, t) is None);
                }
                return false;
            },
        };
        let restored = match with_amount.checked_add(&tx.fee) {
            Some(b) => b,
            None => {
                proof {
                    assert(revert_tx(mpre, t) is None);
                }
                return false;
            },
        };
        work.insert(
            clone_bytes(&tx.public_key_from),
            AccountState { balance: restored, nonce: sender.nonce - 1 },
        );
        proof {
            assert(revert_tx(mpre, t) == Some(work@));
        }
        i = i - 1;
    }
    proof {
        assert(tv.take(0) =~= Seq::<TxView>::empty());
    }
    *accounts = work;
    true
}

/// A successful payment keeps the ledger bounded and loses no account.
proof fn lemma_apply_tx_props(m: Ledger, t: TxView)
    requires
        apply_tx(m, t) is Some,
        ledger_bounded(m),
    ensures
        ledger_bounded(apply_tx(m, t).unwrap()),
        forall|k: Seq<u8>| m.contains_key(k) ==> apply_tx(m, t).unwrap().contains_key(k),
{
    let m2 = apply_tx(m, t).unwrap();
    assert forall|k: Seq<u8>| #[trigger] m2.contains_key(k) implies m2[k].balance < pow256()
        && m2[k].nonce < pow128() by {
        if k != t.public_key_from && k != t.public_key_to {
            assert(m2[k] == m[k]);
        }
    }
}

/// Successive successful payments keep the ledger bounded and lose no
/// account.
proof fn lemma_apply_txs_props(m: Ledger, txs: Seq<TxView>)
    requires
        apply_txs(m, txs) is Some,
        ledger_bounded(m),
    ensures
        ledger_bounded(apply_txs(m, txs).unwrap()),
        forall|k: Seq<u8>| m.contains_key(k) ==> apply_txs(m, txs).unwrap().contains_key(k),
    decreases txs.len(),
{
    if txs.len() > 0 {
        lemma_apply_tx_props(m, txs.first());
        lemma_apply_txs_props(apply_tx(m, txs.first()).unwrap(), txs.drop_first());
    }
}

/// Undoing a payment that just went through restores the ledger exactly,
/// provided the receiver's account already existed.
proof fn lemma_revert_tx_of_apply(m: Ledger, t: TxView)
    requires
        apply_tx(m, t) is Some,
        m.contains_key(t.public_key_to),
        ledger_bounded(m),
    ensures
        revert_tx(apply_tx(m, t).unwrap(), t) == Some(m),
{
    let m2 = apply_tx(m, t).unwrap();
    let f = t.public_key_from;
    let to = t.public_key_to;
    let sender = m[f];
    if f == to {
        let m1r = m2.insert(to, AccountView { balance: (m2[to].balance - t.amount) as nat, nonce: m2[to].nonce });
        let restored = m1r.insert(
            f,
            AccountView {
                balance: (m1r[f].balance + t.amount + t.fee) as nat,
                nonce: (m1r[f].nonce - 1) as nat,
            },
        );
        assert(revert_tx(m2, t) == Some(restored));
        assert(m[f] == (AccountView { balance: m[f].balance, nonce: m[f].nonce }));
        assert(restored =~= m);
    } else {
        let m1r = m2.insert(to, AccountView { balance: (m2[to].balance - t.amount) as nat, nonce: m2[to].nonce });
        let restored = m1r.insert(
            f,
            AccountView {
                balance: (m1r[f].balance + t.amount + t.fee) as nat,
                nonce: (m1r[f].nonce - 1) as nat,
            },
        );
        assert(revert_tx(m2, t) == Some(restored));
        assert(m[f] == (AccountView { balance: m[f].balance, nonce: m[f].nonce }));
        assert(m[to] == (AccountView { balance: m[to].balance, nonce: m[to].nonce }));
        assert(restored =~= m);
    }
}

/// Undoing the payments of a block that just went through restores the
/// ledger exactly, provided every receiver's account already existed.
proof fn lemma_revert_txs_of_apply(m: Ledger, txs: Seq<TxView>)
    requires
        apply_txs(m, txs) is Some,
        ledger_bounded(m),
        forall|i: int| 0 <= i < txs.len() ==> m.contains_key(#[trigger] txs[i].public_key_to),
    ensures
        revert_txs(apply_txs(m, txs).unwrap(), txs) == Some(m),
    decreases txs.len(),
{
    if txs.len() > 0 {
        let a = txs.drop_last();
        let t = txs.last();
        assert(txs =~= a + seq![t]);
        lemma_apply_txs_concat(m, a, seq![t]);
        let mb = apply_txs(m, a).unwrap();
        assert(seq![t].drop_first() =~= Seq::<TxView>::empty());
        assert(apply_txs(mb, seq![t]) == (match apply_tx(mb, t) {
            None => None::<Ledger>,
            Some(m2) => apply_txs(m2, seq![t].drop_first()),
        }));
        lemma_apply_txs_props(m, a);
        assert(m.contains_key(txs[txs.len() - 1].public_key_to));
        lemma_revert_tx_of_apply(mb, t);
        lemma_revert_txs_of_apply(m, a);
    }
}

/// Reverting a block that was just applied restores the ledger exactly;
/// the miner's and every receiver's accounts must have existed beforehand.
/// Applying it again then yields the same ledger as before, since the
/// application is a function of its inputs.
pub proof fn lemma_revert_restores_apply(m: Ledger, txs: Seq<TxView>, miner: Seq<u8>, reward: nat)
    requires
        ledger_bounded(m),
        m.contains_key(miner),
        forall|i: int| 0 <= i < txs.len() ==> m.contains_key(#[trigger] txs[i].public_key_to),
        apply_block_ledger(m, txs, miner, reward) is Some,
    ensures
        revert_block_ledger(
            apply_block_ledger(m, txs, miner, reward).unwrap(),
            txs,
            miner,
            reward,
        ) == Some(m),
{
    let ma = apply_txs(m, txs).unwrap();
    let mp = apply_block_ledger(m, txs, miner, reward).unwrap();
    lemma_apply_txs_props(m, txs);
    assert(ma.contains_key(miner));
    assert(mp == ma.insert(
        miner,
        AccountView {
            balance: (ma[miner].balance + sum_fees(txs) + reward) as nat,
            nonce: ma[miner].nonce,
        },
    ));
    assert(mp.contains_key(miner));
    assert(mp[miner].balance >= sum_fees(txs) + reward);
    let m1 = mp.insert(
        miner,
        AccountView {
            balance: (mp[miner].balance - sum_fees(txs) - reward) as nat,
            nonce: mp[miner].nonce,
        },
    );
    assert(ma[miner] == (AccountView { balance: ma[miner].balance, nonce: ma[miner].nonce }));
    assert(m1 =~= ma);
    assert(revert_block_ledger(mp, txs, miner, reward) == revert_txs(ma, txs));
    lemma_revert_txs_of_apply(m, txs);
}

/// The fee sum of one more transaction.
proof fn lemma_apply_step_fees(tv: Seq<TxView>, i: int)
    requires
        0 <= i < tv.len(),
    ensures
        sum_fees(tv.take(i + 1)) == sum_fees(tv.take(i)) + tv[i].fee,
{
    let t = tv[i];
    assert(tv.take(i + 1) =~= tv.take(i) + seq![t]);
    lemma_sum_fees_concat(tv.take(i), seq![t]);
    assert(seq![t].drop_first() =~= Seq::<TxView>::empty());
    assert(seq![t].first() == t);
    assert(sum_fees(seq![t]) == sum_fees(seq![t].drop_first()) + seq![t].first().fee);
}

} // verus!
