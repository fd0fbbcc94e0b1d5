//! The miner: transaction admission into a fee-ordered mempool, fee-greedy
//! block building with nonce-sequenced simulation, the proof-of-work search,
//! and block gossip to connected peers.
use vstd::prelude::*;
use crate::u256::U256;
use crate::u256::pow128;
use crate::account::AccountKeys;
use crate::chain::Blockchain;
use crate::crypto::sig_verifies;
use crate::crypto::verify_signature;
use crate::encoding::clone_bytes;
use crate::encoding::hex_val;
use crate::ledger::AccountView;
use crate::ledger::Ledger;
use crate::ledger::acct_or_new;
use crate::transaction::Transaction;
use crate::transaction::TxView;
use crate::transaction::fingerprint;
use crate::transaction::hash_transaction;
use crate::block::Block;
use crate::block::tx_views;

verus! {

pub struct Miner {
    pub mempool: Vec<Transaction>,
    pub account_keys: AccountKeys,
    pub connected_peers: Vec<Miner>,
}

/// Fees never increase along the pool: the highest-fee transactions stand
/// at the front.
pub open spec fn sorted_by_fee_desc(s: Seq<TxView>) -> bool {
    forall|i: int, j: int| 0 <= i < j < s.len() ==> s[i].fee >= s[j].fee
}

/// Some signature over the transaction's fingerprint verifies against its
/// sender.
pub open spec fn tx_signed(t: TxView) -> bool {
    exists|sig: Seq<u8>| sig_verifies(t.public_key_from, fingerprint(t), sig)
}

impl Miner {
    pub open spec fn pool(self) -> Seq<TxView> {
        tx_views(self.mempool@)
    }

    /// The mempool stays in non-increasing fee order and holds only
    /// transactions whose signature was checked on admission.
    pub open spec fn mempool_wf(self) -> bool {
        &&& sorted_by_fee_desc(self.pool())
        &&& forall|i: int| 0 <= i < self.pool().len() ==> tx_signed(#[trigger] self.pool()[i])
        &&& self.account_keys.wf()
    }
}

impl Miner {
    /// Mempool entries never increase in fee from front to back.
    pub proof fn lemma_mempool_fee_order(self, i: int, j: int)
        requires
            self.mempool_wf(),
            0 <= i < j < self.pool().len(),
        ensures
            self.pool()[i].fee >= self.pool()[j].fee,
    {
    }
}

/// Whether the pool, the ledger and the signature admit the transaction.
pub open spec fn admits(pool: Seq<TxView>, led: Ledger, t: TxView, sig: Seq<u8>) -> bool {
    &&& sig_verifies(t.public_key_from, fingerprint(t), sig)
    &&& t.nonce >= acct_or_new(led, t.public_key_from).nonce
    &&& acct_or_new(led, t.public_key_from).balance >= t.amount + t.fee
    &&& !pool.contains(t)
}

/// How many pool entries charge a strictly greater fee.
pub open spec fn count_gt_fee(s: Seq<TxView>, fee: nat) -> nat
    decreases s.len(),
{
    if s.len() == 0 {
        0
    } else {
        count_gt_fee(s.drop_last(), fee) + (if s.last().fee > fee {
            1nat
        } else {
            0nat
        })
    }
}

proof fn lemma_count_gt_fee_le_len(s: Seq<TxView>, fee: nat)
    ensures
        count_gt_fee(s, fee) <= s.len(),
    decreases s.len(),
{
    if s.len() > 0 {
        lemma_count_gt_fee_le_len(s.drop_last(), fee);
    }
}

proof fn lemma_count_gt_fee_step(s: Seq<TxView>, i: int, fee: nat)
    requires
        0 <= i < s.len(),
    ensures
        count_gt_fee(s.take(i + 1), fee) == count_gt_fee(s.take(i), fee) + (if s[i].fee > fee {
            1nat
        } else {
            0nat
        }),
{
    assert(s.take(i + 1).drop_last() =~= s.take(i));
    assert(s.take(i + 1).last() == s[i]);
}

impl Miner {
    /// Admission: the signature must verify (else the transaction is
    /// dropped silently and nothing changes), the sender's account comes
    /// into being if unknown, spent nonces, short funds and duplicates are
    /// rejected, and an admitted transaction is placed after every
    /// strictly-higher-fee entry, keeping the pool fee-ordered and stable.
    #[verifier::rlimit(60)]
    pub fn add_transaction_to_mempool(
        &mut self,
        transaction: Transaction,
        signature: &Vec<u8>,
        blockchain: &mut Blockchain,
    )
        requires
            old(self).mempool_wf(),
        ensures
            final(self).mempool_wf(),
            final(self).account_keys == old(self).account_keys,
            final(self).connected_peers == old(self).connected_peers,
            *final(blockchain) == (Blockchain {
                accounts: final(blockchain).accounts,
                ..*old(blockchain)
            }),
            final(blockchain).ledger() == (if sig_verifies(
                transaction@.public_key_from,
                fingerprint(transaction@),
                signature@,
            ) && !old(blockchain).ledger().contains_key(transaction@.public_key_from) {
                old(blockchain).ledger().insert(
                    transaction@.public_key_from,
                    AccountView { balance: 0, nonce: 0 },
                )
            } else {
                old(blockchain).ledger()
            }),
            final(self).pool() == (if admits(
                old(self).pool(),
                old(blockchain).ledger(),
                transaction@,
                signature@,
            ) {
                old(self).pool().insert(
                    count_gt_fee(old(self).pool(), transaction@.fee) as int,
                    transaction@,
                )
            } else {
                old(self).pool()
            }),
    {
        let ghost t = transaction@;
        let ghost pool0 = self.pool();
        let ghost led0 = blockchain.ledger();
        let transaction_hash = hash_transaction(&transaction);
        if !verify_signature(&transaction.public_key_from, &transaction_hash, signature) {
            return ;
        }
        let account: crate::ledger::AccountState = match blockchain.get_account(
            &transaction.public_key_from,
        ) {
            Some(a) => *a,
            None => blockchain.create_account(&transaction.public_key_from),
        };
        proof {
            assert(account@ == acct_or_new(led0, t.public_key_from));
        }
        if transaction.nonce < account.nonce {
            return ;
        }
        let cost = match transaction.amount.checked_add(&transaction.fee) {
            Some(c) => c,
            None => {
                proof {
                    U256::lemma_view_bound(account.balance);
                }
                return ;
            },
        };
        if account.balance.lt(&cost) {
            return ;
        }
        let mut i: usize = 0;
        while i < self.mempool.len()
            invariant
                i <= self.mempool@.len(),
                *self == *old(self),
                old(self).mempool_wf(),
                pool0 == self.pool(),
                t == transaction@,
                led0 == old(blockchain).ledger(),
                *blockchain == (Blockchain {
                    accounts: blockchain.accounts,
                    ..*old(blockchain)
                }),
                blockchain.ledger() == (if !led0.contains_key(t.public_key_from) {
                    led0.insert(t.public_key_from, AccountView { balance: 0, nonce: 0 })
                } else {
                    led0
                }),
                sig_verifies(t.public_key_from, fingerprint(t), signature@),
                t.nonce >= acct_or_new(led0, t.public_key_from).nonce,
                acct_or_new(led0, t.public_key_from).balance >= t.amount + t.fee,
                forall|j: int| 0 <= j < i ==> pool0[j] != t,
            decreases self.mempool@.len() - i,
        {
            proof {
                assert(pool0[i as int] == self.mempool@[i as int]@);
            }
            if self.mempool[i].same_as(&transaction) {
                proof {
                    assert(pool0.contains(t)) by {
                        assert(pool0[i as int] == t);
                    }
                }
                return ;
            }
            i = i + 1;
        }
        proof {
            if pool0.contains(t) {
                let j = choose|j: int| 0 <= j < pool0.len() && pool0[j] == t;
                assert(false);
            }
        }
        let mut idx: usize = 0;
        let mut k: usize = 0;
        proof {
            assert(pool0.take(0) =~= Seq::<TxView>::empty());
        }
        while k < self.mempool.len()
            invariant
                k <= self.mempool@.len(),
                idx <= k,
                *self == *old(self),
                old(self).mempool_wf(),
                pool0 == self.pool(),
                t == transaction@,
                led0 == old(blockchain).ledger(),
                *blockchain == (Blockchain {
                    accounts: blockchain.accounts,
                    ..*old(blockchain)
                }),
                blockchain.ledger() == (if !led0.contains_key(t.public_key_from) {
                    led0.insert(t.public_key_from, AccountView { balance: 0, nonce: 0 })
                } else {
                    led0
                }),
                sig_verifies(t.public_key_from, fingerprint(t), signature@),
                t.nonce >= acct_or_new(led0, t.public_key_from).nonce,
                acct_or_new(led0, t.public_key_from).balance >= t.amount + t.fee,
                !pool0.contains(t),
                idx as nat == count_gt_fee(pool0.take(k as int), t.fee),
                forall|j: int| 0 <= j < idx ==> pool0[j].fee > t.fee,
                forall|j: int| idx <= j < k ==> pool0[j].fee <= t.fee,
            decreases self.mempool@.len() - k,
        {
            proof {
                lemma_count_gt_fee_step(pool0, k as int, t.fee);
                assert(pool0[k as int] == self.mempool@[k as int]@);
            }
            if self.mempool[k].fee.gt(&transaction.fee) {
                proof {
                    if idx < k {
                        assert(pool0[idx as int].fee <= t.fee);
                        assert(pool0[idx as int].fee >= pool0[k as int].fee);
                        assert(false);
                    }
                }
                idx = idx + 1;
            }
            k = k + 1;
        }
        proof {
            assert(pool0.take(self.mempool@.len() as int) =~= pool0);
        }
        self.mempool.insert(idx, transaction);
        proof {
            assert(self.pool() =~= pool0.insert(idx as int, t));
            assert(tx_signed(t)) by {
                assert(sig_verifies(t.public_key_from, fingerprint(t), signature@));
            }
            lemma_mempool_insert(pool0, t, idx as int);
        }
    }
}

/// How many transactions the builder draws from the pool: all of them
/// when the pool fits, and deliberately one fewer than the capacity when
/// it does not.
pub open spec fn prefix_len(pool_len: nat, k: nat) -> nat {
    if pool_len > k {
        if k >= 1 {
            (k - 1) as nat
        } else {
            0
        }
    } else {
        pool_len
    }
}

/// Stable insertion: the new transaction goes after every entry whose
/// nonce does not exceed its own.
pub open spec fn insert_by_nonce(t: TxView, s: Seq<TxView>) -> Seq<TxView>
    decreases s.len(),
{
    if s.len() == 0 {
        seq![t]
    } else if s.first().nonce <= t.nonce {
        seq![s.first()] + insert_by_nonce(t, s.drop_first())
    } else {
        seq![t] + s
    }
}

/// Stable sort by ascending nonce.
pub open spec fn sort_by_nonce(s: Seq<TxView>) -> Seq<TxView>
    decreases s.len(),
{
    if s.len() == 0 {
        Seq::empty()
    } else {
        insert_by_nonce(s.last(), sort_by_nonce(s.drop_last()))
    }
}

/// Whether the simulated ledger lets the transaction through: the sender
/// is known, the nonce is exactly next, and the funds cover amount and
/// fee.
pub open spec fn sim_ok(led: Ledger, t: TxView) -> bool {
    &&& led.contains_key(t.public_key_from)
    &&& t.nonce == led[t.public_key_from].nonce
    &&& led[t.public_key_from].balance >= t.amount + t.fee
    &&& led[t.public_key_from].nonce + 1 < pow128()
}

/// The simulation advances only the sender.
pub open spec fn sim_apply(led: Ledger, t: TxView) -> Ledger {
    led.insert(
        t.public_key_from,
        AccountView {
            balance: (led[t.public_key_from].balance - t.amount - t.fee) as nat,
            nonce: led[t.public_key_from].nonce + 1,
        },
    )
}

/// The executable prefix: walk the candidates, keep those the simulated
/// ledger accepts, advancing it for each survivor.
pub open spec fn select_valid(led: Ledger, s: Seq<TxView>) -> Seq<TxView>
    decreases s.len(),
{
    if s.len() == 0 {
        Seq::empty()
    } else if sim_ok(led, s.first()) {
        seq![s.first()] + select_valid(sim_apply(led, s.first()), s.drop_first())
    } else {
        select_valid(led, s.drop_first())
    }
}

proof fn lemma_insert_by_nonce_at(t: TxView, s: Seq<TxView>, idx: int)
    requires
        0 <= idx <= s.len(),
        forall|j: int| 0 <= j < idx ==> s[j].nonce <= t.nonce,
        idx < s.len() ==> s[idx].nonce > t.nonce,
    ensures
        insert_by_nonce(t, s) == s.insert(idx, t),
    decreases idx,
{
    if idx == 0 {
        if s.len() == 0 {
            assert(seq![t] =~= s.insert(0, t));
        } else {
            assert(seq![t] + s =~= s.insert(0, t));
        }
    } else {
        lemma_insert_by_nonce_at(t, s.drop_first(), idx - 1);
        assert(seq![s.first()] + s.drop_first().insert(idx - 1, t) =~= s.insert(idx, t));
    }
}

/// Cloned-and-sorted copy of the candidates, by ascending nonce, stable.
fn sort_transactions_by_nonce(txs: &Vec<Transaction>) -> (r: Vec<Transaction>)
    ensures
        tx_views(r@) == sort_by_nonce(tx_views(txs@)),
{
    let ghost tv = tx_views(txs@);
    let mut out: Vec<Transaction> = Vec::new();
    let mut i: usize = 0;
    proof {
        assert(tv.take(0) =~= Seq::<TxView>::empty());
        assert(tx_views(out@) =~= Seq::<TxView>::empty());
    }
    while i < txs.len()
        invariant
            i <= txs@.len(),
            tv == tx_views(txs@),
            tx_views(out@) == sort_by_nonce(tv.take(i as int)),
        decreases txs@.len() - i,
    {
        let ghost t = tv[i as int];
        let ghost pre_out = tx_views(out@);
        let tx = txs[i].duplicate();
        let mut idx: usize = 0;
        while idx < out.len() && out[idx].nonce <= tx.nonce
            invariant
                idx <= out@.len(),
                tx@ == t,
                pre_out == tx_views(out@),
                forall|j: int| 0 <= j < idx ==> pre_out[j].nonce <= t.nonce,
            decreases out@.len() - idx,
        {
            proof {
                assert(pre_out[idx as int] == out@[idx as int]@);
            }
            idx = idx + 1;
        }
        proof {
            if idx < out@.len() {
                assert(pre_out[idx as int] == out@[idx as int]@);
            }
            lemma_insert_by_nonce_at(t, pre_out, idx as int);
        }
        out.insert(idx, tx);
        proof {
            assert(tx_views(out@) =~= pre_out.insert(idx as int, t));
            assert(tv.take(i + 1 as int).drop_last() =~= tv.take(i as int));
            assert(tv.take(i + 1 as int).last() == t);
        }
        i = i + 1;
    }
    proof {
        assert(tv.take(txs@.len() as int) =~= tv);
    }
    out
}

/// Keeps the candidates the simulated ledger accepts, in order.
fn select_transactions(
    accounts: &crate::alist::AList<crate::ledger::AccountState>,
    txs: &Vec<Transaction>,
) -> (r: Vec<Transaction>)
    ensures
        tx_views(r@) == select_valid(accounts@, tx_views(txs@)),
        r@.len() <= txs@.len(),
{
    let ghost led0 = accounts@;
    let ghost tv = tx_views(txs@);
    let mut work = accounts.duplicate();
    let mut out: Vec<Transaction> = Vec::new();
    let mut i: usize = 0;
    proof {
        assert(tv.skip(0) =~= tv);
        assert(tx_views(out@) =~= Seq::<TxView>::empty());
        assert(Seq::<TxView>::empty() + select_valid(work@, tv) =~= select_valid(work@, tv));
    }
    while i < txs.len()
        invariant
            i <= txs@.len(),
            tv == tx_views(txs@),
            out@.len() <= i,
            select_valid(led0, tv) == tx_views(out@) + select_valid(work@, tv.skip(i as int)),
        decreases txs@.len() - i,
    {
        let ghost t = tv[i as int];
        let ghost pre_out = tx_views(out@);
        let ghost pre_led = work@;
        proof {
            assert(tv.skip(i as int).first() == t);
            assert(tv.skip(i as int).drop_first() =~= tv.skip(i + 1 as int));
        }
        let tx = &txs[i];
        let sender_opt: Option<crate::ledger::AccountState> = match work.get(&tx.public_key_from) {
            Some(a) => Some(*a),
            None => None,
        };
        match sender_opt {
            None => {
                proof {
                    assert(!sim_ok(pre_led, t));
                }
            },
            Some(sender) => {
                if tx.nonce != sender.nonce {
                    proof {
                        assert(!sim_ok(pre_led, t));
                    }
                } else if tx.nonce == u128::MAX {
                    proof {
                        assert(t.nonce + 1 >= pow128());
                        assert(!sim_ok(pre_led, t));
                    }
                } else {
                    match tx.amount.checked_add(&tx.fee) {
                        None => {
                            proof {
                                U256::lemma_view_bound(sender.balance);
                                assert(!sim_ok(pre_led, t));
                            }
                        },
                        Some(cost) => {
                            match sender.balance.checked_sub(&cost) {
                                None => {
                                    proof {
                                        assert(!sim_ok(pre_led, t));
                                    }
                                },
                                Some(rest) => {
                                    out.push(tx.duplicate());
                                    work.insert(
                                        clone_bytes(&tx.public_key_from),
                                        crate::ledger::AccountState {
                                            balance: rest,
                                            nonce: tx.nonce + 1,
                                        },
                                    );
                                    proof {
                                        assert(sim_ok(pre_led, t));
                                        assert(work@ == sim_apply(pre_led, t));
                                        assert(tx_views(out@) =~= pre_out.push(t));
                                        assert(pre_out.push(t) =~= pre_out + seq![t]);
                                        assert(tx_views(out@) + select_valid(
                                            work@,
                                            tv.skip(i + 1 as int),
                                        ) =~= pre_out + (seq![t] + select_valid(
                                            work@,
                                            tv.skip(i + 1 as int),
                                        )));
                                    }
                                },
                            }
                        },
                    }
                }
            },
        }
        i = i + 1;
    }
    proof {
        assert(tv.skip(txs@.len() as int) =~= Seq::<TxView>::empty());
        assert(tx_views(out@) + Seq::<TxView>::empty() =~= tx_views(out@));
    }
    out
}

/// Inserting after every strictly-higher-fee entry keeps the pool ordered,
/// and an all-signed pool stays all-signed.
proof fn lemma_mempool_insert(pool0: Seq<TxView>, t: TxView, idx: int)
    requires
        sorted_by_fee_desc(pool0),
        0 <= idx <= pool0.len(),
        forall|j: int| 0 <= j < idx ==> pool0[j].fee > t.fee,
        forall|j: int| idx <= j < pool0.len() ==> pool0[j].fee <= t.fee,
        forall|j: int| 0 <= j < pool0.len() ==> tx_signed(#[trigger] pool0[j]),
        tx_signed(t),
    ensures
        sorted_by_fee_desc(pool0.insert(idx, t)),
        forall|j: int|
            0 <= j < pool0.insert(idx, t).len() ==> tx_signed(#[trigger] pool0.insert(idx, t)[j]),
{
    let np = pool0.insert(idx, t);
    assert forall|a: int, b: int| 0 <= a < b < np.len() implies np[a].fee >= np[b].fee by {
        if b < idx {
            assert(np[a] == pool0[a] && np[b] == pool0[b]);
        } else if a > idx {
            assert(np[a] == pool0[a - 1] && np[b] == pool0[b - 1]);
        } else if a == idx && b > idx {
            assert(np[a] == t && np[b] == pool0[b - 1]);
        } else if b == idx {
            assert(np[a] == pool0[a] && np[b] == t);
        } else {
            assert(np[a] == pool0[a] && np[b] == pool0[b - 1]);
        }
    }
    assert forall|j: int| 0 <= j < np.len() implies tx_signed(#[trigger] np[j]) by {
        if j < idx {
            assert(np[j] == pool0[j]);
        } else if j > idx {
            assert(np[j] == pool0[j - 1]);
        } else {
            assert(np[j] == t);
        }
    }
}



/// What one transaction offer does to the shared chain's ledger: the
/// sender's account comes into being if the signature verifies.
pub open spec fn chain_admit_effect(
    pre: Blockchain,
    post: Blockchain,
    t: TxView,
    sig: Seq<u8>,
) -> bool {
    &&& post == (Blockchain { accounts: post.accounts, ..pre })
    &&& post.ledger() == (if sig_verifies(t.public_key_from, fingerprint(t), sig)
        && !pre.ledger().contains_key(t.public_key_from) {
        pre.ledger().insert(
            t.public_key_from,
            AccountView { balance: 0, nonce: 0 },
        )
    } else {
        pre.ledger()
    })
}

/// What one admission offer does to a peer and the shared chain: exactly
/// the admission contract.
pub open spec fn admit_step(
    pre: Miner,
    post: Miner,
    pre_c: Blockchain,
    post_c: Blockchain,
    t: TxView,
    sig: Seq<u8>,
) -> bool {
    &&& post.account_keys == pre.account_keys
    &&& post.connected_peers == pre.connected_peers
    &&& post.pool() == (if admits(pre.pool(), pre_c.ledger(), t, sig) {
        pre.pool().insert(count_gt_fee(pre.pool(), t.fee) as int, t)
    } else {
        pre.pool()
    })
    &&& chain_admit_effect(pre_c, post_c, t, sig)
}

/// The peers and the chain after a transaction was offered to each listed
/// peer in order.
pub open spec fn tx_gossip_outcome(
    pres: Seq<Miner>,
    posts: Seq<Miner>,
    t: TxView,
    sig: Seq<u8>,
    pre_c: Blockchain,
    post_c: Blockchain,
) -> bool
    decreases pres.len(),
{
    if pres.len() != posts.len() {
        false
    } else if pres.len() == 0 {
        post_c == pre_c
    } else {
        exists|mid: Blockchain|
            {
                &&& #[trigger] admit_step(pres.first(), posts.first(), pre_c, mid, t, sig)
                &&& posts.first().mempool_wf()
                &&& tx_gossip_outcome(pres.drop_first(), posts.drop_first(), t, sig, mid, post_c)
            }
    }
}

impl Miner {
    /// Every connected peer has a well-formed mempool.
    pub open spec fn peers_wf(self) -> bool {
        forall|j: int|
            0 <= j < self.connected_peers@.len() ==> (#[trigger] self.connected_peers@[j]).mempool_wf()
    }

    /// Offers an admitted transaction to every connected peer, in order;
    /// each runs the same admission against its own pool and the shared
    /// chain. Peers do not gossip further, so the fan-out terminates.
    pub fn broadcast_transaction(
        &mut self,
        transaction: &Transaction,
        signature: &Vec<u8>,
        blockchain: &mut Blockchain,
    )
        requires
            old(self).peers_wf(),
        ensures
            final(self).mempool == old(self).mempool,
            final(self).account_keys == old(self).account_keys,
            final(self).peers_wf(),
            tx_gossip_outcome(
                old(self).connected_peers@,
                final(self).connected_peers@,
                transaction@,
                signature@,
                *old(blockchain),
                *final(blockchain),
            ),
    {
        let ghost pres = old(self).connected_peers@;
        let ghost t = transaction@;
        let mut i: usize = 0;
        proof {
            assert(pres.skip(0) =~= pres);
        }
        while i < self.connected_peers.len()
            invariant
                i <= self.connected_peers@.len(),
                t == transaction@,
                pres == old(self).connected_peers@,
                self.connected_peers@.len() == pres.len(),
                self.mempool == old(self).mempool,
                self.account_keys == old(self).account_keys,
                forall|j: int|
                    i <= j < pres.len() ==> self.connected_peers@[j] == #[trigger] pres[j],
                forall|j: int|
                    0 <= j < pres.len() ==> (#[trigger] self.connected_peers@[j]).mempool_wf(),
                forall|fin_c: Blockchain, post_suffix: Seq<Miner>|
                    tx_gossip_outcome(
                        pres.skip(i as int),
                        post_suffix,
                        t,
                        signature@,
                        *blockchain,
                        fin_c,
                    ) ==> #[trigger] tx_gossip_outcome(
                        pres,
                        self.connected_peers@.take(i as int) + post_suffix,
                        t,
                        signature@,
                        *old(blockchain),
                        fin_c,
                    ),
            decreases pres.len() - i,
        {
            let ghost cur_c = *blockchain;
            let ghost peers_before = self.connected_peers@;
            let peer = &mut self.connected_peers[i];
            let ghost peer_pre = *peer;
            peer.add_transaction_to_mempool(transaction.duplicate(), signature, blockchain);
            proof {
                let ghost peer_post = self.connected_peers@[i as int];
                assert(peer_pre == pres[i as int]);
                assert(admit_step(pres[i as int], peer_post, cur_c, *blockchain, t, signature@));
                assert forall|fin_c: Blockchain, post_suffix: Seq<Miner>|
                    tx_gossip_outcome(
                        pres.skip(i + 1 as int),
                        post_suffix,
                        t,
                        signature@,
                        *blockchain,
                        fin_c,
                    ) implies #[trigger] tx_gossip_outcome(
                    pres,
                    self.connected_peers@.take(i + 1 as int) + post_suffix,
                    t,
                    signature@,
                    *old(blockchain),
                    fin_c,
                ) by {
                    let tail = pres.skip(i as int);
                    assert(tail.first() == pres[i as int]);
                    assert(tail.drop_first() =~= pres.skip(i + 1 as int));
                    let posts_here = seq![peer_post] + post_suffix;
                    assert(posts_here.first() == peer_post);
                    assert(posts_here.drop_first() =~= post_suffix);
                    assert(tx_gossip_outcome(tail, posts_here, t, signature@, cur_c, fin_c));
                    assert(self.connected_peers@.take(i + 1 as int) + post_suffix
                        =~= self.connected_peers@.take(i as int) + posts_here);
                    assert(peers_before.take(i as int) =~= self.connected_peers@.take(i as int));
                }
            }
            i = i + 1;
        }
        proof {
            assert(pres.skip(pres.len() as int) =~= Seq::<Miner>::empty());
            assert(tx_gossip_outcome(
                pres.skip(pres.len() as int),
                Seq::<Miner>::empty(),
                t,
                signature@,
                *blockchain,
                *blockchain,
            ));
            assert(self.connected_peers@.take(pres.len() as int) + Seq::<Miner>::empty()
                =~= self.connected_peers@);
        }
    }

    /// Receives a submitted transaction: admits it into this miner's own
    /// pool, and, exactly when it was admitted, gossips it to every
    /// connected peer.
    pub fn on_transaction_receive(
        &mut self,
        transaction: Transaction,
        signature: &Vec<u8>,
        blockchain: &mut Blockchain,
    )
        requires
            old(self).mempool_wf(),
            old(self).peers_wf(),
        ensures
            final(self).mempool_wf(),
            final(self).peers_wf(),
            final(self).account_keys == old(self).account_keys,
            final(self).pool() == (if admits(
                old(self).pool(),
                old(blockchain).ledger(),
                transaction@,
                signature@,
            ) {
                old(self).pool().insert(
                    count_gt_fee(old(self).pool(), transaction@.fee) as int,
                    transaction@,
                )
            } else {
                old(self).pool()
            }),
            (if admits(old(self).pool(), old(blockchain).ledger(), transaction@, signature@) {
                exists|mid: Blockchain|
                    {
                        &&& #[trigger] chain_admit_effect(
                            *old(blockchain),
                            mid,
                            transaction@,
                            signature@,
                        )
                        &&& tx_gossip_outcome(
                            old(self).connected_peers@,
                            final(self).connected_peers@,
                            transaction@,
                            signature@,
                            mid,
                            *final(blockchain),
                        )
                    }
            } else {
                final(self).connected_peers == old(self).connected_peers
                    && chain_admit_effect(
                    *old(blockchain),
                    *final(blockchain),
                    transaction@,
                    signature@,
                )
            }),
    {
        let ghost t = transaction@;
        let len_before = self.mempool.len();
        let copy = transaction.duplicate();
        self.add_transaction_to_mempool(transaction, signature, blockchain);
        let ghost mid_c = *blockchain;
        let admitted = self.mempool.len() != len_before;
        proof {
            assert(self.pool().len() == self.mempool@.len());
            assert(old(self).pool().len() == len_before);
            if admits(old(self).pool(), old(blockchain).ledger(), t, signature@) {
                lemma_count_gt_fee_le_len(old(self).pool(), t.fee);
                assert(self.pool().len() == old(self).pool().len() + 1);
            } else {
                assert(self.pool().len() == old(self).pool().len());
            }
            assert(admitted == admits(
                old(self).pool(),
                old(blockchain).ledger(),
                t,
                signature@,
            ));
        }
        if admitted {
            self.broadcast_transaction(&copy, signature, blockchain);
            proof {
                assert(chain_admit_effect(*old(blockchain), mid_c, t, signature@));
            }
        }
    }
}

/// What a receiving node checks before handing a gossiped block to its
/// chain: the Merkle commitment, and the proof of work against the
/// receiver's current target (skipped for a genesis successor).
pub open spec fn validate_ok(pre: Blockchain, b: crate::block::BlockView) -> bool {
    &&& b.transactions.len() > 0
    &&& b.header.merkle_root == crate::block::block_merkle_root(b.transactions)
    &&& (b.header.prev_hash == crate::chain::no_hash() || hex_val(
        crate::block::header_digest(b.header),
    ) <= pre.difficulty@)
}

/// What one offered block does to a chain: nothing when validation fails,
/// else exactly an `add_block` step.
pub open spec fn offered_post(
    pre: Blockchain,
    post: Blockchain,
    b: crate::block::BlockView,
    pk: Seq<u8>,
) -> bool {
    if validate_ok(pre, b) {
        exists|r: bool| Blockchain::add_block_post(pre, post, b, pk, r)
    } else {
        post == pre
    }
}

pub open spec fn informed_view(c: Blockchain) -> Map<Seq<u8>, Seq<Seq<u8>>> {
    c.hash_to_miners_who_received_the_block@
}

/// Equality of everything a gossip round leaves alone.
pub open spec fn chain_same_except_informed(a: Blockchain, b: Blockchain) -> bool {
    &&& b.hash_to_block == a.hash_to_block
    &&& b.hash_to_miner == a.hash_to_miner
    &&& b.block_parent_map == a.block_parent_map
    &&& b.hash_to_cumulative_difficulty == a.hash_to_cumulative_difficulty
    &&& b.difficulty == a.difficulty
    &&& b.target_duration_between_blocks == a.target_duration_between_blocks
    &&& b.max_transactions_per_block == a.max_transactions_per_block
    &&& b.blocks_between_difficulty_adjustment == a.blocks_between_difficulty_adjustment
    &&& b.accounts == a.accounts
    &&& b.mining_reward == a.mining_reward
    &&& b.current_longest_chain_latest_block_hash == a.current_longest_chain_latest_block_hash
    &&& b.depths == a.depths
}

/// The chain after each peer, in order, was offered the block, peers
/// already on the informed list skipped.
pub open spec fn gossip_outcome(
    peers: Seq<Miner>,
    informed: Seq<Seq<u8>>,
    b: crate::block::BlockView,
    pre: Blockchain,
    post: Blockchain,
) -> bool
    decreases peers.len(),
{
    if peers.len() == 0 {
        post == pre
    } else if informed.contains(peers.first().account_keys.spec_public_key()) {
        gossip_outcome(peers.drop_first(), informed, b, pre, post)
    } else {
        exists|mid: Blockchain|
            {
                &&& #[trigger] offered_post(pre, mid, b, peers.first().account_keys.spec_public_key())
                &&& mid.wf()
                &&& gossip_outcome(peers.drop_first(), informed, b, mid, post)
            }
    }
}

/// A whole broadcast: the sender joins the block's informed list, then
/// every connected peer not on that list is offered the block in order.
pub open spec fn broadcast_post(
    m: Miner,
    pre: Blockchain,
    post: Blockchain,
    b: crate::block::BlockView,
) -> bool {
    let h = crate::block::header_digest(b.header);
    let informed = (if informed_view(pre).contains_key(h) {
        informed_view(pre)[h]
    } else {
        Seq::<Seq<u8>>::empty()
    }).push(m.account_keys.spec_public_key());
    exists|start: Blockchain|
        {
            &&& #[trigger] chain_same_except_informed(pre, start)
            &&& informed_view(start) == informed_view(pre).insert(h, informed)
            &&& gossip_outcome(m.connected_peers@, informed, b, start, post)
        }
}

/// Well-formedness does not look at the informed lists.
proof fn lemma_wf_ignores_informed(a: Blockchain, b: Blockchain)
    requires
        a.wf(),
        chain_same_except_informed(a, b),
    ensures
        b.wf(),
{
    assert(b.blocks() == a.blocks());
    assert(b.parents() == a.parents());
    assert(b.miners() == a.miners());
    assert(b.cums() == a.cums());
    assert(b.tip() == a.tip());
    assert(b.depths@ == a.depths@);
    assert forall|h: Seq<u8>| #[trigger] b.blocks().contains_key(h) implies b.block_entry_wf(
        h,
    ) by {
        assert(a.blocks().contains_key(h));
        assert(a.block_entry_wf(h));
    }
}

impl Miner {
    /// A fresh miner with an empty mempool and a new key pair, registered
    /// as an account on the chain.
    pub fn new(blockchain: &mut Blockchain) -> (r: Miner)
        ensures
            r.mempool_wf(),
            r.pool() == Seq::<TxView>::empty(),
            r.connected_peers@.len() == 0,
            *final(blockchain) == (Blockchain {
                accounts: final(blockchain).accounts,
                ..*old(blockchain)
            }),
            final(blockchain).ledger() == old(blockchain).ledger().insert(
                r.account_keys.spec_public_key(),
                AccountView { balance: 0, nonce: 0 },
            ),
    {
        let account_keys = AccountKeys::new();
        let miner = Miner { mempool: Vec::new(), account_keys, connected_peers: Vec::new() };
        let pk = miner.account_keys.get_public_key();
        blockchain.create_account(&pk);
        proof {
            assert(miner.pool() =~= Seq::<TxView>::empty());
        }
        miner
    }

    /// A copy with the same pool, keys and peers.
    pub fn duplicate(&self) -> (r: Miner)
        ensures
            r.pool() == self.pool(),
            r.account_keys.spec_public_key() == self.account_keys.spec_public_key(),
            r.account_keys.wf() == self.account_keys.wf(),
            self.mempool_wf() ==> r.mempool_wf(),
        decreases *self,
    {
        let mempool = crate::block::clone_transactions(&self.mempool);
        let account_keys = self.account_keys.duplicate();
        let mut connected_peers: Vec<Miner> = Vec::new();
        let mut i: usize = 0;
        while i < self.connected_peers.len()
            invariant
                i <= self.connected_peers@.len(),
            decreases self.connected_peers@.len() - i,
        {
            connected_peers.push(self.connected_peers[i].duplicate());
            i = i + 1;
        }
        let r = Miner { mempool, account_keys, connected_peers };
        proof {
            assert(r.pool() =~= self.pool());
        }
        r
    }

    fn validate_block(&self, block: &Block, blockchain: &Blockchain) -> (r: bool)
        ensures
            r == validate_ok(*blockchain, block@),
    {
        if block.transactions.len() == 0 {
            return false;
        }
        let tree = crate::block::MerkleTree::build_tree(&block.transactions);
        let recomputed: Vec<u8> = match tree.root {
            Some(n) => n.value,
            None => {
                proof {
                    assert(false);
                }
                Vec::new()
            },
        };
        if !crate::encoding::bytes_eq(&block.header.merkle_root, &recomputed) {
            return false;
        }
        if block.header.prev_hash.len() == 0 {
            proof {
                assert(block@.header.prev_hash =~= crate::chain::no_hash());
            }
            return true;
        }
        let block_hash = Block::hash_header(&block.header);
        let digest_val = U256::from_hex_64(&block_hash);
        digest_val.le(&blockchain.difficulty)
    }

    /// Validates an incoming block and, when it passes, hands it to the
    /// chain's acceptance.
    pub fn add_block_to_blockchain(&self, block: Block, blockchain: &mut Blockchain)
        requires
            old(blockchain).wf(),
        ensures
            final(blockchain).wf(),
            offered_post(
                *old(blockchain),
                *final(blockchain),
                block@,
                self.account_keys.spec_public_key(),
            ),
    {
        if !self.validate_block(&block, blockchain) {
            return ;
        }
        let pk = self.account_keys.get_public_key();
        let ghost b = block@;
        let added = blockchain.add_block(block, pk);
        proof {
            assert(Blockchain::add_block_post(
                *old(blockchain),
                *blockchain,
                b,
                self.account_keys.spec_public_key(),
                added,
            ));
        }
    }

    /// Registers a peer, unless it would be this miner itself.
    pub fn _add_connected_peer(&mut self, connected_peer: Miner) -> (r: bool)
        ensures
            r == (connected_peer.account_keys.spec_public_key()
                != old(self).account_keys.spec_public_key()),
            r ==> final(self).connected_peers@ == old(self).connected_peers@.push(connected_peer)
                && final(self).mempool == old(self).mempool && final(self).account_keys == old(
                self,
            ).account_keys,
            !r ==> *final(self) == *old(self),
    {
        let my_pk = self.account_keys.get_public_key();
        let their_pk = connected_peer.account_keys.get_public_key();
        if crate::encoding::bytes_eq(&my_pk, &their_pk) {
            return false;
        }
        self.connected_peers.push(connected_peer);
        true
    }

    /// Records this miner on the block's informed list, then offers the
    /// block to every connected peer not already on that list.
    pub fn broadcast_block(&self, block: Block, blockchain: &mut Blockchain)
        requires
            old(blockchain).wf(),
        ensures
            final(blockchain).wf(),
            broadcast_post(*self, *old(blockchain), *final(blockchain), block@),
    {
        let ghost b = block@;
        let block_hash = Block::hash_header(&block.header);
        let mut informed: crate::chain::PeerSet = match blockchain
            .hash_to_miners_who_received_the_block
            .get(&block_hash) {
            Some(ps) => ps.duplicate(),
            None => crate::chain::PeerSet::new(),
        };
        informed.add_peer(self.account_keys.get_public_key());
        let ghost informed_v = informed@;
        blockchain.hash_to_miners_who_received_the_block.insert(
            clone_bytes(&block_hash),
            informed.duplicate(),
        );
        let ghost start = *blockchain;
        proof {
            assert(chain_same_except_informed(*old(blockchain), start));
            lemma_wf_ignores_informed(*old(blockchain), start);
            assert(self.connected_peers@.skip(0) =~= self.connected_peers@);
        }
        let mut i: usize = 0;
        while i < self.connected_peers.len()
            invariant
                i <= self.connected_peers@.len(),
                blockchain.wf(),
                b == block@,
                informed_v == informed@,
                start.wf(),
                chain_same_except_informed(*old(blockchain), start),
                informed_view(start) == informed_view(*old(blockchain)).insert(
                    crate::block::header_digest(b.header),
                    informed_v,
                ),
                informed_v == (if informed_view(*old(blockchain)).contains_key(
                    crate::block::header_digest(b.header),
                ) {
                    informed_view(*old(blockchain))[crate::block::header_digest(b.header)]
                } else {
                    Seq::<Seq<u8>>::empty()
                }).push(self.account_keys.spec_public_key()),
                forall|fin: Blockchain|
                    gossip_outcome(
                        self.connected_peers@.skip(i as int),
                        informed_v,
                        b,
                        *blockchain,
                        fin,
                    ) ==> #[trigger] gossip_outcome(
                        self.connected_peers@,
                        informed_v,
                        b,
                        start,
                        fin,
                    ),
            decreases self.connected_peers@.len() - i,
        {
            let ghost cur = *blockchain;
            let ghost tail = self.connected_peers@.skip(i as int);
            proof {
                assert(tail.first() == self.connected_peers@[i as int]);
                assert(tail.drop_first() =~= self.connected_peers@.skip(i + 1 as int));
            }
            let peer = &self.connected_peers[i];
            let pk = peer.account_keys.get_public_key();
            if informed.contains_peer(&pk) {
                proof {
                    assert forall|fin: Blockchain|
                        gossip_outcome(
                            self.connected_peers@.skip(i + 1 as int),
                            informed_v,
                            b,
                            *blockchain,
                            fin,
                        ) implies #[trigger] gossip_outcome(
                        self.connected_peers@,
                        informed_v,
                        b,
                        start,
                        fin,
                    ) by {
                        assert(gossip_outcome(tail, informed_v, b, cur, fin));
                    }
                }
            } else {
                peer.add_block_to_blockchain(block.duplicate(), blockchain);
                proof {
                    assert forall|fin: Blockchain|
                        gossip_outcome(
                            self.connected_peers@.skip(i + 1 as int),
                            informed_v,
                            b,
                            *blockchain,
                            fin,
                        ) implies #[trigger] gossip_outcome(
                        self.connected_peers@,
                        informed_v,
                        b,
                        start,
                        fin,
                    ) by {
                        assert(offered_post(
                            cur,
                            *blockchain,
                            b,
                            tail.first().account_keys.spec_public_key(),
                        ));
                        assert(gossip_outcome(tail, informed_v, b, cur, fin));
                    }
                }
            }
            i = i + 1;
        }
        proof {
            assert(self.connected_peers@.skip(self.connected_peers@.len() as int) =~= Seq::<
                Miner,
            >::empty());
            assert(gossip_outcome(
                self.connected_peers@.skip(self.connected_peers@.len() as int),
                informed_v,
                b,
                *blockchain,
                *blockchain,
            ));
            assert(gossip_outcome(self.connected_peers@, informed_v, b, start, *blockchain));
        }
    }
}

/// Relies on std::time::SystemTime::now and duration_since: the wall-clock
/// seconds since the Unix epoch, or nothing when the clock reads before the
/// epoch. No two calls need agree.
#[verifier::external_body]
fn now_unix_seconds() -> Option<u64> {
    match std::time::SystemTime::now().duration_since(std::time::SystemTime::UNIX_EPOCH) {
        Ok(d) => Some(d.as_secs()),
        Err(_) => None,
    }
}

proof fn lemma_insert_by_nonce_len(t: TxView, s: Seq<TxView>)
    ensures
        insert_by_nonce(t, s).len() == s.len() + 1,
    decreases s.len(),
{
    if s.len() > 0 && s.first().nonce <= t.nonce {
        lemma_insert_by_nonce_len(t, s.drop_first());
    }
}

proof fn lemma_sort_by_nonce_len(s: Seq<TxView>)
    ensures
        sort_by_nonce(s).len() == s.len(),
    decreases s.len(),
{
    if s.len() > 0 {
        lemma_sort_by_nonce_len(s.drop_last());
        lemma_insert_by_nonce_len(s.last(), sort_by_nonce(s.drop_last()));
    }
}

/// What the builder would select from a pool against a ledger.
pub open spec fn built_body(pool: Seq<TxView>, led: Ledger, k: nat) -> Seq<TxView> {
    select_valid(led, sort_by_nonce(pool.take(prefix_len(pool.len(), k) as int)))
}

proof fn lemma_insert_by_nonce_elems(t: TxView, s: Seq<TxView>, x: TxView)
    requires
        insert_by_nonce(t, s).contains(x),
    ensures
        x == t || s.contains(x),
    decreases s.len(),
{
    let r = insert_by_nonce(t, s);
    let j = choose|j: int| 0 <= j < r.len() && r[j] == x;
    if s.len() == 0 {
        assert(r == seq![t]);
    } else if s.first().nonce <= t.nonce {
        if j == 0 {
            assert(s[0] == x);
        } else {
            assert(insert_by_nonce(t, s.drop_first())[j - 1] == x);
            assert(insert_by_nonce(t, s.drop_first()).contains(x));
            lemma_insert_by_nonce_elems(t, s.drop_first(), x);
            if x != t {
                let i = choose|i: int|
                    0 <= i < s.drop_first().len() && s.drop_first()[i] == x;
                assert(s[i + 1] == x);
            }
        }
    } else {
        if j == 0 {
        } else {
            assert(s[j - 1] == x);
        }
    }
}

proof fn lemma_sort_elems(s: Seq<TxView>, x: TxView)
    requires
        sort_by_nonce(s).contains(x),
    ensures
        s.contains(x),
    decreases s.len(),
{
    if s.len() > 0 {
        lemma_insert_by_nonce_elems(s.last(), sort_by_nonce(s.drop_last()), x);
        if x == s.last() {
            assert(s[s.len() - 1] == x);
        } else {
            lemma_sort_elems(s.drop_last(), x);
            let i = choose|i: int| 0 <= i < s.drop_last().len() && s.drop_last()[i] == x;
            assert(s[i] == x);
        }
    }
}

proof fn lemma_select_elems(led: Ledger, s: Seq<TxView>, x: TxView)
    requires
        select_valid(led, s).contains(x),
    ensures
        s.contains(x),
    decreases s.len(),
{
    if s.len() > 0 {
        if sim_ok(led, s.first()) {
            let r = select_valid(led, s);
            let j = choose|j: int| 0 <= j < r.len() && r[j] == x;
            if j == 0 {
                assert(s[0] == x);
            } else {
                assert(select_valid(sim_apply(led, s.first()), s.drop_first())[j - 1] == x);
                assert(select_valid(sim_apply(led, s.first()), s.drop_first()).contains(x));
                lemma_select_elems(sim_apply(led, s.first()), s.drop_first(), x);
                let i = choose|i: int|
                    0 <= i < s.drop_first().len() && s.drop_first()[i] == x;
                assert(s[i + 1] == x);
            }
        } else {
            lemma_select_elems(led, s.drop_first(), x);
            let i = choose|i: int| 0 <= i < s.drop_first().len() && s.drop_first()[i] == x;
            assert(s[i + 1] == x);
        }
    }
}

/// Every transaction the block builder draws from an all-signed pool
/// carries a verifying signature over its fingerprint: blocks assembled
/// here commit only signed payments, whatever the ledger and capacity.
pub proof fn lemma_built_body_signed(pool: Seq<TxView>, led: Ledger, k: nat)
    requires
        forall|j: int| 0 <= j < pool.len() ==> tx_signed(#[trigger] pool[j]),
    ensures
        forall|i: int|
            0 <= i < built_body(pool, led, k).len() ==> tx_signed(
                #[trigger] built_body(pool, led, k)[i],
            ),
{
    let prefix = pool.take(prefix_len(pool.len(), k) as int);
    assert forall|i: int| 0 <= i < built_body(pool, led, k).len() implies tx_signed(
        #[trigger] built_body(pool, led, k)[i],
    ) by {
        let x = built_body(pool, led, k)[i];
        assert(built_body(pool, led, k).contains(x));
        lemma_select_elems(led, sort_by_nonce(prefix), x);
        lemma_sort_elems(prefix, x);
        let j = choose|j: int| 0 <= j < prefix.len() && prefix[j] == x;
        assert(pool[j] == x);
    }
}

impl Miner {
    /// Builds the candidate body from the highest-fee pool prefix sorted by
    /// nonce and filtered by simulation, searches for a header meeting the
    /// current target, submits it to the chain, trims the pool by the
    /// number of selected transactions on acceptance, and gossips the new
    /// block to connected peers.
    #[verifier::rlimit(100)]
    pub fn compute_next_block(
        &mut self,
        blockchain: &mut Blockchain,
        parent_block_hash: Vec<u8>,
    ) -> (r: Option<Vec<u8>>)
        requires
            old(self).mempool_wf(),
            old(blockchain).wf(),
        ensures
            final(self).mempool_wf(),
            final(blockchain).wf(),
            final(self).account_keys == old(self).account_keys,
            final(self).connected_peers == old(self).connected_peers,
            ({
                let selected = built_body(
                    old(self).pool(),
                    old(blockchain).ledger(),
                    old(blockchain).max_transactions_per_block as nat,
                );
                match r {
                    Some(h) => exists|bv: crate::block::BlockView, mid: Blockchain|
                        {
                            &&& bv.transactions == selected
                            &&& bv.header.prev_hash == parent_block_hash@
                            &&& bv.header.difficulty == 0
                            &&& (selected.len() > 0 ==> bv.header.merkle_root
                                == crate::block::block_merkle_root(selected))
                            &&& h@ == crate::block::header_digest(bv.header)
                            &&& hex_val(crate::block::header_digest(bv.header)) <= old(
                                blockchain,
                            ).difficulty@
                            &&& #[trigger] Blockchain::add_block_post(
                                *old(blockchain),
                                mid,
                                bv,
                                old(self).account_keys.spec_public_key(),
                                true,
                            )
                            &&& mid.wf()
                            &&& broadcast_post(*final(self), mid, *final(blockchain), bv)
                            &&& final(self).pool() == old(self).pool().skip(selected.len() as int)
                        },
                    None => {
                        &&& *final(self) == *old(self)
                        &&& *final(blockchain) == *old(blockchain)
                    },
                }
            }),
    {
        let ghost pool0 = self.pool();
        let ghost led0 = blockchain.ledger();
        let ghost kk = blockchain.max_transactions_per_block as nat;
        let max_transaction_count_in_block: usize = blockchain.max_transactions_per_block;
        let pool_len = self.mempool.len();
        let take_n: usize = if pool_len > max_transaction_count_in_block {
            if max_transaction_count_in_block >= 1 {
                max_transaction_count_in_block - 1
            } else {
                0
            }
        } else {
            pool_len
        };
        proof {
            assert(take_n as nat == prefix_len(pool0.len(), kk));
        }
        let mut prefix_txs: Vec<Transaction> = Vec::new();
        let mut i: usize = 0;
        proof {
            assert(tx_views(prefix_txs@) =~= pool0.take(0));
        }
        while i < take_n
            invariant
                i <= take_n,
                take_n <= self.mempool@.len(),
                *self == *old(self),
                *blockchain == *old(blockchain),
                pool0 == self.pool(),
                tx_views(prefix_txs@) == pool0.take(i as int),
            decreases take_n - i,
        {
            let ghost pre = tx_views(prefix_txs@);
            prefix_txs.push(self.mempool[i].duplicate());
            proof {
                assert(tx_views(prefix_txs@) =~= pre.push(pool0[i as int]));
                assert(pool0.take(i + 1 as int) =~= pool0.take(i as int).push(pool0[i as int]));
            }
            i = i + 1;
        }
        let sorted = sort_transactions_by_nonce(&prefix_txs);
        let selected = select_transactions(&blockchain.accounts, &sorted);
        let transaction_count = selected.len();
        let ghost sel_v = tx_views(selected@);
        proof {
            assert(sel_v == built_body(pool0, led0, kk));
            lemma_sort_by_nonce_len(tx_views(prefix_txs@));
            assert(transaction_count as nat <= pool0.len());
        }
        let timestamp: u64 = match now_unix_seconds() {
            Some(t) => t,
            None => {
                return None;
            },
        };
        let mut block = Block::create_block(1, timestamp, parent_block_hash, &selected);
        let ghost parent_v = block@.header.prev_hash;
        let mut attempts: u64 = 0;
        let mut mined = false;
        while !mined && attempts < 0xffff_ffff_ffff_ffff
            invariant
                *self == *old(self),
                *blockchain == *old(blockchain),
                pool0 == self.pool(),
                sel_v == tx_views(selected@),
                block@.transactions == sel_v,
                block@.header.prev_hash == parent_v,
                block@.header.difficulty == 0,
                sel_v.len() > 0 ==> block@.header.merkle_root == crate::block::block_merkle_root(
                    sel_v,
                ),
                mined ==> hex_val(crate::block::header_digest(block@.header))
                    <= blockchain.difficulty@,
            decreases 0xffff_ffff_ffff_ffffu64 - attempts, (if mined {
                0int
            } else {
                1int
            }),
        {
            let digest = Block::hash_header(&block.header);
            let digest_val = U256::from_hex_64(&digest);
            if digest_val.le(&blockchain.difficulty) {
                mined = true;
            } else {
                block.header.nonce = if block.header.nonce == 0xffff_ffff_ffff_ffff {
                    0
                } else {
                    block.header.nonce + 1
                };
                match now_unix_seconds() {
                    Some(t) => {
                        block.header.timestamp = t;
                    },
                    None => {
                    },
                }
                attempts = attempts + 1;
            }
        }
        if !mined {
            return None;
        }
        let result_hash = Block::hash_header(&block.header);
        let ghost bv = block@;
        let to_store = block.duplicate();
        let pk = self.account_keys.get_public_key();
        let added = blockchain.add_block(to_store, pk);
        if !added {
            proof {
                assert(Blockchain::add_block_post(
                    *old(blockchain),
                    *blockchain,
                    bv,
                    old(self).account_keys.spec_public_key(),
                    false,
                ));
                assert(*blockchain == *old(blockchain));
            }
            return None;
        }
        let ghost mid = *blockchain;
        let mut new_pool: Vec<Transaction> = Vec::new();
        let mut j: usize = transaction_count;
        proof {
            assert(tx_views(new_pool@) =~= pool0.subrange(
                transaction_count as int,
                transaction_count as int,
            ));
        }
        while j < self.mempool.len()
            invariant
                transaction_count <= j <= self.mempool@.len(),
                *self == *old(self),
                pool0 == self.pool(),
                tx_views(new_pool@) == pool0.subrange(transaction_count as int, j as int),
            decreases self.mempool@.len() - j,
        {
            let ghost pre = tx_views(new_pool@);
            new_pool.push(self.mempool[j].duplicate());
            proof {
                assert(tx_views(new_pool@) =~= pre.push(pool0[j as int]));
                assert(pool0.subrange(transaction_count as int, j + 1 as int) =~= pool0.subrange(
                    transaction_count as int,
                    j as int,
                ).push(pool0[j as int]));
            }
            j = j + 1;
        }
        self.mempool = new_pool;
        proof {
            assert(self.pool() =~= pool0.skip(transaction_count as int));
            assert(sorted_by_fee_desc(self.pool())) by {
                assert forall|a: int, b: int| 0 <= a < b < self.pool().len() implies self.pool().index(
                    a,
                ).fee >= self.pool().index(b).fee by {
                    assert(self.pool()[a] == pool0[a + transaction_count]);
                    assert(self.pool()[b] == pool0[b + transaction_count]);
                }
            }
            assert forall|a: int| 0 <= a < self.pool().len() implies tx_signed(
                #[trigger] self.pool()[a],
            ) by {
                assert(self.pool()[a] == pool0[a + transaction_count]);
                assert(tx_signed(pool0[a + transaction_count]));
            }
        }
        self.broadcast_block(block, blockchain);
        proof {
            assert(bv.transactions == sel_v);
            assert(result_hash@ == crate::block::header_digest(bv.header));
        }
        Some(result_hash)
    }
}
} // verus!
