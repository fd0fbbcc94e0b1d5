//! The in-process miner network: transaction submission and block fan-out
//! between miners sharing a chain state, plus the wire form of a block.
use vstd::prelude::*;
use crate::chain::Blockchain;
use crate::miner::Miner;
use crate::miner::gossip_outcome;
use crate::miner::admits;
use crate::miner::count_gt_fee;
use crate::u256::U256;
use crate::block::Block;
use crate::block::Header;
use crate::transaction::Transaction;
use crate::transaction::fingerprint;
use crate::crypto::sig_verifies;
use crate::ledger::AccountView;

verus! {

pub struct Network {
    pub miners: Vec<Miner>,
}

impl Network {
    pub fn new() -> (r: Network)
        ensures
            r.miners@.len() == 0,
    {
        Network { miners: Vec::new() }
    }

    pub fn add_miner(&mut self, miner: Miner)
        ensures
            final(self).miners@ == old(self).miners@.push(miner),
    {
        self.miners.push(miner);
    }

    /// Hands a submitted transaction to the receiving miner's admission.
    pub fn send_transaction(
        &mut self,
        transaction: Transaction,
        signature: &Vec<u8>,
        connected_miner: &mut Miner,
        blockchain: &mut Blockchain,
    )
        requires
            old(connected_miner).mempool_wf(),
        ensures
            *final(self) == *old(self),
            final(connected_miner).mempool_wf(),
            final(connected_miner).account_keys == old(connected_miner).account_keys,
            final(connected_miner).pool() == (if admits(
                old(connected_miner).pool(),
                old(blockchain).ledger(),
                transaction@,
                signature@,
            ) {
                old(connected_miner).pool().insert(
                    count_gt_fee(old(connected_miner).pool(), transaction@.fee) as int,
                    transaction@,
                )
            } else {
                old(connected_miner).pool()
            }),
            *final(blockchain) == (Blockchain {
                accounts: final(blockchain).accounts,
                ..*old(blockchain)
            }),
            final(blockchain).ledger() == (if sig_verifies(
                transaction@.public_key_from,
                fingerprint(transaction@),
                signature@,
            ) && !old(blockchain).ledger().contains_key(transaction@.public_key_from) {
                old(blockchain).ledger().insert(
                    transaction@.public_key_from,
                    AccountView { balance: 0, nonce: 0 },
                )
            } else {
                old(blockchain).ledger()
            }),
    {
        connected_miner.add_transaction_to_mempool(transaction, signature, blockchain);
    }

    /// Offers a freshly mined block to every listed miner but its sender,
    /// in order, if the sender is on the list at all.
    pub fn broadcast_block(&self, sender_miner: &Miner, block: Block, blockchain: &mut Blockchain)
        requires
            old(blockchain).wf(),
        ensures
            final(blockchain).wf(),
            ({
                let sender_pk = sender_miner.account_keys.spec_public_key();
                if exists|i: int|
                    0 <= i < self.miners@.len() && (#[trigger] self.miners@[i]).account_keys.spec_public_key()
                        == sender_pk {
                    gossip_outcome(
                        self.miners@,
                        seq![sender_pk],
                        block@,
                        *old(blockchain),
                        *final(blockchain),
                    )
                } else {
                    *final(blockchain) == *old(blockchain)
                }
            }),
    {
        let ghost sender_pk = sender_miner.account_keys.spec_public_key();
        let sender_key = sender_miner.account_keys.get_public_key();
        let mut found = false;
        let mut k: usize = 0;
        while k < self.miners.len()
            invariant
                k <= self.miners@.len(),
                sender_pk == sender_miner.account_keys.spec_public_key(),
                sender_key@ == sender_pk,
                found == exists|i: int|
                    0 <= i < k && (#[trigger] self.miners@[i]).account_keys.spec_public_key()
                        == sender_pk,
            decreases self.miners@.len() - k,
        {
            let pk = self.miners[k].account_keys.get_public_key();
            if crate::encoding::bytes_eq(&pk, &sender_key) {
                found = true;
            }
            proof {
                if !found {
                    assert(forall|i: int|
                        0 <= i < k + 1 ==> (#[trigger] self.miners@[i]).account_keys.spec_public_key()
                            != sender_pk);
                }
            }
            k = k + 1;
        }
        if !found {
            return ;
        }
        self.send_block_to_miners(block, sender_miner, blockchain);
    }

    /// The fan-out itself: each miner other than the sender validates the
    /// block and offers it to the shared chain.
    fn send_block_to_miners(&self, block: Block, sender_miner: &Miner, blockchain: &mut Blockchain)
        requires
            old(blockchain).wf(),
        ensures
            final(blockchain).wf(),
            gossip_outcome(
                self.miners@,
                seq![sender_miner.account_keys.spec_public_key()],
                block@,
                *old(blockchain),
                *final(blockchain),
            ),
    {
        let ghost b = block@;
        let ghost skip_set = seq![sender_miner.account_keys.spec_public_key()];
        let ghost start = *old(blockchain);
        let sender_key = sender_miner.account_keys.get_public_key();
        let mut i: usize = 0;
        proof {
            assert(self.miners@.skip(0) =~= self.miners@);
        }
        while i < self.miners.len()
            invariant
                i <= self.miners@.len(),
                blockchain.wf(),
                b == block@,
                start == *old(blockchain),
                sender_key@ == sender_miner.account_keys.spec_public_key(),
                skip_set == seq![sender_miner.account_keys.spec_public_key()],
                forall|fin: Blockchain|
                    gossip_outcome(
                        self.miners@.skip(i as int),
                        skip_set,
                        b,
                        *blockchain,
                        fin,
                    ) ==> #[trigger] gossip_outcome(self.miners@, skip_set, b, start, fin),
            decreases self.miners@.len() - i,
        {
            let ghost cur = *blockchain;
            let ghost tail = self.miners@.skip(i as int);
            proof {
                assert(tail.first() == self.miners@[i as int]);
                assert(tail.drop_first() =~= self.miners@.skip(i + 1 as int));
            }
            let miner = &self.miners[i];
            let pk = miner.account_keys.get_public_key();
            if crate::encoding::bytes_eq(&pk, &sender_key) {
                proof {
                    assert(skip_set.contains(tail.first().account_keys.spec_public_key())) by {
                        assert(skip_set[0] == tail.first().account_keys.spec_public_key());
                    }
                    assert forall|fin: Blockchain|
                        gossip_outcome(
                            self.miners@.skip(i + 1 as int),
                            skip_set,
                            b,
                            *blockchain,
                            fin,
                        ) implies #[trigger] gossip_outcome(
                        self.miners@,
                        skip_set,
                        b,
                        start,
                        fin,
                    ) by {
                        assert(gossip_outcome(tail, skip_set, b, cur, fin));
                    }
                }
            } else {
                proof {
                    if skip_set.contains(tail.first().account_keys.spec_public_key()) {
                        assert(skip_set[0] == tail.first().account_keys.spec_public_key());
                        assert(false);
                    }
                }
                miner.add_block_to_blockchain(block.duplicate(), blockchain);
                proof {
                    assert forall|fin: Blockchain|
                        gossip_outcome(
                            self.miners@.skip(i + 1 as int),
                            skip_set,
                            b,
                            *blockchain,
                            fin,
                        ) implies #[trigger] gossip_outcome(
                        self.miners@,
                        skip_set,
                        b,
                        start,
                        fin,
                    ) by {
                        assert(crate::miner::offered_post(
                            cur,
                            *blockchain,
                            b,
                            tail.first().account_keys.spec_public_key(),
                        ));
                        assert(gossip_outcome(tail, skip_set, b, cur, fin));
                    }
                }
            }
            i = i + 1;
        }
        proof {
            assert(self.miners@.skip(self.miners@.len() as int) =~= Seq::<Miner>::empty());
            assert(gossip_outcome(
                self.miners@.skip(self.miners@.len() as int),
                skip_set,
                b,
                *blockchain,
                *blockchain,
            ));
        }
    }

    /// The wire form of a block.
    pub fn serialize_block(block: Block) -> (r: Vec<u8>)
        ensures
            r@ == crate::codec::enc_block(block),
    {
        let mut out: Vec<u8> = Vec::new();
        crate::codec::write_block(&mut out, &block);
        proof {
            assert(out@ =~= crate::codec::enc_block(block));
        }
        out
    }
}

/// A block in its wire shape: the header and each payment with its keys as
/// plain bytes.
pub struct ReadyToSerializeBlock {
    pub header: Header,
    pub transactions: Vec<SerializedTransaction>,
}

pub struct SerializedTransaction {
    pub public_key_from: Vec<u8>,
    pub public_key_to: Vec<u8>,
    pub amount: U256,
    pub fee: U256,
    pub nonce: u128,
}

impl ReadyToSerializeBlock {
    pub fn new(block: Block) -> (r: ReadyToSerializeBlock)
        ensures
            r.header@ == block.header@,
            r.transactions@.len() == block.transactions@.len(),
            forall|i: int|
                0 <= i < r.transactions@.len() ==> (#[trigger] r.transactions@[i]).public_key_from@
                    == block.transactions@[i]@.public_key_from
                    && r.transactions@[i].public_key_to@ == block.transactions@[i]@.public_key_to
                    && r.transactions@[i].amount@ == block.transactions@[i]@.amount
                    && r.transactions@[i].fee@ == block.transactions@[i]@.fee
                    && r.transactions@[i].nonce == block.transactions@[i].nonce,
    {
        let mut serialized_transactions: Vec<SerializedTransaction> = Vec::new();
        let mut i: usize = 0;
        while i < block.transactions.len()
            invariant
                i <= block.transactions@.len(),
                serialized_transactions@.len() == i,
                forall|j: int|
                    0 <= j < i ==> (#[trigger] serialized_transactions@[j]).public_key_from@
                        == block.transactions@[j]@.public_key_from
                        && serialized_transactions@[j].public_key_to@
                        == block.transactions@[j]@.public_key_to
                        && serialized_transactions@[j].amount@ == block.transactions@[j]@.amount
                        && serialized_transactions@[j].fee@ == block.transactions@[j]@.fee
                        && serialized_transactions@[j].nonce == block.transactions@[j].nonce,
            decreases block.transactions@.len() - i,
        {
            let t = &block.transactions[i];
            serialized_transactions.push(
                SerializedTransaction {
                    public_key_from: crate::encoding::clone_bytes(&t.public_key_from),
                    public_key_to: crate::encoding::clone_bytes(&t.public_key_to),
                    amount: t.amount,
                    fee: t.fee,
                    nonce: t.nonce,
                },
            );
            i = i + 1;
        }
        ReadyToSerializeBlock { header: block.header, transactions: serialized_transactions }
    }
}

} // verus!
