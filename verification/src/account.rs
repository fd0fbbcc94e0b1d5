//! Key pairs: a secp256k1 secret key with its compressed public key, used
//! to sign transaction fingerprints.
use vstd::prelude::*;
use crate::u256::U256;
use crate::chain::Blockchain;
use crate::crypto::pk_of_sk;
use crate::crypto::sig_verifies;
use crate::crypto::generate_keypair;
use crate::crypto::sign_message;
use crate::encoding::clone_bytes;
use crate::ledger::acct_or_new;
use crate::transaction::Transaction;
use crate::transaction::fingerprint;
use crate::transaction::hash_transaction;

verus! {

pub struct AccountKeys {
    secret_key: Vec<u8>,
    public_key: Vec<u8>,
}

impl AccountKeys {
    pub closed spec fn spec_public_key(&self) -> Seq<u8> {
        self.public_key@
    }

    /// The stored public key is the one the secret key determines.
    pub closed spec fn wf(&self) -> bool {
        &&& self.public_key@ == pk_of_sk(self.secret_key@)
        &&& self.public_key@.len() == 33
    }

    pub fn new() -> (r: AccountKeys)
        ensures
            r.wf(),
            r.spec_public_key().len() == 33,
    {
        let (secret_key, public_key) = generate_keypair();
        AccountKeys { secret_key, public_key }
    }

    pub fn get_public_key(&self) -> (r: Vec<u8>)
        ensures
            r@ == self.spec_public_key(),
    {
        clone_bytes(&self.public_key)
    }

    /// Signs the transaction's fingerprint digest; the signature, when one
    /// comes back, verifies against this key pair's public key.
    pub fn sign_transaction(&self, transaction: &Transaction) -> (r: Option<Vec<u8>>)
        requires
            self.wf(),
        ensures
            (r matches Some(sig) ==> sig_verifies(
                self.spec_public_key(),
                fingerprint(transaction@),
                sig@,
            )),
    {
        let transaction_hash = hash_transaction(transaction);
        sign_message(&self.secret_key, &transaction_hash)
    }

    /// This key's balance on the chain; the account is created on first
    /// reference.
    pub fn get_balance(&self, blockchain: &mut Blockchain) -> (r: U256)
        ensures
            r@ == acct_or_new(old(blockchain).ledger(), self.spec_public_key()).balance,
            *final(blockchain) == (Blockchain {
                accounts: final(blockchain).accounts,
                ..*old(blockchain)
            }),
            final(blockchain).ledger() == (if old(blockchain).ledger().contains_key(
                self.spec_public_key(),
            ) {
                old(blockchain).ledger()
            } else {
                old(blockchain).ledger().insert(
                    self.spec_public_key(),
                    crate::ledger::AccountView { balance: 0, nonce: 0 },
                )
            }),
    {
        blockchain.get_balance(&self.public_key)
    }

    pub fn duplicate(&self) -> (r: AccountKeys)
        ensures
            r.wf() == self.wf(),
            r.spec_public_key() == self.spec_public_key(),
    {
        AccountKeys {
            secret_key: clone_bytes(&self.secret_key),
            public_key: clone_bytes(&self.public_key),
        }
    }
}

} // verus!
