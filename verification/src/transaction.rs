//! Payments: the transaction record, its textual fingerprint and its
//! SHA-256 fingerprint digest, which is what senders sign.
use vstd::prelude::*;
use crate::u256::U256;
use crate::encoding::bytes_eq;
use crate::encoding::clone_bytes;
use crate::encoding::append_bytes;
use crate::encoding::hex_upper;
use crate::encoding::hex_upper_encode;
use crate::encoding::dec_digits;
use crate::crypto::sha256_hex;
use crate::crypto::sha256_hex_of;

verus! {

/// A payment; public keys are compressed SEC1 bytes.
pub struct Transaction {
    pub public_key_from: Vec<u8>,
    pub public_key_to: Vec<u8>,
    pub amount: U256,
    pub fee: U256,
    pub nonce: u128,
}

/// The mathematical content of a transaction.
pub struct TxView {
    pub public_key_from: Seq<u8>,
    pub public_key_to: Seq<u8>,
    pub amount: nat,
    pub fee: nat,
    pub nonce: nat,
}

impl View for Transaction {
    type V = TxView;

    open spec fn view(&self) -> TxView {
        TxView {
            public_key_from: self.public_key_from@,
            public_key_to: self.public_key_to@,
            amount: self.amount@,
            fee: self.fee@,
            nonce: self.nonce as nat,
        }
    }
}

impl Transaction {
    pub fn duplicate(&self) -> (r: Transaction)
        ensures
            r@ == self@,
    {
        Transaction {
            public_key_from: clone_bytes(&self.public_key_from),
            public_key_to: clone_bytes(&self.public_key_to),
            amount: self.amount,
            fee: self.fee,
            nonce: self.nonce,
        }
    }

    pub fn same_as(&self, other: &Transaction) -> (r: bool)
        ensures
            r == (self@ == other@),
    {
        proof {
            U256::lemma_view_injective(self.amount, other.amount);
            U256::lemma_view_injective(self.fee, other.fee);
        }
        bytes_eq(&self.public_key_from, &other.public_key_from) && bytes_eq(
            &self.public_key_to,
            &other.public_key_to,
        ) && self.amount.eq_val(&other.amount) && self.fee.eq_val(&other.fee) && self.nonce
            == other.nonce
    }
}

/// The text whose SHA-256 is a transaction's fingerprint: both public keys
/// in uppercase hexadecimal, then amount and fee in decimal.
pub open spec fn fingerprint_input(t: TxView) -> Seq<u8> {
    hex_upper(t.public_key_from) + hex_upper(t.public_key_to) + dec_digits(t.amount) + dec_digits(
        t.fee,
    )
}

/// The fingerprint digest: 64 lowercase hexadecimal characters.
pub open spec fn fingerprint(t: TxView) -> Seq<u8> {
    sha256_hex_of(fingerprint_input(t))
}

/// Builds the fingerprint text of a transaction.
pub fn concat_transaction(transaction: &Transaction) -> (r: Vec<u8>)
    ensures
        r@ == fingerprint_input(transaction@),
{
    let mut r = hex_upper_encode(&transaction.public_key_from);
    let to_hex = hex_upper_encode(&transaction.public_key_to);
    append_bytes(&mut r, &to_hex);
    let amount_dec = transaction.amount.to_decimal();
    append_bytes(&mut r, &amount_dec);
    let fee_dec = transaction.fee.to_decimal();
    append_bytes(&mut r, &fee_dec);
    r
}

/// The fingerprint digest of a transaction, as hexadecimal text bytes.
pub fn hash_transaction(transaction: &Transaction) -> (r: Vec<u8>)
    ensures
        r@ == fingerprint(transaction@),
        r@.len() == 64,
{
    let input = concat_transaction(transaction);
    sha256_hex(&input)
}

} // verus!
