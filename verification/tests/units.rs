//! Unit checks: arithmetic, encodings, hashing, Merkle roots, mempool
//! ordering, admission errors and the byte codecs.
use blockchain_protocol::account::AccountKeys;
use blockchain_protocol::block::Block;
use blockchain_protocol::block::MerkleTree;
use blockchain_protocol::chain::Blockchain;
use blockchain_protocol::crypto::sha256_hex;
use blockchain_protocol::crypto::verify_signature;
use blockchain_protocol::encoding::append_bytes;
use blockchain_protocol::encoding::hex_upper_encode;
use blockchain_protocol::encoding::u64_to_dec;
use blockchain_protocol::miner::Miner;
use blockchain_protocol::network::Network;
use blockchain_protocol::transaction::concat_transaction;
use blockchain_protocol::transaction::hash_transaction;
use blockchain_protocol::transaction::Transaction;
use blockchain_protocol::u256::U256;

fn tx_with(from: &AccountKeys, to: &AccountKeys, amount: u64, fee: u64, nonce: u128) -> Transaction {
    Transaction {
        public_key_from: from.get_public_key(),
        public_key_to: to.get_public_key(),
        amount: U256::from_u64(amount),
        fee: U256::from_u64(fee),
        nonce,
    }
}

#[test]
fn sha256_known_vector() {
    let digest = sha256_hex(&b"abc".to_vec());
    assert_eq!(
        digest,
        b"ba7816bf8f01cfea414140de5dae2223b00361a396177a9cb410ff61f20015ad".to_vec()
    );
    // The digest of the empty input is not the empty string.
    assert_eq!(sha256_hex(&Vec::new()).len(), 64);
    assert_ne!(sha256_hex(&Vec::new()), Vec::<u8>::new());
}

#[test]
fn decimal_and_hex_text() {
    assert_eq!(u64_to_dec(0), b"0".to_vec());
    assert_eq!(u64_to_dec(12345), b"12345".to_vec());
    assert_eq!(hex_upper_encode(&vec![0xab, 0x01, 0xff]), b"AB01FF".to_vec());
    let mut buf = b"12".to_vec();
    append_bytes(&mut buf, &b"34".to_vec());
    assert_eq!(buf, b"1234".to_vec());
}

#[test]
fn u256_arithmetic() {
    let a = U256::from_u64(1000);
    let b = U256::from_u64(6);
    let sum = a.checked_add(&b).unwrap();
    assert_eq!(sum, U256::from_u64(1006));
    let diff = a.checked_sub(&b).unwrap();
    assert_eq!(diff, U256::from_u64(994));
    assert!(b.checked_sub(&a).is_none());
    assert!(U256::max_value().checked_add(&U256::from_u64(1)).is_none());
    assert!(b.lt(&a) && a.gt(&b) && a.ge(&a) && b.le(&b));
    assert!(U256::zero().is_zero() && !a.is_zero());
    let (q, r) = U256::from_u64(1007).divmod10();
    assert_eq!(q, U256::from_u64(100));
    assert_eq!(r, 7);
    assert_eq!(U256::from_u64(90321).to_decimal(), b"90321".to_vec());
    let mut hex = vec![b'0'; 64];
    hex[63] = b'f';
    hex[62] = b'f';
    assert_eq!(U256::from_hex_64(&hex), U256::from_u64(255));
}

#[test]
fn fingerprint_and_merkle() {
    let alice = AccountKeys::new();
    let bob = AccountKeys::new();
    let t0 = tx_with(&alice, &bob, 7, 2, 0);
    let input = concat_transaction(&t0);
    let fp = hash_transaction(&t0);
    assert_eq!(fp.len(), 64);
    assert_eq!(fp, sha256_hex(&input));
    assert_ne!(fp, input);

    // A single leaf is its own root.
    let tree = MerkleTree::build_tree(&vec![t0.duplicate()]);
    assert_eq!(tree.get_root().unwrap(), fp);

    // Two leaves hash their concatenation.
    let t1 = tx_with(&alice, &bob, 8, 1, 1);
    let tree2 = MerkleTree::build_tree(&vec![t0.duplicate(), t1.duplicate()]);
    let mut cat = hash_transaction(&t0);
    append_bytes(&mut cat, &hash_transaction(&t1));
    assert_eq!(tree2.get_root().unwrap(), sha256_hex(&cat));

    // Three leaves duplicate the odd one out.
    let t2 = tx_with(&alice, &bob, 9, 3, 2);
    let tree3 = MerkleTree::build_tree(&vec![t0.duplicate(), t1.duplicate(), t2.duplicate()]);
    let mut right = hash_transaction(&t2);
    let copy = right.clone();
    append_bytes(&mut right, &copy);
    let mut top = sha256_hex(&cat);
    append_bytes(&mut top, &sha256_hex(&right));
    assert_eq!(tree3.get_root().unwrap(), sha256_hex(&top));

    assert!(MerkleTree::build_tree(&Vec::new()).get_root().is_none());
}

#[test]
fn signatures_verify_and_reject() {
    let alice = AccountKeys::new();
    let bob = AccountKeys::new();
    let t = tx_with(&alice, &bob, 1, 1, 0);
    let sig = alice.sign_transaction(&t).unwrap();
    let fp = hash_transaction(&t);
    assert!(verify_signature(&alice.get_public_key(), &fp, &sig));
    // A different message or key fails.
    assert!(!verify_signature(&bob.get_public_key(), &fp, &sig));
    let other = hash_transaction(&tx_with(&alice, &bob, 2, 1, 0));
    assert!(!verify_signature(&alice.get_public_key(), &other, &sig));
    // Garbage keys and signatures fail rather than erring.
    assert!(!verify_signature(&vec![1, 2, 3], &fp, &sig));
    assert!(!verify_signature(&alice.get_public_key(), &fp, &vec![0; 64]));
}

fn funded_setup() -> (Blockchain, Miner, AccountKeys, AccountKeys) {
    let difficulty = U256::max_value();
    let mut blockchain = Blockchain::create_blockchain(difficulty, 5, 3, 10);
    let miner = Miner::new(&mut blockchain);
    let alice = AccountKeys::new();
    blockchain.create_account(&alice.get_public_key());
    let bob = AccountKeys::new();
    blockchain.create_account(&bob.get_public_key());
    assert!(blockchain.mint(&alice.get_public_key(), &U256::from_u64(1000)));
    (blockchain, miner, alice, bob)
}

#[test]
fn mempool_keeps_fee_order() {
    let (mut blockchain, mut miner, alice, bob) = funded_setup();
    for (fee, nonce) in [(1u64, 0u128), (3, 1), (2, 2)] {
        let t = tx_with(&alice, &bob, 1, fee, nonce);
        let sig = alice.sign_transaction(&t).unwrap();
        miner.add_transaction_to_mempool(t, &sig, &mut blockchain);
    }
    assert_eq!(miner.mempool.len(), 3);
    assert_eq!(miner.mempool[0].fee, U256::from_u64(3));
    assert_eq!(miner.mempool[1].fee, U256::from_u64(2));
    assert_eq!(miner.mempool[2].fee, U256::from_u64(1));
}

#[test]
fn mempool_rejects_bad_submissions() {
    let (mut blockchain, mut miner, alice, bob) = funded_setup();
    // Wrong signature: signed by the receiver.
    let t = tx_with(&alice, &bob, 1, 1, 0);
    let bad_sig = bob.sign_transaction(&t).unwrap();
    miner.add_transaction_to_mempool(t, &bad_sig, &mut blockchain);
    assert_eq!(miner.mempool.len(), 0);
    // Insufficient funds.
    let t = tx_with(&alice, &bob, 2000, 1, 0);
    let sig = alice.sign_transaction(&t).unwrap();
    miner.add_transaction_to_mempool(t, &sig, &mut blockchain);
    assert_eq!(miner.mempool.len(), 0);
    // Spent nonce: below the account's counter after a poke.
    let pk = alice.get_public_key();
    let acct = *blockchain.get_account(&pk).unwrap();
    blockchain.accounts.insert(
        pk,
        blockchain_protocol::ledger::AccountState { balance: acct.balance, nonce: 5 },
    );
    let t = tx_with(&alice, &bob, 1, 1, 4);
    let sig = alice.sign_transaction(&t).unwrap();
    miner.add_transaction_to_mempool(t, &sig, &mut blockchain);
    assert_eq!(miner.mempool.len(), 0);
}

#[test]
fn mint_requires_an_account_and_room() {
    let mut blockchain = Blockchain::create_blockchain(U256::max_value(), 5, 3, 10);
    let alice = AccountKeys::new();
    // No account yet.
    assert!(!blockchain.mint(&alice.get_public_key(), &U256::from_u64(1)));
    blockchain.create_account(&alice.get_public_key());
    assert!(blockchain.mint(&alice.get_public_key(), &U256::from_u64(7)));
    assert_eq!(blockchain.get_balance(&alice.get_public_key()), U256::from_u64(7));
    // Overflowing the balance is refused and changes nothing.
    assert!(!blockchain.mint(&alice.get_public_key(), &U256::max_value()));
    assert_eq!(blockchain.get_balance(&alice.get_public_key()), U256::from_u64(7));
}

#[test]
fn transaction_wire_roundtrip() {
    let alice = AccountKeys::new();
    let bob = AccountKeys::new();
    let t = tx_with(&alice, &bob, 77, 5, 9);
    let bytes = t.serialize();
    let back = Transaction::deseralize(&bytes).expect("must parse");
    assert!(back.same_as(&t));
    // Trailing garbage is rejected.
    let mut longer = bytes.clone();
    longer.push(0);
    assert!(Transaction::deseralize(&longer).is_none());
    assert!(Transaction::deseralize(&b"short".to_vec()).is_none());
}

#[test]
fn block_wire_form() {
    let alice = AccountKeys::new();
    let bob = AccountKeys::new();
    let t = tx_with(&alice, &bob, 1, 1, 0);
    let block = Block::create_block(1, 99, Vec::new(), &vec![t]);
    let header_hash = Block::hash_header(&block.header);
    assert_eq!(header_hash.len(), 64);
    // The digest ignores the stamped difficulty.
    let mut stamped = block.duplicate();
    stamped.header.difficulty = U256::from_u64(123456);
    assert_eq!(Block::hash_header(&stamped.header), header_hash);
    let bytes = Network::serialize_block(block.duplicate());
    assert!(!bytes.is_empty());
    let other = Network::serialize_block(stamped);
    // Differing difficulty still changes the wire form, which is loss-less.
    assert_ne!(bytes, other);
}

#[test]
fn rejects_tampered_blocks() {
    let (mut blockchain, mut miner, alice, bob) = funded_setup();
    let t = tx_with(&alice, &bob, 5, 1, 0);
    let sig = alice.sign_transaction(&t).unwrap();
    miner.add_transaction_to_mempool(t, &sig, &mut blockchain);
    let hash = miner
        .compute_next_block(&mut blockchain, Vec::new())
        .expect("block must be mined");
    // Re-sending the same block is ignored: the hash is already known.
    let block = blockchain.get_block(&hash).unwrap().duplicate();
    assert!(!blockchain.add_block(block.duplicate(), miner.account_keys.get_public_key()));
    // A block whose Merkle root does not match its transactions is refused.
    let mut tampered = block.duplicate();
    tampered.header.merkle_root = vec![b'0'; 64];
    tampered.header.prev_hash = hash.clone();
    assert!(!blockchain.add_block(tampered, miner.account_keys.get_public_key()));
    // A block with an unknown parent is refused.
    let mut orphan = block.duplicate();
    orphan.header.prev_hash = vec![b'a'; 64];
    assert!(!blockchain.add_block(orphan, miner.account_keys.get_public_key()));
}
