//! End-to-end scenarios: mining, the two-block happy path, a chain
//! reorganization, block propagation between nodes, duplicate submission,
//! and snapshot round-trips interleaved with mining.
use blockchain_protocol::account::AccountKeys;
use blockchain_protocol::chain::Blockchain;
use blockchain_protocol::codec::deserialize_chain;
use blockchain_protocol::codec::serialize_chain;
use blockchain_protocol::ledger::AccountState;
use blockchain_protocol::miner::Miner;
use blockchain_protocol::network::Network;
use blockchain_protocol::transaction::Transaction;
use blockchain_protocol::u256::U256;

fn difficulty() -> U256 {
    // The maximum 256-bit value divided by 20000.
    U256::from_limbs(
        0xa5119ce075f6fd21,
        0x92a305532617c1bd,
        0x94af4f0d844d013a,
        0x346dc5d638865,
    )
}

fn setup() -> (Blockchain, Network, Miner, AccountKeys, AccountKeys) {
    let mut blockchain = Blockchain::create_blockchain(difficulty(), 5, 3, 10);
    let miner = Miner::new(&mut blockchain);
    let network = Network::new();
    let sender_account = AccountKeys::new();
    blockchain.create_account(&sender_account.get_public_key());
    let receiver_account = AccountKeys::new();
    blockchain.create_account(&receiver_account.get_public_key());
    assert!(blockchain.mint(&sender_account.get_public_key(), &U256::from_u64(1000)));
    (blockchain, network, miner, sender_account, receiver_account)
}

fn transfer(
    from: &AccountKeys,
    to: &AccountKeys,
    amount: u64,
    fee: u64,
    nonce: u128,
) -> (Transaction, Vec<u8>) {
    let tx = Transaction {
        public_key_from: from.get_public_key(),
        public_key_to: to.get_public_key(),
        amount: U256::from_u64(amount),
        fee: U256::from_u64(fee),
        nonce,
    };
    let sig = from.sign_transaction(&tx).expect("signing to succeed");
    (tx, sig)
}

fn submit(
    network: &mut Network,
    miner: &mut Miner,
    blockchain: &mut Blockchain,
    tx: Transaction,
    sig: &Vec<u8>,
) {
    network.send_transaction(tx, sig, miner, blockchain);
}

#[test]
fn test_mine_one_block() {
    let (mut blockchain, mut network, mut miner, sender_account, receiver_account) = setup();
    for nonce in 0..3u128 {
        let (tx, sig) = transfer(&sender_account, &receiver_account, 1, 1, nonce);
        submit(&mut network, &mut miner, &mut blockchain, tx, &sig);
    }
    assert_eq!(miner.mempool.len(), 3);
    miner
        .compute_next_block(&mut blockchain, Vec::new())
        .expect("Block must have been built");
    assert_eq!(sender_account.get_balance(&mut blockchain), U256::from_u64(994));
    assert_eq!(receiver_account.get_balance(&mut blockchain), U256::from_u64(3));
    let miner_pk = miner.account_keys.get_public_key();
    assert_eq!(blockchain.get_balance(&miner_pk), U256::from_u64(1003));
}

fn mine_initial_blockchain(
    blockchain: &mut Blockchain,
    network: &mut Network,
    miner: &mut Miner,
    sender_account: &AccountKeys,
    receiver_account: &AccountKeys,
) -> Vec<u8> {
    for nonce in 0..3u128 {
        let (tx, sig) = transfer(sender_account, receiver_account, 1, 1, nonce);
        submit(network, miner, blockchain, tx, &sig);
    }
    let first_block_hash = miner
        .compute_next_block(blockchain, Vec::new())
        .expect("first block must be mined");
    for nonce in 3..6u128 {
        let (tx, sig) = transfer(sender_account, receiver_account, 1, 1, nonce);
        submit(network, miner, blockchain, tx, &sig);
    }
    miner
        .compute_next_block(blockchain, first_block_hash.clone())
        .expect("second block must be mined");
    first_block_hash
}

fn poke_sender_nonce(blockchain: &mut Blockchain, sender: &AccountKeys, nonce: u128) {
    let pk = sender.get_public_key();
    let current = *blockchain.get_account(&pk).expect("sender account exists");
    blockchain
        .accounts
        .insert(pk, AccountState { balance: current.balance, nonce });
}

#[test]
fn test_chain_reorg() {
    let (mut blockchain, mut network, mut miner, sender_account, receiver_account) = setup();
    let fork_block_hash = mine_initial_blockchain(
        &mut blockchain,
        &mut network,
        &mut miner,
        &sender_account,
        &receiver_account,
    );
    assert_eq!(sender_account.get_balance(&mut blockchain), U256::from_u64(988));
    assert_eq!(receiver_account.get_balance(&mut blockchain), U256::from_u64(6));

    // Fork from the first block: three 5+2 transfers, then two more.
    poke_sender_nonce(&mut blockchain, &sender_account, 3);
    for nonce in 3..6u128 {
        let (tx, sig) = transfer(&sender_account, &receiver_account, 5, 2, nonce);
        submit(&mut network, &mut miner, &mut blockchain, tx, &sig);
    }
    let concurrent_block_hash = miner
        .compute_next_block(&mut blockchain, fork_block_hash)
        .expect("fork block must be mined");

    poke_sender_nonce(&mut blockchain, &sender_account, 6);
    for nonce in 6..8u128 {
        let (tx, sig) = transfer(&sender_account, &receiver_account, 5, 2, nonce);
        submit(&mut network, &mut miner, &mut blockchain, tx, &sig);
    }
    miner
        .compute_next_block(&mut blockchain, concurrent_block_hash)
        .expect("dominant block must be mined");

    assert_eq!(receiver_account.get_balance(&mut blockchain), U256::from_u64(28));
    assert_eq!(sender_account.get_balance(&mut blockchain), U256::from_u64(959));
}

#[test]
fn test_network_block_propagation() {
    let (mut blockchain1, mut network, _, sender_account, receiver_account) = setup();
    // A second node starts from the same state, restored from a snapshot.
    let snapshot = serialize_chain(&blockchain1);
    let mut blockchain2 = deserialize_chain(&snapshot).expect("snapshot must decode");

    let mut miner1 = Miner::new(&mut blockchain1);
    let miner2 = Miner::new(&mut blockchain2);
    assert!(miner1._add_connected_peer(miner2.duplicate()));

    let (tx, sig) = transfer(&sender_account, &receiver_account, 10, 1, 0);
    submit(&mut network, &mut miner1, &mut blockchain1, tx, &sig);

    let parent_hash = blockchain1.current_longest_chain_latest_block_hash.clone();
    let new_block_hash = miner1
        .compute_next_block(&mut blockchain1, parent_hash)
        .expect("Block must be mined");
    let new_block = blockchain1
        .get_block(&new_block_hash)
        .expect("Mined block should exist")
        .duplicate();

    miner1.broadcast_block(new_block, &mut blockchain2);

    assert_eq!(blockchain2.current_longest_chain_latest_block_hash, new_block_hash);
    assert_eq!(blockchain2.get_balance(&receiver_account.get_public_key()), U256::from_u64(10));
}

#[test]
fn test_duplicate_transaction() {
    let (mut blockchain, mut network, mut miner, sender_account, receiver_account) = setup();
    let (tx, sig) = transfer(&sender_account, &receiver_account, 1, 1, 0);
    let copy = tx.duplicate();
    submit(&mut network, &mut miner, &mut blockchain, tx, &sig);
    assert_eq!(miner.mempool.len(), 1);
    submit(&mut network, &mut miner, &mut blockchain, copy, &sig);
    assert_eq!(miner.mempool.len(), 1);
}

#[test]
fn test_transaction_gossip_to_peers() {
    let (mut blockchain, _network, mut miner, sender_account, receiver_account) = setup();
    let peer = Miner::new(&mut blockchain);
    assert!(miner._add_connected_peer(peer));
    let (tx, sig) = transfer(&sender_account, &receiver_account, 2, 1, 0);
    miner.on_transaction_receive(tx, &sig, &mut blockchain);
    // The transaction sits in the receiving pool and was gossiped onward.
    assert_eq!(miner.mempool.len(), 1);
    assert_eq!(miner.connected_peers[0].mempool.len(), 1);
    // A rejected submission reaches no peer.
    let (bad, _) = transfer(&sender_account, &receiver_account, 2000, 1, 1);
    let bad_sig = receiver_account.sign_transaction(&bad).unwrap();
    miner.on_transaction_receive(bad, &bad_sig, &mut blockchain);
    assert_eq!(miner.mempool.len(), 1);
    assert_eq!(miner.connected_peers[0].mempool.len(), 1);
}

#[test]
fn test_snapshot_roundtrip_while_mining() {
    let (mut blockchain, mut network, mut miner, sender_account, receiver_account) = setup();
    let mut parent: Vec<u8> = Vec::new();
    for round in 0..3u128 {
        let (tx, sig) = transfer(&sender_account, &receiver_account, 1, 1, round);
        submit(&mut network, &mut miner, &mut blockchain, tx, &sig);
        parent = miner
            .compute_next_block(&mut blockchain, parent)
            .expect("block must be mined");

        let snapshot = serialize_chain(&blockchain);
        let restored = deserialize_chain(&snapshot).expect("snapshot must decode");
        assert_eq!(
            restored.current_longest_chain_latest_block_hash,
            blockchain.current_longest_chain_latest_block_hash
        );
        assert!(restored.difficulty.eq_val(&blockchain.difficulty));
        assert!(restored.get_block(&parent).is_some());
        let mut restored = restored;
        assert_eq!(
            restored.get_balance(&sender_account.get_public_key()),
            U256::from_u64(1000 - 2 * (round as u64 + 1))
        );
        assert_eq!(
            restored.get_balance(&receiver_account.get_public_key()),
            U256::from_u64(round as u64 + 1)
        );
    }
}
