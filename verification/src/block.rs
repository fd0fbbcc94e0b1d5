//! Blocks: header, transaction container, the Merkle tree over transaction
//! fingerprints, and the header digest.
use vstd::prelude::*;
use crate::u256::U256;
use crate::encoding::dec_digits;
use crate::encoding::clone_bytes;
use crate::encoding::append_bytes;
use crate::encoding::u64_to_dec;
use crate::crypto::sha256_hex;
use crate::crypto::sha256_hex_of;
use crate::transaction::Transaction;
use crate::transaction::TxView;
use crate::transaction::fingerprint;
use crate::transaction::hash_transaction;

verus! {

pub struct Header {
    pub nonce: u64,
    pub timestamp: u64,
    pub prev_hash: Vec<u8>,
    pub difficulty: U256,
    pub merkle_root: Vec<u8>,
}

pub struct HeaderView {
    pub nonce: nat,
    pub timestamp: nat,
    pub prev_hash: Seq<u8>,
    pub difficulty: nat,
    pub merkle_root: Seq<u8>,
}

impl View for Header {
    type V = HeaderView;

    open spec fn view(&self) -> HeaderView {
        HeaderView {
            nonce: self.nonce as nat,
            timestamp: self.timestamp as nat,
            prev_hash: self.prev_hash@,
            difficulty: self.difficulty@,
            merkle_root: self.merkle_root@,
        }
    }
}

impl Header {
    pub fn duplicate(&self) -> (r: Header)
        ensures
            r@ == self@,
    {
        Header {
            nonce: self.nonce,
            timestamp: self.timestamp,
            prev_hash: clone_bytes(&self.prev_hash),
            difficulty: self.difficulty,
            merkle_root: clone_bytes(&self.merkle_root),
        }
    }
}

pub struct Block {
    pub header: Header,
    pub transactions: Vec<Transaction>,
}

pub struct BlockView {
    pub header: HeaderView,
    pub transactions: Seq<TxView>,
}

pub open spec fn tx_views(s: Seq<Transaction>) -> Seq<TxView> {
    s.map_values(|t: Transaction| t@)
}

impl View for Block {
    type V = BlockView;

    open spec fn view(&self) -> BlockView {
        BlockView { header: self.header@, transactions: tx_views(self.transactions@) }
    }
}

pub fn clone_transactions(txs: &Vec<Transaction>) -> (r: Vec<Transaction>)
    ensures
        tx_views(r@) == tx_views(txs@),
        r@.len() == txs@.len(),
{
    let mut r: Vec<Transaction> = Vec::new();
    let mut i: usize = 0;
    while i < txs.len()
        invariant
            i <= txs@.len(),
            r@.len() == i,
            forall|j: int| 0 <= j < i ==> r@[j]@ == txs@[j]@,
        decreases txs@.len() - i,
    {
        r.push(txs[i].duplicate());
        i = i + 1;
    }
    proof {
        assert(tx_views(r@) =~= tx_views(txs@));
    }
    r
}

impl Block {
    pub fn duplicate(&self) -> (r: Block)
        ensures
            r@ == self@,
    {
        Block {
            header: self.header.duplicate(),
            transactions: clone_transactions(&self.transactions),
        }
    }

    /// Builds a block over the given transactions; the Merkle root is the
    /// tree root when there are transactions, empty otherwise, and the
    /// difficulty is left at zero for the chain to stamp.
    pub fn create_block(
        nonce: u64,
        timestamp: u64,
        prev_hash: Vec<u8>,
        transactions: &Vec<Transaction>,
    ) -> (r: Block)
        ensures
            r@.header.nonce == nonce,
            r@.header.timestamp == timestamp,
            r@.header.prev_hash == prev_hash@,
            r@.header.difficulty == 0,
            r@.transactions == tx_views(transactions@),
            transactions@.len() > 0 ==> r@.header.merkle_root == block_merkle_root(
                tx_views(transactions@),
            ),
            transactions@.len() == 0 ==> r@.header.merkle_root == Seq::<u8>::empty(),
    {
        let merkle_tree = MerkleTree::build_tree(transactions);
        let block_merkle_root: Vec<u8> = match merkle_tree.root {
            Some(root) => root.value,
            None => Vec::new(),
        };
        let header = Header {
            nonce,
            timestamp,
            prev_hash,
            difficulty: U256::zero(),
            merkle_root: block_merkle_root,
        };
        Block { header, transactions: clone_transactions(transactions) }
    }

    /// The block's transactions as an owned list.
    pub fn get_deseralized_transactions(&self) -> (r: Vec<Transaction>)
        ensures
            tx_views(r@) == self@.transactions,
    {
        clone_transactions(&self.transactions)
    }

    /// The digest of a header: SHA-256 over nonce and timestamp in decimal
    /// followed by the parent hash and the Merkle root. The difficulty is
    /// deliberately not part of the input.
    pub fn hash_header(header: &Header) -> (r: Vec<u8>)
        ensures
            r@ == header_digest(header@),
            r@.len() == 64,
            forall|i: int| 0 <= i < 64 ==> crate::encoding::is_hex_digit(r@[i]),
    {
        let mut hash_input = u64_to_dec(header.nonce);
        let ts = u64_to_dec(header.timestamp);
        append_bytes(&mut hash_input, &ts);
        append_bytes(&mut hash_input, &header.prev_hash);
        append_bytes(&mut hash_input, &header.merkle_root);
        sha256_hex(&hash_input)
    }
}

/// The text whose SHA-256 is the header digest.
pub open spec fn header_text(h: HeaderView) -> Seq<u8> {
    dec_digits(h.nonce) + dec_digits(h.timestamp) + h.prev_hash + h.merkle_root
}

pub open spec fn header_digest(h: HeaderView) -> Seq<u8> {
    sha256_hex_of(header_text(h))
}

pub struct MerkleNode {
    pub left: Option<Box<MerkleNode>>,
    pub right: Option<Box<MerkleNode>>,
    pub value: Vec<u8>,
}

impl MerkleNode {
    /// The digest used at every tree level.
    pub fn hash(val: Vec<u8>) -> (r: Vec<u8>)
        ensures
            r@ == sha256_hex_of(val@),
    {
        sha256_hex(&val)
    }

    pub fn get_value(&self) -> (r: &Vec<u8>)
        ensures
            r@ == self.value@,
    {
        &self.value
    }

    pub fn duplicate(&self) -> (r: MerkleNode)
        ensures
            r.value@ == self.value@,
        decreases *self,
    {
        let left: Option<Box<MerkleNode>> = match &self.left {
            Some(n) => Some(Box::new(n.duplicate())),
            None => None,
        };
        let right: Option<Box<MerkleNode>> = match &self.right {
            Some(n) => Some(Box::new(n.duplicate())),
            None => None,
        };
        MerkleNode { left, right, value: clone_bytes(&self.value) }
    }
}

pub struct MerkleTree {
    pub root: Option<Box<MerkleNode>>,
}

/// Hash of two sibling digests, concatenated left then right.
pub open spec fn merkle_combine(a: Seq<u8>, b: Seq<u8>) -> Seq<u8> {
    sha256_hex_of(a + b)
}

/// One level of pairing: adjacent digests are combined; an odd last digest
/// is paired with itself.
pub open spec fn merkle_pair_up(s: Seq<Seq<u8>>) -> Seq<Seq<u8>>
    decreases s.len(),
{
    if s.len() == 0 {
        Seq::empty()
    } else if s.len() == 1 {
        seq![merkle_combine(s[0], s[0])]
    } else {
        seq![merkle_combine(s[0], s[1])] + merkle_pair_up(s.skip(2))
    }
}

pub proof fn lemma_merkle_pair_up_len(s: Seq<Seq<u8>>)
    ensures
        s.len() > 1 ==> merkle_pair_up(s).len() < s.len(),
        s.len() >= 1 ==> merkle_pair_up(s).len() >= 1,
    decreases s.len(),
{
    if s.len() > 1 {
        lemma_merkle_pair_up_len(s.skip(2));
        assert(merkle_pair_up(s) == seq![merkle_combine(s[0], s[1])] + merkle_pair_up(s.skip(2)));
        if s.skip(2).len() == 0 {
            assert(merkle_pair_up(s.skip(2)).len() == 0);
        } else if s.skip(2).len() == 1 {
            assert(merkle_pair_up(s.skip(2)).len() == 1);
        }
    }
}

/// The root digest of the bottom-up Merkle construction over the given
/// leaf digests.
pub open spec fn merkle_root_of(s: Seq<Seq<u8>>) -> Seq<u8>
    decreases s.len(),
    when s.len() >= 1 via merkle_root_of_decreases
{
    if s.len() == 1 {
        s[0]
    } else {
        merkle_root_of(merkle_pair_up(s))
    }
}

#[via_fn]
proof fn merkle_root_of_decreases(s: Seq<Seq<u8>>) {
    lemma_merkle_pair_up_len(s);
}

/// The leaf digests of a transaction list: each transaction's fingerprint.
pub open spec fn tx_fingerprints(txs: Seq<TxView>) -> Seq<Seq<u8>> {
    txs.map_values(|t: TxView| fingerprint(t))
}

/// The Merkle root committed to by a block over its transactions.
pub open spec fn block_merkle_root(txs: Seq<TxView>) -> Seq<u8> {
    merkle_root_of(tx_fingerprints(txs))
}

impl MerkleTree {
    /// Bottom-up construction: leaves are transaction fingerprints; each
    /// level pairs neighbours, duplicating an odd last node.
    pub fn build_tree(transactions: &Vec<Transaction>) -> (r: MerkleTree)
        ensures
            transactions@.len() == 0 ==> r.root is None,
            transactions@.len() > 0 ==> (match r.root {
                Some(n) => n.value@ == block_merkle_root(tx_views(transactions@)),
                None => false,
            }),
    {
        if transactions.len() == 0 {
            return MerkleTree { root: None };
        }
        let ghost leaves = tx_fingerprints(tx_views(transactions@));
        let mut nodes: Vec<MerkleNode> = Vec::new();
        let mut i: usize = 0;
        while i < transactions.len()
            invariant
                i <= transactions@.len(),
                nodes@.len() == i,
                forall|j: int| 0 <= j < i ==> nodes@[j].value@ == tx_fingerprints(
                    tx_views(transactions@),
                )[j],
            decreases transactions@.len() - i,
        {
            let value = hash_transaction(&transactions[i]);
            nodes.push(MerkleNode { left: None, right: None, value });
            i = i + 1;
        }
        proof {
            assert(node_values(nodes@) =~= leaves);
        }
        while nodes.len() > 1
            invariant
                nodes@.len() >= 1,
                leaves.len() >= 1,
                merkle_root_of(node_values(nodes@)) == merkle_root_of(leaves),
            decreases nodes@.len(),
        {
            let ghost vs = node_values(nodes@);
            let mut next_level: Vec<MerkleNode> = Vec::new();
            let mut i: usize = 0;
            proof {
                assert(vs.skip(0) =~= vs);
                assert(node_values(next_level@) =~= Seq::<Seq<u8>>::empty());
                assert(Seq::<Seq<u8>>::empty() + merkle_pair_up(vs) =~= merkle_pair_up(vs));
            }
            while i < nodes.len()
                invariant
                    nodes@.len() >= 2,
                    i <= nodes@.len(),
                    i % 2 == 0 || i == nodes@.len(),
                    vs == node_values(nodes@),
                    merkle_pair_up(vs) == node_values(next_level@) + merkle_pair_up(
                        vs.skip(i as int),
                    ),
                decreases nodes@.len() - i,
            {
                let ghost next_old = node_values(next_level@);
                let left = nodes[i].duplicate();
                if i + 1 < nodes.len() {
                    let right = nodes[i + 1].duplicate();
                    let mut combined_input = clone_bytes(&left.value);
                    append_bytes(&mut combined_input, &right.value);
                    let combined_hash = sha256_hex(&combined_input);
                    let parent = MerkleNode {
                        left: Some(Box::new(left)),
                        right: Some(Box::new(right)),
                        value: combined_hash,
                    };
                    next_level.push(parent);
                    proof {
                        let tail = vs.skip(i as int);
                        assert(node_values(next_level@) =~= next_old.push(
                            merkle_combine(vs[i as int], vs[i as int + 1]),
                        ));
                        assert(tail[0] == vs[i as int] && tail[1] == vs[i as int + 1]);
                        assert(tail.skip(2) =~= vs.skip(i + 2 as int));
                        assert(merkle_pair_up(tail) == seq![
                            merkle_combine(tail[0], tail[1]),
                        ] + merkle_pair_up(vs.skip(i + 2 as int)));
                        assert(next_old + merkle_pair_up(tail) =~= node_values(next_level@)
                            + merkle_pair_up(vs.skip(i + 2 as int)));
                    }
                    i = i + 2;
                } else {
                    let right = left.duplicate();
                    let mut combined_input = clone_bytes(&left.value);
                    append_bytes(&mut combined_input, &right.value);
                    let combined_hash = sha256_hex(&combined_input);
                    let parent = MerkleNode {
                        left: Some(Box::new(left)),
                        right: Some(Box::new(right)),
                        value: combined_hash,
                    };
                    next_level.push(parent);
                    proof {
                        let tail = vs.skip(i as int);
                        assert(node_values(next_level@) =~= next_old.push(
                            merkle_combine(vs[i as int], vs[i as int]),
                        ));
                        assert(tail.len() == 1 && tail[0] == vs[i as int]);
                        assert(merkle_pair_up(tail) == seq![merkle_combine(tail[0], tail[0])]);
                        assert(vs.skip(i + 1 as int) =~= Seq::<Seq<u8>>::empty());
                        assert(next_old + merkle_pair_up(tail) =~= node_values(next_level@)
                            + merkle_pair_up(vs.skip(i + 1 as int)));
                    }
                    i = i + 1;
                }
            }
            proof {
                assert(vs.skip(nodes@.len() as int) =~= Seq::<Seq<u8>>::empty());
                assert(node_values(next_level@) + merkle_pair_up(vs.skip(nodes@.len() as int))
                    =~= node_values(next_level@));
                lemma_merkle_pair_up_len(vs);
                assert(merkle_root_of(vs) == merkle_root_of(merkle_pair_up(vs)));
            }
            nodes = next_level;
        }
        proof {
            let vals = node_values(nodes@);
            assert(vals.len() == 1);
            assert(merkle_root_of(vals) == vals[0]);
            assert(vals[0] == nodes@[0].value@);
        }
        let root = nodes.pop().unwrap();
        MerkleTree { root: Some(Box::new(root)) }
    }

    pub fn get_root(&self) -> (r: Option<Vec<u8>>)
        ensures
            match r {
                Some(v) => (match self.root {
                    Some(n) => v@ == n.value@,
                    None => false,
                }),
                None => self.root is None,
            },
    {
        match &self.root {
            Some(root) => Some(clone_bytes(&root.value)),
            None => None,
        }
    }
}

pub open spec fn node_values(nodes: Seq<MerkleNode>) -> Seq<Seq<u8>> {
    nodes.map_values(|n: MerkleNode| n.value@)
}

} // verus!
