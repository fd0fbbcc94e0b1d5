//! Chain state: the hash-keyed block store with parent links and cumulative
//! difficulties, fork choice by greatest cumulative difficulty, and the
//! reorganization driver that keeps the ledger at the tip.
use vstd::prelude::*;
use crate::u256::U256;
use crate::u256::pow256;
use crate::alist::AList;
use crate::block::Block;
use crate::block::BlockView;
use crate::block::HeaderView;
use crate::block::header_digest;
use crate::block::block_merkle_root;
use crate::encoding::hex_val;
use crate::ledger::AccountState;
use crate::ledger::AccountView;
use crate::ledger::Ledger;
use crate::ledger::acct_or_new;
use crate::ledger::apply_block_ledger;
use crate::ledger::revert_block_ledger;

verus! {

/// The peers (by compressed public key) already known to hold a block.
pub struct PeerSet {
    pub peers: Vec<Vec<u8>>,
}

impl View for PeerSet {
    type V = Seq<Seq<u8>>;

    open spec fn view(&self) -> Seq<Seq<u8>> {
        views_of(self.peers@)
    }
}

impl PeerSet {
    pub fn new() -> (r: PeerSet)
        ensures
            r@ == Seq::<Seq<u8>>::empty(),
    {
        let r = PeerSet { peers: Vec::new() };
        proof {
            assert(r@ =~= Seq::<Seq<u8>>::empty());
        }
        r
    }

    pub fn duplicate(&self) -> (r: PeerSet)
        ensures
            r@ == self@,
    {
        let mut peers: Vec<Vec<u8>> = Vec::new();
        let mut i: usize = 0;
        while i < self.peers.len()
            invariant
                i <= self.peers@.len(),
                views_of(peers@) == self@.take(i as int),
            decreases self.peers@.len() - i,
        {
            let ghost pre = views_of(peers@);
            peers.push(crate::encoding::clone_bytes(&self.peers[i]));
            proof {
                assert(views_of(peers@) =~= pre.push(self@[i as int]));
                assert(self@.take(i + 1 as int) =~= self@.take(i as int).push(self@[i as int]));
            }
            i = i + 1;
        }
        proof {
            assert(self@.take(self.peers@.len() as int) =~= self@);
        }
        PeerSet { peers }
    }

    pub fn contains_peer(&self, pk: &Vec<u8>) -> (r: bool)
        ensures
            r == self@.contains(pk@),
    {
        contains_hash(&self.peers, pk)
    }

    pub fn add_peer(&mut self, pk: Vec<u8>)
        ensures
            final(self)@ == old(self)@.push(pk@),
    {
        let ghost pre = old(self)@;
        let ghost pkv = pk@;
        self.peers.push(pk);
        proof {
            assert(self@ =~= pre.push(pkv));
        }
    }
}

pub struct Blockchain {
    pub hash_to_block: AList<Block>,
    pub hash_to_miner: AList<Vec<u8>>,
    pub block_parent_map: AList<Vec<u8>>,
    pub hash_to_cumulative_difficulty: AList<U256>,
    pub difficulty: U256,
    pub target_duration_between_blocks: u64,
    pub max_transactions_per_block: usize,
    pub blocks_between_difficulty_adjustment: u64,
    pub accounts: AList<AccountState>,
    pub mining_reward: U256,
    pub current_longest_chain_latest_block_hash: Vec<u8>,
    pub hash_to_miners_who_received_the_block: AList<PeerSet>,
    /// Depth of each block in the tree, for reasoning about parent walks.
    pub depths: Ghost<Map<Seq<u8>, nat>>,
}

/// The empty string stands for "before genesis".
pub open spec fn no_hash() -> Seq<u8> {
    Seq::<u8>::empty()
}

impl Blockchain {
    pub open spec fn blocks(self) -> Map<Seq<u8>, BlockView> {
        self.hash_to_block@
    }

    pub open spec fn miners(self) -> Map<Seq<u8>, Seq<u8>> {
        self.hash_to_miner@
    }

    pub open spec fn parents(self) -> Map<Seq<u8>, Seq<u8>> {
        self.block_parent_map@
    }

    pub open spec fn cums(self) -> Map<Seq<u8>, nat> {
        self.hash_to_cumulative_difficulty@
    }

    pub open spec fn ledger(self) -> Ledger {
        self.accounts@
    }

    pub open spec fn tip(self) -> Seq<u8> {
        self.current_longest_chain_latest_block_hash@
    }

    pub open spec fn tip_cum(self) -> nat {
        if self.tip() == no_hash() {
            0
        } else {
            self.cums()[self.tip()]
        }
    }

    /// Shape of a well-formed chain state. Every stored block has its
    /// side-table entries; parents are known; cumulative difficulty adds the
    /// block's own difficulty to its parent's; the tip carries the greatest
    /// cumulative difficulty; and every stored non-genesis block meets the
    /// proof-of-work bound it was stamped with.
    pub open spec fn wf(self) -> bool {
        &&& (self.tip() == no_hash() || self.blocks().contains_key(self.tip()))
        &&& self.cums().contains_key(no_hash())
        &&& self.cums()[no_hash()] == 0
        &&& !self.depths@.contains_key(no_hash())
        &&& forall|h: Seq<u8>| #[trigger] self.parents().contains_key(h)
            ==> self.blocks().contains_key(h)
        &&& forall|h: Seq<u8>| #[trigger] self.blocks().contains_key(h) ==> self.block_entry_wf(h)
    }

    pub open spec fn block_entry_wf(self, h: Seq<u8>) -> bool {
        &&& h != no_hash()
        &&& self.parents().contains_key(h)
        &&& self.miners().contains_key(h)
        &&& self.cums().contains_key(h)
        &&& self.depths@.contains_key(h)
        &&& self.depths@[h] >= 1
        &&& (self.parents()[h] == no_hash() || (self.blocks().contains_key(self.parents()[h])
            && self.depths@.contains_key(self.parents()[h]) && self.depths@[self.parents()[h]]
            < self.depths@[h]))
        &&& self.cums()[h] == (if self.parents()[h] == no_hash() {
            0nat
        } else {
            self.cums()[self.parents()[h]]
        }) + self.blocks()[h].header.difficulty
        &&& self.blocks()[h].header.prev_hash == self.parents()[h]
        &&& self.cums()[h] <= self.tip_cum()
        &&& (self.parents()[h] != no_hash() ==> hex_val(header_digest(self.blocks()[h].header))
            <= self.blocks()[h].header.difficulty)
    }

    /// The hashes from `h` toward genesis, following parent links; cut short
    /// only on malformed link structure, which a well-formed state never
    /// has.
    pub open spec fn chain_of(self, h: Seq<u8>) -> Seq<Seq<u8>>
        decreases (if self.depths@.contains_key(h) {
            self.depths@[h]
        } else {
            0nat
        }),
    {
        if h == no_hash() || !self.parents().contains_key(h) || !self.depths@.contains_key(h) {
            Seq::empty()
        } else if self.parents()[h] == no_hash() {
            seq![h]
        } else if !self.depths@.contains_key(self.parents()[h]) || self.depths@[self.parents()[h]]
            >= self.depths@[h] {
            seq![h]
        } else {
            seq![h] + self.chain_of(self.parents()[h])
        }
    }
}

impl Blockchain {
    /// The tip carries the greatest cumulative difficulty among all stored
    /// blocks, in every well-formed chain state.
    pub proof fn lemma_tip_cumulative_max(self, h: Seq<u8>)
        requires
            self.wf(),
            self.blocks().contains_key(h),
        ensures
            self.cums()[h] <= self.tip_cum(),
    {
        assert(self.block_entry_wf(h));
    }

    /// Every stored block with a known parent meets the proof-of-work
    /// bound it was stamped with.
    pub proof fn lemma_stored_blocks_meet_target(self, h: Seq<u8>)
        requires
            self.wf(),
            self.blocks().contains_key(h),
            self.parents()[h] != no_hash(),
        ensures
            hex_val(header_digest(self.blocks()[h].header)) <= self.blocks()[h].header.difficulty,
    {
        assert(self.block_entry_wf(h));
    }
}

/// The longest prefix of `chain` whose hashes do not appear in `other`.
pub open spec fn strip_until_common(chain: Seq<Seq<u8>>, other: Seq<Seq<u8>>) -> Seq<Seq<u8>>
    decreases chain.len(),
{
    if chain.len() == 0 {
        Seq::empty()
    } else if other.contains(chain.first()) {
        Seq::empty()
    } else {
        seq![chain.first()] + strip_until_common(chain.drop_first(), other)
    }
}

/// Reverts the listed blocks in order (tip side first).
pub open spec fn revert_chain(
    m: Ledger,
    hashes: Seq<Seq<u8>>,
    blocks: Map<Seq<u8>, BlockView>,
    miners: Map<Seq<u8>, Seq<u8>>,
    reward: nat,
) -> Option<Ledger>
    decreases hashes.len(),
{
    if hashes.len() == 0 {
        Some(m)
    } else if !blocks.contains_key(hashes.first()) || !miners.contains_key(hashes.first()) {
        None
    } else {
        match revert_block_ledger(
            m,
            blocks[hashes.first()].transactions,
            miners[hashes.first()],
            reward,
        ) {
            None => None,
            Some(m1) => revert_chain(m1, hashes.drop_first(), blocks, miners, reward),
        }
    }
}

/// Applies the listed blocks oldest first (the list is tip side first).
pub open spec fn apply_chain(
    m: Ledger,
    hashes: Seq<Seq<u8>>,
    blocks: Map<Seq<u8>, BlockView>,
    miners: Map<Seq<u8>, Seq<u8>>,
    reward: nat,
) -> Option<Ledger>
    decreases hashes.len(),
{
    if hashes.len() == 0 {
        Some(m)
    } else if !blocks.contains_key(hashes.last()) || !miners.contains_key(hashes.last()) {
        None
    } else {
        match apply_block_ledger(
            m,
            blocks[hashes.last()].transactions,
            miners[hashes.last()],
            reward,
        ) {
            None => None,
            Some(m1) => apply_chain(m1, hashes.drop_last(), blocks, miners, reward),
        }
    }
}

pub open spec fn views_of(s: Seq<Vec<u8>>) -> Seq<Seq<u8>> {
    s.map_values(|v: Vec<u8>| v@)
}

fn contains_hash(v: &Vec<Vec<u8>>, x: &Vec<u8>) -> (r: bool)
    ensures
        r == views_of(v@).contains(x@),
{
    let mut i: usize = 0;
    while i < v.len()
        invariant
            i <= v@.len(),
            forall|j: int| 0 <= j < i ==> v@[j]@ != x@,
        decreases v@.len() - i,
    {
        if crate::encoding::bytes_eq(&v[i], x) {
            proof {
                assert(views_of(v@)[i as int] == x@);
            }
            return true;
        }
        i = i + 1;
    }
    proof {
        if views_of(v@).contains(x@) {
            let j = choose|j: int| 0 <= j < views_of(v@).len() && views_of(v@)[j] == x@;
            assert(v@[j]@ == x@);
        }
    }
    false
}

impl Blockchain {
    /// Collects the hashes from `start` toward genesis.
    fn collect_chain(&self, start: &Vec<u8>) -> (r: Vec<Vec<u8>>)
        requires
            self.wf(),
        ensures
            views_of(r@) == self.chain_of(start@),
    {
        let mut r: Vec<Vec<u8>> = Vec::new();
        let mut cur: Vec<u8> = crate::encoding::clone_bytes(start);
        let mut done = cur.len() == 0 || !self.block_parent_map.contains_key(&cur);
        proof {
            assert(views_of(r@) + self.chain_of(cur@) =~= self.chain_of(start@));
        }
        while !done
            invariant
                self.wf(),
                views_of(r@) + self.chain_of(cur@) == self.chain_of(start@),
                done == (cur@.len() == 0 || !self.parents().contains_key(cur@)),
            decreases (if self.depths@.contains_key(cur@) {
                self.depths@[cur@] + 1
            } else {
                0nat
            }),
        {
            let ghost pre_r = views_of(r@);
            let ghost pre_cur = cur@;
            let parent: Vec<u8> = match self.block_parent_map.get(&cur) {
                Some(p) => crate::encoding::clone_bytes(p),
                None => {
                    proof {
                        assert(false);
                    }
                    Vec::new()
                },
            };
            proof {
                assert(self.blocks().contains_key(cur@));
                assert(self.block_entry_wf(cur@));
                assert(self.chain_of(cur@) == seq![cur@] + self.chain_of(parent@));
            }
            r.push(cur);
            cur = parent;
            done = cur.len() == 0 || !self.block_parent_map.contains_key(&cur);
            proof {
                assert(views_of(r@) =~= pre_r + seq![pre_cur]);
                assert((pre_r + seq![pre_cur]) + self.chain_of(cur@) =~= pre_r + (seq![
                    pre_cur,
                ] + self.chain_of(cur@)));
            }
        }
        proof {
            if cur@.len() == 0 {
                assert(cur@ =~= no_hash());
            }
            assert(self.chain_of(cur@) =~= Seq::<Seq<u8>>::empty());
            assert(views_of(r@) + self.chain_of(cur@) =~= views_of(r@));
        }
        r
    }

    /// Every hash on a collected chain names a stored block.
    pub proof fn lemma_chain_in_blocks(self, start: Seq<u8>)
        requires
            self.wf(),
        ensures
            forall|i: int|
                0 <= i < self.chain_of(start).len() ==> self.blocks().contains_key(
                    #[trigger] self.chain_of(start)[i],
                ),
        decreases (if self.depths@.contains_key(start) {
            self.depths@[start]
        } else {
            0nat
        }),
    {
        if start == no_hash() || !self.parents().contains_key(start)
            || !self.depths@.contains_key(start) {
        } else {
            assert(self.blocks().contains_key(start));
            assert(self.block_entry_wf(start));
            if self.parents()[start] == no_hash() {
            } else {
                self.lemma_chain_in_blocks(self.parents()[start]);
                assert forall|i: int| 0 <= i < self.chain_of(start).len() implies self.blocks(
                ).contains_key(#[trigger] self.chain_of(start)[i]) by {
                    if i > 0 {
                        assert(self.chain_of(start)[i] == self.chain_of(self.parents()[start])[i
                            - 1]);
                    }
                }
            }
        }
    }
}

/// Whatever the strip keeps was on the chain it was cut from.
pub proof fn lemma_strip_subset(chain: Seq<Seq<u8>>, other: Seq<Seq<u8>>)
    ensures
        forall|i: int|
            0 <= i < strip_until_common(chain, other).len() ==> chain.contains(
                #[trigger] strip_until_common(chain, other)[i],
            ),
    decreases chain.len(),
{
    if chain.len() == 0 {
    } else if other.contains(chain.first()) {
    } else {
        lemma_strip_subset(chain.drop_first(), other);
        assert forall|i: int| 0 <= i < strip_until_common(chain, other).len() implies chain
            .contains(#[trigger] strip_until_common(chain, other)[i]) by {
            if i == 0 {
                assert(chain[0] == chain.first());
            } else {
                let e = strip_until_common(chain, other)[i];
                assert(e == strip_until_common(chain.drop_first(), other)[i - 1]);
                assert(chain.drop_first().contains(e));
                let j = choose|j: int|
                    0 <= j < chain.drop_first().len() && chain.drop_first()[j] == e;
                assert(chain[j + 1] == e);
            }
        }
    }
}

/// Strips a chain down to the hashes before the first one shared with
/// `other`.
fn strip_chain(chain: &Vec<Vec<u8>>, other: &Vec<Vec<u8>>) -> (r: Vec<Vec<u8>>)
    ensures
        views_of(r@) == strip_until_common(views_of(chain@), views_of(other@)),
{
    let ghost cv = views_of(chain@);
    let ghost ov = views_of(other@);
    let mut r: Vec<Vec<u8>> = Vec::new();
    let mut i: usize = 0;
    let mut done = false;
    proof {
        assert(cv.skip(0) =~= cv);
        assert(views_of(r@) + Seq::<Seq<u8>>::empty() =~= views_of(r@));
    }
    while !done && i < chain.len()
        invariant
            i <= chain@.len(),
            cv == views_of(chain@),
            ov == views_of(other@),
            !done ==> strip_until_common(cv, ov) == views_of(r@) + strip_until_common(
                cv.skip(i as int),
                ov,
            ),
            done ==> strip_until_common(cv, ov) == views_of(r@),
        decreases chain@.len() - i, (if done {
            0int
        } else {
            1int
        }),
    {
        let ghost pre_r = views_of(r@);
        proof {
            assert(cv.skip(i as int).first() == cv[i as int]);
            assert(cv.skip(i as int).drop_first() =~= cv.skip(i + 1 as int));
        }
        if contains_hash(other, &chain[i]) {
            proof {
                assert(strip_until_common(cv.skip(i as int), ov) =~= Seq::<Seq<u8>>::empty());
                assert(pre_r + Seq::<Seq<u8>>::empty() =~= pre_r);
            }
            done = true;
        } else {
            r.push(crate::encoding::clone_bytes(&chain[i]));
            proof {
                assert(views_of(r@) =~= pre_r + seq![cv[i as int]]);
                assert((pre_r + seq![cv[i as int]]) + strip_until_common(
                    cv.skip(i + 1 as int),
                    ov,
                ) =~= pre_r + (seq![cv[i as int]] + strip_until_common(cv.skip(i + 1 as int), ov)));
            }
            i = i + 1;
        }
    }
    proof {
        if !done {
            assert(cv.skip(chain@.len() as int) =~= Seq::<Seq<u8>>::empty());
            assert(views_of(r@) + Seq::<Seq<u8>>::empty() =~= views_of(r@));
        }
    }
    r
}

/// The next difficulty target after a block arrives `ts - parent_ts`
/// seconds after its parent: widened by a fixed step when blocks come too
/// slowly, tightened by the same step when they come too quickly, saturating
/// at the ends of the 256-bit range.
pub open spec fn retargeted(d: nat, ts: nat, parent_ts: nat, target: nat) -> nat {
    let step: nat = 60000;
    if ts > parent_ts + target + 2 {
        if d < pow256() - 1 {
            if d + step <= pow256() - 1 {
                d + step
            } else {
                (pow256() - 1) as nat
            }
        } else {
            d
        }
    } else if (ts as int) < parent_ts + target - 2 {
        if d >= step {
            (d - step) as nat
        } else {
            0nat
        }
    } else {
        d
    }
}

impl Blockchain {
    /// The ledger after switching the canonical chain to the candidate
    /// block `b` with hash `h`: the old tip's exclusive suffix is reverted,
    /// then the candidate chain's exclusive suffix (the candidate last) is
    /// applied.
    pub open spec fn reorg_ledger(self, h: Seq<u8>, b: BlockView, pk: Seq<u8>) -> Option<Ledger> {
        let xblocks = self.blocks().insert(h, b);
        let xminers = self.miners().insert(h, pk);
        let old_chain = self.chain_of(self.tip());
        let new_chain = seq![h] + self.chain_of(b.header.prev_hash);
        let old_suffix = strip_until_common(old_chain, new_chain);
        let new_suffix = strip_until_common(new_chain, old_chain);
        match revert_chain(self.ledger(), old_suffix, xblocks, xminers, self.mining_reward@) {
            None => None,
            Some(m1) => apply_chain(m1, new_suffix, xblocks, xminers, self.mining_reward@),
        }
    }

    /// Switches the ledger over to the chain ending in the candidate block;
    /// on any failure along the way nothing changes and the candidate is
    /// rejected.
    #[verifier::rlimit(80)]
    pub fn reorg_to_new_longest_chain(
        &mut self,
        block_hash: &Vec<u8>,
        block: &Block,
        miner_public_key: &Vec<u8>,
    ) -> (r: bool)
        requires
            old(self).wf(),
            !old(self).blocks().contains_key(block_hash@),
        ensures
            r == (old(self).reorg_ledger(block_hash@, block@, miner_public_key@) is Some),
            (old(self).reorg_ledger(block_hash@, block@, miner_public_key@) matches Some(m)
                ==> final(self).ledger() == m),
            !r ==> *final(self) == *old(self),
            *final(self) == (Blockchain { accounts: final(self).accounts, ..*old(self) }),
    {
        let ghost pre = *old(self);
        let ghost xblocks = pre.blocks().insert(block_hash@, block@);
        let ghost xminers = pre.miners().insert(block_hash@, miner_public_key@);
        let ghost reward = pre.mining_reward@;
        let old_chain = self.collect_chain(&self.current_longest_chain_latest_block_hash);
        let new_tail = self.collect_chain(&block.header.prev_hash);
        let mut new_chain: Vec<Vec<u8>> = Vec::new();
        new_chain.push(crate::encoding::clone_bytes(block_hash));
        let mut k: usize = 0;
        proof {
            assert(views_of(new_chain@) =~= seq![block_hash@] + views_of(new_tail@).take(0));
        }
        while k < new_tail.len()
            invariant
                k <= new_tail@.len(),
                views_of(new_chain@) == seq![block_hash@] + views_of(new_tail@).take(k as int),
            decreases new_tail@.len() - k,
        {
            let ghost pre_nc = new_chain@;
            let elem = crate::encoding::clone_bytes(&new_tail[k]);
            let ghost ev = elem@;
            new_chain.push(elem);
            proof {
                let vt = views_of(new_tail@);
                assert(ev == vt[k as int]);
                assert(views_of(new_chain@) =~= views_of(pre_nc).push(ev));
                assert((seq![block_hash@] + vt.take(k as int)).push(vt[k as int]) =~= seq![
                    block_hash@,
                ] + vt.take(k + 1 as int));
            }
            k = k + 1;
        }
        proof {
            assert(views_of(new_tail@).take(new_tail@.len() as int) =~= views_of(new_tail@));
            assert(views_of(new_chain@) =~= seq![block_hash@] + pre.chain_of(
                block@.header.prev_hash,
            ));
        }
        let old_suffix = strip_chain(&old_chain, &new_chain);
        let new_suffix = strip_chain(&new_chain, &old_chain);
        let ghost osv = views_of(old_suffix@);
        let ghost nsv = views_of(new_suffix@);
        proof {
            pre.lemma_chain_in_blocks(pre.tip());
            pre.lemma_chain_in_blocks(block@.header.prev_hash);
            lemma_strip_subset(views_of(old_chain@), views_of(new_chain@));
            lemma_strip_subset(views_of(new_chain@), views_of(old_chain@));
        }
        proof {
            assert forall|j: int| 0 <= j < osv.len() implies pre.blocks().contains_key(
                #[trigger] osv[j],
            ) by {
                assert(views_of(old_chain@).contains(osv[j]));
                let x = choose|x: int|
                    0 <= x < views_of(old_chain@).len() && views_of(old_chain@)[x] == osv[j];
                assert(pre.chain_of(pre.tip())[x] == osv[j]);
            }
            assert forall|jj: int| 0 <= jj < nsv.len() implies nsv[jj] == block_hash@
                || pre.blocks().contains_key(#[trigger] nsv[jj]) by {
                assert(views_of(new_chain@).contains(nsv[jj]));
                let x = choose|x: int|
                    0 <= x < views_of(new_chain@).len() && views_of(new_chain@)[x] == nsv[jj];
                if x > 0 {
                    assert(pre.chain_of(block@.header.prev_hash)[x - 1] == nsv[jj]);
                }
            }
        }
        let mut work = self.accounts.duplicate();
        let ghost target = pre.reorg_ledger(block_hash@, block@, miner_public_key@);
        let mut i: usize = 0;
        proof {
            assert(osv.skip(0) =~= osv);
            assert(target == (match revert_chain(pre.ledger(), osv, xblocks, xminers, reward) {
                None => None::<Ledger>,
                Some(m1) => apply_chain(m1, nsv, xblocks, xminers, reward),
            }));
        }
        while i < old_suffix.len()
            invariant
                i <= old_suffix@.len(),
                osv == views_of(old_suffix@),
                pre == *old(self),
                *self == *old(self),
                pre.wf(),
                !pre.blocks().contains_key(block_hash@),
                xblocks == pre.blocks().insert(block_hash@, block@),
                xminers == pre.miners().insert(block_hash@, miner_public_key@),
                reward == pre.mining_reward@,
                forall|j: int| 0 <= j < osv.len() ==> pre.blocks().contains_key(#[trigger] osv[j]),
                nsv == views_of(new_suffix@),
                forall|jj: int|
                    0 <= jj < nsv.len() ==> nsv[jj] == block_hash@ || pre.blocks().contains_key(
                        #[trigger] nsv[jj],
                    ),
                target == pre.reorg_ledger(block_hash@, block@, miner_public_key@),
                target == (match revert_chain(work@, osv.skip(i as int), xblocks, xminers, reward) {
                    None => None::<Ledger>,
                    Some(m1) => apply_chain(m1, nsv, xblocks, xminers, reward),
                }),
            decreases old_suffix@.len() - i,
        {
            let ghost e = osv[i as int];
            proof {
                assert(osv.skip(i as int).first() == e);
                assert(osv.skip(i as int).drop_first() =~= osv.skip(i + 1 as int));
                assert(pre.blocks().contains_key(e));
                assert(e != block_hash@);
                assert(xblocks.contains_key(e) && xblocks[e] == pre.blocks()[e]);
                assert(pre.block_entry_wf(e));
                assert(xminers.contains_key(e) && xminers[e] == pre.miners()[e]);
            }
            let hash_i = &old_suffix[i];
            let blk: &Block = match self.hash_to_block.get(hash_i) {
                Some(b) => b,
                None => {
                    proof {
                        assert(false);
                    }
                    return false;
                },
            };
            let miner_i: &Vec<u8> = match self.hash_to_miner.get(hash_i) {
                Some(m) => m,
                None => {
                    proof {
                        assert(false);
                    }
                    return false;
                },
            };
            let ok = crate::ledger::revert_transactions(
                &mut work,
                &blk.transactions,
                miner_i,
                &self.mining_reward,
            );
            if !ok {
                return false;
            }
            i = i + 1;
        }
        proof {
            assert(osv.skip(old_suffix@.len() as int) =~= Seq::<Seq<u8>>::empty());
            assert(revert_chain(work@, Seq::<Seq<u8>>::empty(), xblocks, xminers, reward)
                == Some(work@));
            assert(nsv.take(new_suffix@.len() as int) =~= nsv);
        }
        let mut j: usize = new_suffix.len();
        while j > 0
            invariant
                j <= new_suffix@.len(),
                nsv == views_of(new_suffix@),
                pre == *old(self),
                *self == *old(self),
                pre.wf(),
                !pre.blocks().contains_key(block_hash@),
                xblocks == pre.blocks().insert(block_hash@, block@),
                xminers == pre.miners().insert(block_hash@, miner_public_key@),
                reward == pre.mining_reward@,
                forall|jj: int|
                    0 <= jj < nsv.len() ==> nsv[jj] == block_hash@ || pre.blocks().contains_key(
                        #[trigger] nsv[jj],
                    ),
                target == pre.reorg_ledger(block_hash@, block@, miner_public_key@),
                target == apply_chain(work@, nsv.take(j as int), xblocks, xminers, reward),
            decreases j,
        {
            let ghost e = nsv[j - 1 as int];
            proof {
                assert(nsv.take(j as int).last() == e);
                assert(nsv.take(j as int).drop_last() =~= nsv.take(j - 1 as int));
                assert(xblocks.contains_key(e));
                assert(xminers.contains_key(e));
            }
            let hash_j = &new_suffix[j - 1];
            let ok: bool;
            if crate::encoding::bytes_eq(hash_j, block_hash) {
                proof {
                    assert(xblocks[e] == block@);
                    assert(xminers[e] == miner_public_key@);
                }
                ok = crate::ledger::apply_transactions(
                    &mut work,
                    &block.transactions,
                    miner_public_key,
                    &self.mining_reward,
                );
            } else {
                proof {
                    assert(pre.blocks().contains_key(e));
                    assert(xblocks[e] == pre.blocks()[e]);
                    assert(pre.block_entry_wf(e));
                    assert(xminers[e] == pre.miners()[e]);
                }
                let blk: &Block = match self.hash_to_block.get(hash_j) {
                    Some(b) => b,
                    None => {
                        proof {
                            assert(false);
                        }
                        return false;
                    },
                };
                let miner_j: &Vec<u8> = match self.hash_to_miner.get(hash_j) {
                    Some(m) => m,
                    None => {
                        proof {
                            assert(false);
                        }
                        return false;
                    },
                };
                ok = crate::ledger::apply_transactions(
                    &mut work,
                    &blk.transactions,
                    miner_j,
                    &self.mining_reward,
                );
            }
            if !ok {
                return false;
            }
            j = j - 1;
        }
        proof {
            assert(nsv.take(0) =~= Seq::<Seq<u8>>::empty());
        }
        self.accounts = work;
        true
    }

    /// A block is structurally sound when it has transactions and commits
    /// to them through its Merkle root.
    pub open spec fn structurally_ok(b: BlockView) -> bool {
        b.transactions.len() > 0 && b.header.merkle_root == block_merkle_root(b.transactions)
    }

    /// The candidate with its difficulty replaced by the target the chain
    /// accepted the work against.
    pub open spec fn stamp(self, b: BlockView) -> BlockView {
        BlockView {
            header: HeaderView {
                nonce: b.header.nonce,
                timestamp: b.header.timestamp,
                prev_hash: b.header.prev_hash,
                difficulty: self.difficulty@,
                merkle_root: b.header.merkle_root,
            },
            transactions: b.transactions,
        }
    }

    /// The candidate's cumulative difficulty.
    pub open spec fn candidate_total(self, b: BlockView) -> nat {
        (if b.header.prev_hash == no_hash() {
            0nat
        } else {
            self.cums()[b.header.prev_hash]
        }) + self.difficulty@
    }

    /// The whole behaviour of block acceptance: the checks in order, then
    /// the three fork-choice outcomes, then the retarget on acceptance.
    pub open spec fn add_block_post(
        pre: Blockchain,
        post: Blockchain,
        b: BlockView,
        pk: Seq<u8>,
        r: bool,
    ) -> bool {
        let h = header_digest(b.header);
        let prev = b.header.prev_hash;
        let stamped = pre.stamp(b);
        let total = pre.candidate_total(b);
        if !Self::structurally_ok(b) {
            !r && post == pre
        } else if pre.blocks().contains_key(h) {
            !r && post == pre
        } else if prev != no_hash() && !pre.blocks().contains_key(prev) {
            !r && post == pre
        } else if prev != no_hash() && hex_val(h) > pre.difficulty@ {
            !r && post == pre
        } else if total >= pow256() {
            !r && post == pre
        } else {
            let outcome = if prev == pre.tip() {
                apply_block_ledger(pre.ledger(), b.transactions, pk, pre.mining_reward@)
            } else if total > pre.tip_cum() {
                pre.reorg_ledger(h, stamped, pk)
            } else {
                Some(pre.ledger())
            };
            match outcome {
                None => !r && post == pre,
                Some(m) => {
                    &&& r
                    &&& post.blocks() == pre.blocks().insert(h, stamped)
                    &&& post.miners() == pre.miners().insert(h, pk)
                    &&& post.parents() == pre.parents().insert(h, prev)
                    &&& post.cums() == pre.cums().insert(h, total)
                    &&& post.ledger() == m
                    &&& post.tip() == (if prev == pre.tip() || total > pre.tip_cum() {
                        h
                    } else {
                        pre.tip()
                    })
                    &&& post.difficulty@ == (if prev != no_hash() {
                        retargeted(
                            pre.difficulty@,
                            b.header.timestamp,
                            pre.blocks()[prev].header.timestamp,
                            pre.target_duration_between_blocks as nat,
                        )
                    } else {
                        pre.difficulty@
                    })
                    &&& post.target_duration_between_blocks == pre.target_duration_between_blocks
                    &&& post.max_transactions_per_block == pre.max_transactions_per_block
                    &&& post.blocks_between_difficulty_adjustment
                        == pre.blocks_between_difficulty_adjustment
                    &&& post.mining_reward == pre.mining_reward
                    &&& post.hash_to_miners_who_received_the_block
                        == pre.hash_to_miners_who_received_the_block
                },
            }
        }
    }

    /// A fresh chain: empty block store, the cumulative difficulty of the
    /// pre-genesis hash seeded at zero, and a mining reward of 1000.
    pub fn create_blockchain(
        difficulty: U256,
        target_duration_between_blocks: u64,
        max_transactions_per_block: usize,
        blocks_between_difficulty_adjustment: u64,
    ) -> (r: Blockchain)
        ensures
            r.wf(),
            r.blocks() == Map::<Seq<u8>, BlockView>::empty(),
            r.ledger() == Map::<Seq<u8>, AccountView>::empty(),
            r.tip() == no_hash(),
            r.difficulty == difficulty,
            r.target_duration_between_blocks == target_duration_between_blocks,
            r.max_transactions_per_block == max_transactions_per_block,
            r.blocks_between_difficulty_adjustment == blocks_between_difficulty_adjustment,
            r.mining_reward@ == 1000,
    {
        let mut hash_to_cumulative_difficulty: AList<U256> = AList::new();
        hash_to_cumulative_difficulty.insert(Vec::new(), U256::zero());
        Blockchain {
            hash_to_block: AList::new(),
            hash_to_miner: AList::new(),
            block_parent_map: AList::new(),
            hash_to_cumulative_difficulty,
            difficulty,
            target_duration_between_blocks,
            max_transactions_per_block,
            blocks_between_difficulty_adjustment,
            accounts: AList::new(),
            mining_reward: U256::from_u64(1000),
            current_longest_chain_latest_block_hash: Vec::new(),
            hash_to_miners_who_received_the_block: AList::new(),
            depths: Ghost(Map::tracked_empty()),
        }
    }

    pub fn get_block(&self, hash: &Vec<u8>) -> (r: Option<&Block>)
        ensures
            match r {
                Some(b) => self.blocks().contains_key(hash@) && b@ == self.blocks()[hash@],
                None => !self.blocks().contains_key(hash@),
            },
    {
        self.hash_to_block.get(hash)
    }

    pub fn set_difficulty(&mut self, new_difficulty: U256)
        ensures
            *final(self) == (Blockchain { difficulty: new_difficulty, ..*old(self) }),
    {
        self.difficulty = new_difficulty;
    }

    pub fn get_account(&self, public_key: &Vec<u8>) -> (r: Option<&AccountState>)
        ensures
            match r {
                Some(a) => self.ledger().contains_key(public_key@) && a@ == self.ledger().index(
                    public_key@,
                ),
                None => !self.ledger().contains_key(public_key@),
            },
    {
        self.accounts.get(public_key)
    }

    /// Creates a zeroed account for the key, replacing any balance and
    /// nonce already held under it.
    pub fn create_account(&mut self, public_key: &Vec<u8>) -> (r: AccountState)
        ensures
            *final(self) == (Blockchain {
                accounts: final(self).accounts,
                ..*old(self)
            }),
            final(self).ledger() == old(self).ledger().insert(
                public_key@,
                AccountView { balance: 0, nonce: 0 },
            ),
            r@ == (AccountView { balance: 0, nonce: 0 }),
    {
        let fresh = AccountState { balance: U256::zero(), nonce: 0 };
        self.accounts.insert(crate::encoding::clone_bytes(public_key), fresh);
        fresh
    }

    /// The balance under the key; an unknown key gets an account first.
    pub fn get_balance(&mut self, public_key: &Vec<u8>) -> (r: U256)
        ensures
            r@ == acct_or_new(old(self).ledger(), public_key@).balance,
            *final(self) == (Blockchain {
                accounts: final(self).accounts,
                ..*old(self)
            }),
            final(self).ledger() == (if old(self).ledger().contains_key(public_key@) {
                old(self).ledger()
            } else {
                old(self).ledger().insert(public_key@, AccountView { balance: 0, nonce: 0 })
            }),
    {
        let existing: Option<U256> = match self.accounts.get(public_key) {
            Some(a) => Some(a.balance),
            None => None,
        };
        match existing {
            Some(b) => {
                proof {
                    assert(final(self).ledger() =~= old(self).ledger());
                }
                b
            },
            None => {
                let fresh = self.create_account(public_key);
                fresh.balance
            },
        }
    }

    /// Credits freshly minted coins to an existing account.
    pub fn mint(&mut self, public_key: &Vec<u8>, amount: &U256) -> (r: bool)
        ensures
            r == (old(self).ledger().contains_key(public_key@) && old(self).ledger().index(
                public_key@,
            ).balance + amount@ < pow256()),
            *final(self) == (Blockchain {
                accounts: final(self).accounts,
                ..*old(self)
            }),
            r ==> final(self).ledger() == old(self).ledger().insert(
                public_key@,
                AccountView {
                    balance: old(self).ledger().index(public_key@).balance + amount@,
                    nonce: old(self).ledger().index(public_key@).nonce,
                },
            ),
            !r ==> final(self).ledger() == old(self).ledger(),
    {
        let acct: AccountState = match self.accounts.get(public_key) {
            Some(a) => *a,
            None => {
                return false;
            },
        };
        let new_balance = match acct.balance.checked_add(amount) {
            Some(b) => b,
            None => {
                return false;
            },
        };
        self.accounts.insert(
            crate::encoding::clone_bytes(public_key),
            AccountState { balance: new_balance, nonce: acct.nonce },
        );
        true
    }
}


impl Blockchain {
    /// Inserting a fresh, fully checked block preserves well-formedness.
    proof fn lemma_add_block_wf(
        pre: Blockchain,
        post: Blockchain,
        h: Seq<u8>,
        stamped: BlockView,
        pk: Seq<u8>,
        total: nat,
        new_tip: bool,
    )
        requires
            pre.wf(),
            h.len() == 64,
            !pre.blocks().contains_key(h),
            stamped.header.prev_hash == no_hash() || pre.blocks().contains_key(
                stamped.header.prev_hash,
            ),
            stamped.header.difficulty == pre.difficulty@,
            total == (if stamped.header.prev_hash == no_hash() {
                0nat
            } else {
                pre.cums()[stamped.header.prev_hash]
            }) + pre.difficulty@,
            stamped.header.prev_hash != no_hash() ==> hex_val(header_digest(stamped.header))
                <= pre.difficulty@,
            h == header_digest(stamped.header),
            new_tip ==> total >= pre.tip_cum(),
            !new_tip ==> total <= pre.tip_cum(),
            post.blocks() == pre.blocks().insert(h, stamped),
            post.miners() == pre.miners().insert(h, pk),
            post.parents() == pre.parents().insert(h, stamped.header.prev_hash),
            post.cums() == pre.cums().insert(h, total),
            post.tip() == (if new_tip {
                h
            } else {
                pre.tip()
            }),
            post.depths@ == pre.depths@.insert(
                h,
                (if stamped.header.prev_hash == no_hash() {
                    1nat
                } else {
                    pre.depths@[stamped.header.prev_hash] + 1
                }),
            ),
        ensures
            post.wf(),
    {
        let prev = stamped.header.prev_hash;
        assert(h != no_hash());
        assert(post.tip_cum() >= pre.tip_cum());
        if prev != no_hash() {
            assert(pre.block_entry_wf(prev));
        }
        assert forall|x: Seq<u8>| #[trigger] post.blocks().contains_key(x) implies
            post.block_entry_wf(x) by {
            if x == h {
                if prev != no_hash() {
                    assert(pre.block_entry_wf(prev));
                    assert(prev != h);
                }
                assert(post.block_entry_wf(h));
            } else {
                assert(pre.blocks().contains_key(x));
                assert(pre.block_entry_wf(x));
                assert(post.parents()[x] == pre.parents()[x]);
                if pre.parents()[x] != no_hash() {
                    assert(pre.blocks().contains_key(pre.parents()[x]));
                    assert(pre.parents()[x] != h);
                }
                assert(post.block_entry_wf(x));
            }
        }
    }

    /// Accepts or rejects a candidate block: structural and proof-of-work
    /// checks, insertion, fork choice (extend, side branch, or
    /// reorganization), and the difficulty retarget, exactly as
    /// `add_block_post` states.
    #[verifier::rlimit(100)]
    pub fn add_block(&mut self, block: Block, miner_public_key: Vec<u8>) -> (r: bool)
        requires
            old(self).wf(),
        ensures
            final(self).wf(),
            Self::add_block_post(*old(self), *final(self), block@, miner_public_key@, r),
    {
        let ghost pre = *old(self);
        let ghost b0 = block@;
        let mut block = block;
        if block.transactions.len() == 0 {
            return false;
        }
        let tree = crate::block::MerkleTree::build_tree(&block.transactions);
        let recomputed: Vec<u8> = match tree.root {
            Some(n) => n.value,
            None => {
                proof {
                    assert(false);
                }
                Vec::new()
            },
        };
        if !crate::encoding::bytes_eq(&block.header.merkle_root, &recomputed) {
            return false;
        }
        block.header.difficulty = self.difficulty;
        let ghost stamped = block@;
        proof {
            assert(stamped == pre.stamp(b0));
            assert(crate::block::header_text(stamped.header) =~= crate::block::header_text(
                b0.header,
            ));
        }
        let block_hash = crate::block::Block::hash_header(&block.header);
        let ghost h = header_digest(b0.header);
        proof {
            assert(block_hash@ == h);
        }
        if self.hash_to_block.contains_key(&block_hash) {
            return false;
        }
        let prev_is_empty = block.header.prev_hash.len() == 0;
        proof {
            if prev_is_empty {
                assert(b0.header.prev_hash =~= no_hash());
            }
        }
        let mut parent_timestamp: u64 = 0;
        if !prev_is_empty {
            let known = self.hash_to_block.contains_key(&block.header.prev_hash);
            if !known {
                return false;
            }
            let parent_block = match self.hash_to_block.get(&block.header.prev_hash) {
                Some(p) => p,
                None => {
                    proof {
                        assert(false);
                    }
                    return false;
                },
            };
            parent_timestamp = parent_block.header.timestamp;
            let digest_val = U256::from_hex_64(&block_hash);
            if digest_val.gt(&self.difficulty) {
                return false;
            }
        }
        let prev_cum: U256 = if prev_is_empty {
            U256::zero()
        } else {
            match self.hash_to_cumulative_difficulty.get(&block.header.prev_hash) {
                Some(c) => *c,
                None => {
                    proof {
                        assert(pre.blocks().contains_key(b0.header.prev_hash));
                        assert(pre.block_entry_wf(b0.header.prev_hash));
                        assert(false);
                    }
                    U256::zero()
                },
            }
        };
        let total = match prev_cum.checked_add(&self.difficulty) {
            Some(t) => t,
            None => {
                return false;
            },
        };
        let ghost total_v = pre.candidate_total(b0);
        proof {
            assert(total@ == total_v);
        }
        let extends = crate::encoding::bytes_eq(
            &block.header.prev_hash,
            &self.current_longest_chain_latest_block_hash,
        );
        let mut made_tip = false;
        if extends {
            let mut work = self.accounts.duplicate();
            let ok = crate::ledger::apply_transactions(
                &mut work,
                &block.transactions,
                &miner_public_key,
                &self.mining_reward,
            );
            if !ok {
                return false;
            }
            self.accounts = work;
            made_tip = true;
        } else {
            let tip_cum: U256 = if self.current_longest_chain_latest_block_hash.len() == 0 {
                U256::zero()
            } else {
                match self.hash_to_cumulative_difficulty.get(
                    &self.current_longest_chain_latest_block_hash,
                ) {
                    Some(c) => *c,
                    None => {
                        proof {
                            assert(pre.blocks().contains_key(pre.tip()));
                            assert(pre.block_entry_wf(pre.tip()));
                            assert(false);
                        }
                        U256::zero()
                    },
                }
            };
            proof {
                if pre.tip().len() == 0 {
                    assert(pre.tip() =~= no_hash());
                }
                assert(tip_cum@ == pre.tip_cum());
            }
            if total.gt(&tip_cum) {
                let ok = self.reorg_to_new_longest_chain(&block_hash, &block, &miner_public_key);
                if !ok {
                    return false;
                }
                made_tip = true;
            }
        }
        proof {
            if made_tip {
                if b0.header.prev_hash == pre.tip() {
                    if pre.tip() != no_hash() {
                        assert(pre.blocks().contains_key(pre.tip()));
                        assert(pre.block_entry_wf(pre.tip()));
                    }
                    assert(total_v >= pre.tip_cum());
                }
            }
        }
        self.finish_accept(
            block,
            miner_public_key,
            block_hash,
            total,
            parent_timestamp,
            prev_is_empty,
            made_tip,
            Ghost(pre),
            Ghost(b0),
        );
        true
    }

    /// Records an accepted block: side tables, block store, tip, ghost
    /// depth, and the difficulty retarget. The ledger is left alone.
    #[verifier::rlimit(100)]
    fn finish_accept(
        &mut self,
        block: Block,
        miner_public_key: Vec<u8>,
        block_hash: Vec<u8>,
        total: U256,
        parent_timestamp: u64,
        prev_is_empty: bool,
        made_tip: bool,
        Ghost(pre): Ghost<Blockchain>,
        Ghost(b0): Ghost<BlockView>,
    )
        requires
            pre.wf(),
            old(self).hash_to_block == pre.hash_to_block,
            old(self).hash_to_miner == pre.hash_to_miner,
            old(self).block_parent_map == pre.block_parent_map,
            old(self).hash_to_cumulative_difficulty == pre.hash_to_cumulative_difficulty,
            old(self).difficulty == pre.difficulty,
            old(self).target_duration_between_blocks == pre.target_duration_between_blocks,
            old(self).max_transactions_per_block == pre.max_transactions_per_block,
            old(self).blocks_between_difficulty_adjustment
                == pre.blocks_between_difficulty_adjustment,
            old(self).mining_reward == pre.mining_reward,
            old(self).current_longest_chain_latest_block_hash
                == pre.current_longest_chain_latest_block_hash,
            old(self).hash_to_miners_who_received_the_block
                == pre.hash_to_miners_who_received_the_block,
            old(self).depths == pre.depths,
            block@ == pre.stamp(b0),
            block_hash@ == header_digest(b0.header),
            block_hash@.len() == 64,
            !pre.blocks().contains_key(block_hash@),
            prev_is_empty == (b0.header.prev_hash == no_hash()),
            !prev_is_empty ==> pre.blocks().contains_key(b0.header.prev_hash),
            !prev_is_empty ==> parent_timestamp == pre.blocks().index(
                b0.header.prev_hash,
            ).header.timestamp,
            !prev_is_empty ==> hex_val(header_digest(b0.header)) <= pre.difficulty@,
            total@ == pre.candidate_total(b0),
            made_tip ==> total@ >= pre.tip_cum(),
            !made_tip ==> total@ <= pre.tip_cum(),
        ensures
            final(self).wf(),
            final(self).blocks() == pre.blocks().insert(block_hash@, pre.stamp(b0)),
            final(self).miners() == pre.miners().insert(block_hash@, miner_public_key@),
            final(self).parents() == pre.parents().insert(block_hash@, b0.header.prev_hash),
            final(self).cums() == pre.cums().insert(block_hash@, total@),
            final(self).tip() == (if made_tip {
                block_hash@
            } else {
                pre.tip()
            }),
            final(self).difficulty@ == (if !prev_is_empty {
                retargeted(
                    pre.difficulty@,
                    b0.header.timestamp,
                    pre.blocks()[b0.header.prev_hash].header.timestamp,
                    pre.target_duration_between_blocks as nat,
                )
            } else {
                pre.difficulty@
            }),
            final(self).ledger() == old(self).ledger(),
            final(self).target_duration_between_blocks == pre.target_duration_between_blocks,
            final(self).max_transactions_per_block == pre.max_transactions_per_block,
            final(self).blocks_between_difficulty_adjustment
                == pre.blocks_between_difficulty_adjustment,
            final(self).mining_reward == pre.mining_reward,
            final(self).hash_to_miners_who_received_the_block
                == pre.hash_to_miners_who_received_the_block,
    {
        let ghost h = block_hash@;
        let ghost stamped = block@;
        let ghost total_v = total@;
        let ghost depth_new: nat = if b0.header.prev_hash == no_hash() {
            1nat
        } else {
            pre.depths@[b0.header.prev_hash] + 1
        };
        proof {
            if !prev_is_empty {
                assert(pre.block_entry_wf(b0.header.prev_hash));
            }
        }
        self.hash_to_miner.insert(
            crate::encoding::clone_bytes(&block_hash),
            crate::encoding::clone_bytes(&miner_public_key),
        );
        self.block_parent_map.insert(
            crate::encoding::clone_bytes(&block_hash),
            crate::encoding::clone_bytes(&block.header.prev_hash),
        );
        self.hash_to_cumulative_difficulty.insert(
            crate::encoding::clone_bytes(&block_hash),
            total,
        );
        if made_tip {
            self.current_longest_chain_latest_block_hash = crate::encoding::clone_bytes(
                &block_hash,
            );
        }
        let ts = block.header.timestamp;
        self.hash_to_block.insert(crate::encoding::clone_bytes(&block_hash), block);
        self.depths = Ghost(pre.depths@.insert(h, depth_new));
        proof {
            Self::lemma_add_block_wf(
                pre,
                *self,
                h,
                stamped,
                miner_public_key@,
                total_v,
                made_tip,
            );
        }
        if !prev_is_empty {
            let step = U256::from_u64(60000);
            let max = U256::max_value();
            if (ts as u128) > (parent_timestamp as u128) + (
            self.target_duration_between_blocks as u128) + 2 {
                if self.difficulty.lt(&max) {
                    self.difficulty = match self.difficulty.checked_add(&step) {
                        Some(d) => d,
                        None => U256::max_value(),
                    };
                }
            } else if (ts as u128) + 2 < (parent_timestamp as u128) + (
            self.target_duration_between_blocks as u128) {
                self.difficulty = match self.difficulty.checked_sub(&step) {
                    Some(d) => d,
                    None => U256::zero(),
                };
            }
        }
        proof {
            assert(self.wf());
        }
    }
}

} // verus!
