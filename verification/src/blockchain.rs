//! The ledger: a chain of blocks, the difficulty that every block after the
//! first has to meet, and the pool of records that wait for the next block.

use vstd::prelude::*;
use crate::block::{has_leading_zeros, meets_difficulty, Block, BlockModel};
use crate::clock::{since_epoch, timestamp_from_reading};
use crate::digest::DIGEST_LEN;
use crate::text::is_lower_hex;
use crate::transaction::{clone_records, models_of, NFTTransaction, TransactionModel};

verus! {

/// A chain of blocks with its pool of pending records.
#[derive(Debug, PartialEq, Eq)]
pub struct Blockchain {
    /// The blocks, oldest first. The first one is the genesis block.
    pub chain: Vec<Block>,
    /// The number of leading zeros that the hash of a sealed block has.
    pub difficulty: usize,
    /// The records submitted since the last block, oldest first.
    pub pending_transactions: Vec<NFTTransaction>,
}

/// What a ledger is, mathematically.
pub struct LedgerModel {
    pub chain: Seq<BlockModel>,
    pub difficulty: nat,
    pub pending: Seq<TransactionModel>,
}

/// The models of a sequence of blocks, in order.
pub open spec fn blocks_of(chain: Seq<Block>) -> Seq<BlockModel> {
    Seq::new(chain.len(), |i: int| chain[i]@)
}

/// True when block `i` of `chain` is sound: its hash is the digest of its
/// fields, its previous digest is the hash of the block before it, and its
/// hash begins with `difficulty` zeros.
pub open spec fn sound_at(chain: Seq<BlockModel>, i: int, difficulty: nat) -> bool
    recommends
        1 <= i < chain.len(),
{
    &&& chain[i].hash_is_current()
    &&& chain[i].previous_hash == chain[i - 1].hash
    &&& meets_difficulty(chain[i].hash, difficulty)
}

/// True when every block of `chain` after the first is sound. The first
/// block, the genesis block, is exempt.
pub open spec fn valid_chain(chain: Seq<BlockModel>, difficulty: nat) -> bool {
    forall|i: int| 1 <= i < chain.len() ==> #[trigger] sound_at(chain, i, difficulty)
}

impl LedgerModel {
    /// The ledger that holds nothing but a genesis block stamped
    /// `timestamp`: index 0, no records, an empty previous digest, nonce 0
    /// and the digest of these.
    pub open spec fn genesis(difficulty: nat, timestamp: nat) -> LedgerModel {
        let first = BlockModel {
            index: 0,
            timestamp,
            records: Seq::empty(),
            previous_hash: Seq::empty(),
            hash: Seq::empty(),
            nonce: 0,
        };
        LedgerModel { chain: seq![first.mined(0)], difficulty, pending: Seq::empty() }
    }

    /// True when the chain has a genesis block and every block's index is its
    /// position.
    pub open spec fn well_formed(self) -> bool {
        &&& self.chain.len() > 0
        &&& forall|i: int| 0 <= i < self.chain.len() ==> (#[trigger] self.chain[i]).index == i
    }

    /// True when every block after the genesis block is sound.
    pub open spec fn valid(self) -> bool {
        valid_chain(self.chain, self.difficulty)
    }

    /// The block that is put up for mining after the last block of the
    /// chain: the next index, the hash of the last block as previous digest,
    /// nonce 0 and the digest that belongs to these.
    pub open spec fn candidate(self, records: Seq<TransactionModel>, timestamp: nat) -> BlockModel
        recommends
            self.chain.len() > 0,
    {
        let draft = BlockModel {
            index: self.chain.last().index + 1,
            timestamp,
            records,
            previous_hash: self.chain.last().hash,
            hash: Seq::empty(),
            nonce: 0,
        };
        draft.mined(0)
    }

    /// True when a block with `records`, stamped `timestamp`, can be sealed.
    pub open spec fn can_add(self, records: Seq<TransactionModel>, timestamp: nat) -> bool {
        self.candidate(records, timestamp).minable(self.difficulty)
    }

    /// The ledger after an attempt to append a block with `records`: with
    /// the sealed block at its end where the search succeeds, unchanged
    /// where it cannot.
    pub open spec fn after_add(
        self,
        records: Seq<TransactionModel>,
        timestamp: nat,
    ) -> LedgerModel {
        if self.can_add(records, timestamp) {
            LedgerModel {
                chain: self.chain.push(self.candidate(records, timestamp).sealed(self.difficulty)),
                ..self
            }
        } else {
            self
        }
    }

    /// The ledger after an attempt to seal the pending records: with the
    /// sealed block at its end and an empty pool where the search succeeds,
    /// unchanged where it cannot.
    pub open spec fn after_seal(self, timestamp: nat) -> LedgerModel {
        if self.can_add(self.pending, timestamp) {
            LedgerModel { pending: Seq::empty(), ..self.after_add(self.pending, timestamp) }
        } else {
            self
        }
    }

    /// A block that was sealed at the end of the chain keeps the chain well
    /// formed and valid, and its hash meets the difficulty.
    pub proof fn lemma_add_keeps_shape(self, records: Seq<TransactionModel>, timestamp: nat)
        requires
            self.well_formed(),
        ensures
            self.after_add(records, timestamp).well_formed(),
            self.valid() ==> self.after_add(records, timestamp).valid(),
            self.can_add(records, timestamp) ==> meets_difficulty(
                self.after_add(records, timestamp).chain.last().hash,
                self.difficulty,
            ),
            self.after_add(records, timestamp).difficulty == self.difficulty,
    {
        let after = self.after_add(records, timestamp);
        if self.can_add(records, timestamp) {
            let candidate = self.candidate(records, timestamp);
            let nonce = candidate.winning_nonce(self.difficulty);
            candidate.lemma_minable_has_first_solution(self.difficulty);
            assert(candidate.first_solution(nonce, self.difficulty));
            let block = candidate.sealed(self.difficulty);
            assert(after.chain == self.chain.push(block));
            assert(block.hash == block.digest());
            assert(after.chain.last() == block);
            assert forall|i: int| 0 <= i < after.chain.len() implies (#[trigger] after.chain[
                i
            ]).index == i by {
                if i < self.chain.len() {
                    assert(after.chain[i] == self.chain[i]);
                }
            }
            if self.valid() {
                assert forall|i: int| 1 <= i < after.chain.len() implies #[trigger] sound_at(
                    after.chain,
                    i,
                    self.difficulty,
                ) by {
                    if i < self.chain.len() {
                        assert(sound_at(self.chain, i, self.difficulty));
                        assert(after.chain[i] == self.chain[i]);
                        assert(after.chain[i - 1] == self.chain[i - 1]);
                    } else {
                        assert(after.chain[i] == block);
                        assert(after.chain[i - 1] == self.chain.last());
                    }
                }
            }
        }
    }

    /// The ledger with `record` at the end of its pool.
    pub open spec fn after_submit(self, record: TransactionModel) -> LedgerModel {
        LedgerModel { pending: self.pending.push(record), ..self }
    }
}

/// A copy of `chain`.
pub fn clone_blocks(chain: &Vec<Block>) -> (copy: Vec<Block>)
    ensures
        blocks_of(copy@) == blocks_of(chain@),
{
    let mut copy: Vec<Block> = Vec::new();
    let mut i: usize = 0;
    while i < chain.len()
        invariant
            i <= chain@.len(),
            copy@.len() == i,
            forall|k: int| 0 <= k < i ==> (#[trigger] copy@[k])@ == chain@[k]@,
        decreases chain@.len() - i,
    {
        copy.push(chain[i].clone());
        i = i + 1;
    }
    assert(blocks_of(copy@) =~= blocks_of(chain@));
    copy
}

impl Clone for Blockchain {
    fn clone(&self) -> (copy: Self)
        ensures
            copy@ == self@,
    {
        Blockchain {
            chain: clone_blocks(&self.chain),
            difficulty: self.difficulty,
            pending_transactions: clone_records(&self.pending_transactions),
        }
    }
}

impl View for Blockchain {
    type V = LedgerModel;

    open spec fn view(&self) -> LedgerModel {
        LedgerModel {
            chain: blocks_of(self.chain@),
            difficulty: self.difficulty as nat,
            pending: models_of(self.pending_transactions@),
        }
    }
}

impl Blockchain {
    /// The current time in milliseconds since the Unix epoch, as new blocks
    /// are stamped with it: the timestamp of what the clock reads, 0 where
    /// it reads a time before the epoch. Any timestamp may come of it.
    pub fn current_time() -> (timestamp: u128) {
        let reading = match since_epoch() {
            Some(elapsed) => Some(elapsed.as_millis()),
            None => None,
        };
        timestamp_from_reading(reading)
    }

    /// A ledger with a genesis block stamped `timestamp` and an empty pool.
    pub fn new_at(difficulty: usize, timestamp: u128) -> (ledger: Self)
        ensures
            ledger@ == LedgerModel::genesis(difficulty as nat, timestamp as nat),
            ledger@.well_formed(),
            ledger@.valid(),
            ledger@.chain[0].hash.len() == DIGEST_LEN,
            is_lower_hex(ledger@.chain[0].hash),
    {
        let genesis = Block::new(0, timestamp, Vec::new(), String::new());
        let mut chain: Vec<Block> = Vec::new();
        chain.push(genesis);
        let ledger = Blockchain { chain, difficulty, pending_transactions: Vec::new() };
        proof {
            let model = LedgerModel::genesis(difficulty as nat, timestamp as nat);
            assert(ledger@.chain[0].records =~= model.chain[0].records);
            assert(ledger@.chain[0] == model.chain[0]);
            assert(ledger@.chain =~= model.chain);
            assert(ledger@.pending =~= model.pending);
        }
        ledger
    }

    /// A ledger with a genesis block stamped with the current time and an
    /// empty pool.
    pub fn new(difficulty: usize) -> (ledger: Self)
        ensures
            exists|timestamp: nat| ledger@ == LedgerModel::genesis(difficulty as nat, timestamp),
            ledger@.well_formed(),
            ledger@.valid(),
            ledger@.chain[0].hash.len() == DIGEST_LEN,
            is_lower_hex(ledger@.chain[0].hash),
    {
        Blockchain::new_at(difficulty, Blockchain::current_time())
    }

    /// Tells whether the chain has a genesis block and every block's index
    /// is its position: what appending a block asks of the ledger.
    pub fn is_well_formed(&self) -> (well_formed: bool)
        ensures
            well_formed == self@.well_formed(),
    {
        if self.chain.len() == 0 {
            return false;
        }
        let mut i: usize = 0;
        while i < self.chain.len()
            invariant
                i <= self.chain@.len(),
                forall|k: int| 0 <= k < i ==> (#[trigger] self@.chain[k]).index == k,
            decreases self.chain@.len() - i,
        {
            assert(self@.chain[i as int] == self.chain@[i as int]@);
            if self.chain[i].index != i as u64 {
                return false;
            }
            i = i + 1;
        }
        true
    }

    /// Tells whether the chain is intact: every block after the genesis
    /// block carries the digest of its own fields as its hash, names the
    /// hash of the block before it as its previous digest, and has a hash
    /// that begins with as many zeros as the difficulty asks for.
    pub fn is_chain_valid(&self) -> (valid: bool)
        ensures
            valid == self@.valid(),
    {
        let mut i: usize = 1;
        while i < self.chain.len()
            invariant
                1 <= i,
                forall|k: int|
                    1 <= k < i && k < self.chain@.len() ==> #[trigger] sound_at(
                        self@.chain,
                        k,
                        self@.difficulty,
                    ),
            decreases self.chain@.len() - i,
        {
            let current = &self.chain[i];
            let previous = &self.chain[i - 1];
            assert(current@ == self@.chain[i as int]);
            assert(previous@ == self@.chain[i - 1]);
            let expected = current.calculate_hash();
            if !(current.hash == expected) {
                assert(!sound_at(self@.chain, i as int, self@.difficulty));
                return false;
            }
            if !(current.previous_hash == previous.hash) {
                assert(!sound_at(self@.chain, i as int, self@.difficulty));
                return false;
            }
            if !has_leading_zeros(current.hash.as_str(), self.difficulty) {
                assert(!sound_at(self@.chain, i as int, self@.difficulty));
                return false;
            }
            assert(sound_at(self@.chain, i as int, self@.difficulty));
            i = i + 1;
        }
        true
    }

    /// A copy of the chain and the difficulty, for a reader to keep while
    /// the ledger moves on.
    pub fn snapshot(&self) -> (copy: (Vec<Block>, usize))
        ensures
            blocks_of(copy.0@) == self@.chain,
            copy.1 == self.difficulty,
    {
        (clone_blocks(&self.chain), self.difficulty)
    }

    /// Puts `transaction` at the end of the pool. Nothing is mined.
    pub fn create_transaction(&mut self, transaction: NFTTransaction)
        ensures
            final(self)@ == old(self)@.after_submit(transaction@),
            final(self).chain == old(self).chain,
            final(self).pending_transactions@ == old(self).pending_transactions@.push(transaction),
    {
        self.pending_transactions.push(transaction);
        assert(self@.pending =~= old(self)@.pending.push(transaction@));
    }

    /// Mines a block with the records `data` after the last block and
    /// appends it. Where the search cannot succeed, the ledger is left as it
    /// was and the records are handed back.
    fn append_mined(&mut self, data: Vec<NFTTransaction>, timestamp: u128) -> (unsealed: Option<
        Vec<NFTTransaction>,
    >)
        requires
            old(self)@.well_formed(),
        ensures
            unsealed is None <==> old(self)@.can_add(models_of(data@), timestamp as nat),
            unsealed is Some ==> unsealed->0 == data && *final(self) == *old(self),
            final(self)@ == old(self)@.after_add(models_of(data@), timestamp as nat),
            final(self).difficulty == old(self).difficulty,
            final(self).pending_transactions == old(self).pending_transactions,
            unsealed is None ==> final(self)@.chain.last().hash.len() == DIGEST_LEN && is_lower_hex(
                final(self)@.chain.last().hash,
            ),
    {
        let last = &self.chain[self.chain.len() - 1];
        assert(last@ == self@.chain.last());
        let mut block = Block::new(last.index + 1, timestamp, data, last.hash.clone());
        assert(block@ == old(self)@.candidate(models_of(data@), timestamp as nat));
        if block.mine_block(self.difficulty) {
            self.chain.push(block);
            assert(self@.chain =~= old(self)@.chain.push(block@));
            None
        } else {
            Some(block.data)
        }
    }

    /// Tries to append a block with the records `data`, stamped `timestamp`,
    /// and returns whether the block was sealed. The pool is not touched.
    pub fn add_block_at(&mut self, data: Vec<NFTTransaction>, timestamp: u128) -> (sealed: bool)
        requires
            old(self)@.well_formed(),
        ensures
            sealed == old(self)@.can_add(models_of(data@), timestamp as nat),
            final(self)@ == old(self)@.after_add(models_of(data@), timestamp as nat),
            final(self)@.well_formed(),
            old(self)@.valid() ==> final(self)@.valid(),
            sealed ==> meets_difficulty(final(self)@.chain.last().hash, final(self)@.difficulty),
            sealed ==> final(self)@.chain.last().hash.len() == DIGEST_LEN && is_lower_hex(
                final(self)@.chain.last().hash,
            ),
    {
        proof {
            old(self)@.lemma_add_keeps_shape(models_of(data@), timestamp as nat);
        }
        self.append_mined(data, timestamp).is_none()
    }

    /// Tries to append a block with the records `data`, stamped with the
    /// current time, and returns whether the block was sealed.
    pub fn add_block(&mut self, data: Vec<NFTTransaction>) -> (sealed: bool)
        requires
            old(self)@.well_formed(),
        ensures
            exists|timestamp: nat|
                {
                    &&& sealed == old(self)@.can_add(models_of(data@), timestamp)
                    &&& final(self)@ == old(self)@.after_add(models_of(data@), timestamp)
                },
            final(self)@.well_formed(),
            old(self)@.valid() ==> final(self)@.valid(),
            sealed ==> meets_difficulty(final(self)@.chain.last().hash, final(self)@.difficulty),
            sealed ==> final(self)@.chain.last().hash.len() == DIGEST_LEN && is_lower_hex(
                final(self)@.chain.last().hash,
            ),
    {
        let timestamp = Blockchain::current_time();
        let sealed = self.add_block_at(data, timestamp);
        assert(sealed == old(self)@.can_add(models_of(data@), timestamp as nat) && self@ == old(
            self,
        )@.after_add(models_of(data@), timestamp as nat));
        sealed
    }

    /// Tries to seal the pending records into a new block stamped
    /// `timestamp`, and returns whether the block was sealed. On success the
    /// pool is empty; otherwise nothing has changed.
    pub fn mine_pending_transactions_at(&mut self, timestamp: u128) -> (sealed: bool)
        requires
            old(self)@.well_formed(),
        ensures
            sealed == old(self)@.can_add(old(self)@.pending, timestamp as nat),
            final(self)@ == old(self)@.after_seal(timestamp as nat),
            final(self)@.well_formed(),
            old(self)@.valid() ==> final(self)@.valid(),
            sealed ==> meets_difficulty(final(self)@.chain.last().hash, final(self)@.difficulty),
            sealed ==> final(self)@.chain.last().hash.len() == DIGEST_LEN && is_lower_hex(
                final(self)@.chain.last().hash,
            ),
    {
        proof {
            old(self)@.lemma_add_keeps_shape(old(self)@.pending, timestamp as nat);
        }
        let mut records: Vec<NFTTransaction> = Vec::new();
        core::mem::swap(&mut records, &mut self.pending_transactions);
        assert(self@.pending =~= Seq::<TransactionModel>::empty());
        assert(self@.chain == old(self)@.chain);
        match self.append_mined(records, timestamp) {
            None => true,
            Some(records) => {
                self.pending_transactions = records;
                false
            },
        }
    }

    /// Tries to seal the pending records into a new block stamped with the
    /// current time, and returns whether the block was sealed.
    pub fn mine_pending_transactions(&mut self) -> (sealed: bool)
        requires
            old(self)@.well_formed(),
        ensures
            exists|timestamp: nat|
                {
                    &&& sealed == old(self)@.can_add(old(self)@.pending, timestamp)
                    &&& final(self)@ == old(self)@.after_seal(timestamp)
                },
            final(self)@.well_formed(),
            old(self)@.valid() ==> final(self)@.valid(),
            sealed ==> meets_difficulty(final(self)@.chain.last().hash, final(self)@.difficulty),
            sealed ==> final(self)@.chain.last().hash.len() == DIGEST_LEN && is_lower_hex(
                final(self)@.chain.last().hash,
            ),
    {
        let timestamp = Blockchain::current_time();
        let sealed = self.mine_pending_transactions_at(timestamp);
        assert(sealed == old(self)@.can_add(old(self)@.pending, timestamp as nat) && self@ == old(
            self,
        )@.after_seal(timestamp as nat));
        sealed
    }
}

} // verus!
