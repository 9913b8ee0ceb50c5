//! Blocks: a batch of records with its place in the chain, its digest and
//! the proof-of-work search that seals it.

use vstd::prelude::*;
use vstd::utf8::*;
use crate::digest::{hex_digest, sha256, DIGEST_LEN};
use crate::text::{decimal_digits, hex_string, is_lower_hex, push_bytes, push_decimal};
use crate::transaction::{
    clone_records, models_of, records_bytes, NFTTransaction, TransactionModel,
};

verus! {

/// A batch of records with its place in the chain.
#[derive(Debug, PartialEq, Eq)]
pub struct Block {
    /// Position in the chain; 0 for the genesis block.
    pub index: u64,
    /// Milliseconds since the Unix epoch at creation.
    pub timestamp: u128,
    /// The records sealed in this block, in the order of their submission.
    pub data: Vec<NFTTransaction>,
    /// The digest of the block before this one; empty for the genesis block.
    pub previous_hash: String,
    /// The digest of this block's other fields.
    pub hash: String,
    /// The number that the proof-of-work search varies.
    pub nonce: u64,
}

/// What a block is, mathematically.
pub struct BlockModel {
    pub index: nat,
    pub timestamp: nat,
    pub records: Seq<TransactionModel>,
    pub previous_hash: Seq<char>,
    pub hash: Seq<char>,
    pub nonce: nat,
}

/// True when `hash` begins with `difficulty` characters `'0'`.
pub open spec fn meets_difficulty(hash: Seq<char>, difficulty: nat) -> bool {
    &&& difficulty <= hash.len()
    &&& forall|i: int| 0 <= i < difficulty ==> hash[i] == '0'
}

impl BlockModel {
    /// The part of the digest input that does not change during the search
    /// for a nonce: index, timestamp, records and previous digest.
    pub open spec fn preimage_prefix(self) -> Seq<u8> {
        decimal_digits(self.index) + decimal_digits(self.timestamp) + records_bytes(self.records)
            + encode_utf8(self.previous_hash)
    }

    /// The bytes that are hashed when the block carries `nonce`: the decimal
    /// index and timestamp, every field of every record, the previous
    /// digest and the decimal nonce, with nothing in between.
    pub open spec fn preimage_at(self, nonce: nat) -> Seq<u8> {
        self.preimage_prefix() + decimal_digits(nonce)
    }

    /// The digest that the block has when it carries `nonce`: the SHA-256
    /// hash of its digest input in lowercase hexadecimal.
    pub open spec fn digest_at(self, nonce: nat) -> Seq<char> {
        hex_string(sha256(self.preimage_at(nonce)))
    }

    /// The digest of the block as it stands. The stored `hash` is no part of
    /// its input.
    pub open spec fn digest(self) -> Seq<char> {
        self.digest_at(self.nonce)
    }

    /// True when the stored hash is the digest of the other fields.
    pub open spec fn hash_is_current(self) -> bool {
        self.hash == self.digest()
    }

    /// True when the digest for `nonce` begins with `difficulty` zeros.
    pub open spec fn solves(self, nonce: nat, difficulty: nat) -> bool {
        meets_difficulty(self.digest_at(nonce), difficulty)
    }

    /// True when `nonce` is the first number from the block's own nonce
    /// upwards, among those a `u64` can hold, whose digest meets `difficulty`.
    pub open spec fn first_solution(self, nonce: nat, difficulty: nat) -> bool {
        &&& self.nonce <= nonce <= u64::MAX
        &&& self.solves(nonce, difficulty)
        &&& forall|m: nat| self.nonce <= m < nonce ==> !self.solves(m, difficulty)
    }

    /// True when the search for a nonce can succeed: the difficulty is within
    /// the length of a digest, and some nonce from the block's own upwards
    /// solves it.
    pub open spec fn minable(self, difficulty: nat) -> bool {
        &&& difficulty <= DIGEST_LEN
        &&& exists|n: nat| self.nonce <= n <= u64::MAX && #[trigger] self.solves(n, difficulty)
    }

    /// The block with `nonce` in place and the hash that belongs to it.
    pub open spec fn mined(self, nonce: nat) -> BlockModel {
        BlockModel { nonce, hash: self.digest_at(nonce), ..self }
    }

    /// The nonce that the search ends on, where it can succeed.
    pub open spec fn winning_nonce(self, difficulty: nat) -> nat {
        choose|n: nat| self.first_solution(n, difficulty)
    }

    /// The block as the search leaves it, where it can succeed.
    pub open spec fn sealed(self, difficulty: nat) -> BlockModel {
        self.mined(self.winning_nonce(difficulty))
    }

    /// Where some nonce solves the difficulty, one of them is the first.
    pub proof fn lemma_minable_has_first_solution(self, difficulty: nat)
        requires
            self.minable(difficulty),
        ensures
            self.first_solution(self.winning_nonce(difficulty), difficulty),
    {
        let n = choose|n: nat| self.nonce <= n <= u64::MAX && #[trigger] self.solves(n, difficulty);
        self.lemma_least_solution(n, difficulty);
    }

    /// Below any solution lies a first one.
    proof fn lemma_least_solution(self, n: nat, difficulty: nat)
        requires
            self.nonce <= n <= u64::MAX,
            self.solves(n, difficulty),
        ensures
            exists|k: nat| self.first_solution(k, difficulty),
        decreases n,
    {
        if exists|m: nat| self.nonce <= m < n && self.solves(m, difficulty) {
            let m = choose|m: nat| self.nonce <= m < n && self.solves(m, difficulty);
            self.lemma_least_solution(m, difficulty);
        } else {
            assert(self.first_solution(n, difficulty));
        }
    }

    /// The first solution is the only one of its kind.
    pub proof fn lemma_first_solution_unique(self, a: nat, b: nat, difficulty: nat)
        requires
            self.first_solution(a, difficulty),
            self.first_solution(b, difficulty),
        ensures
            a == b,
            a == self.winning_nonce(difficulty),
    {
        if a < b {
            assert(!self.solves(a, difficulty));
        }
        if b < a {
            assert(!self.solves(b, difficulty));
        }
        let w = self.winning_nonce(difficulty);
        assert(self.first_solution(w, difficulty));
        if a < w {
            assert(!self.solves(a, difficulty));
        }
        if w < a {
            assert(!self.solves(w, difficulty));
        }
    }
}

impl View for Block {
    type V = BlockModel;

    open spec fn view(&self) -> BlockModel {
        BlockModel {
            index: self.index as nat,
            timestamp: self.timestamp as nat,
            records: models_of(self.data@),
            previous_hash: self.previous_hash@,
            hash: self.hash@,
            nonce: self.nonce as nat,
        }
    }
}

/// Tells whether `hash` begins with `difficulty` characters `'0'`.
pub fn has_leading_zeros(hash: &str, difficulty: usize) -> (met: bool)
    ensures
        met == meets_difficulty(hash@, difficulty as nat),
{
    if !hash.is_ascii() {
        return has_leading_zero_chars(hash, difficulty);
    }
    let bytes: &[u8] = hash.as_bytes();
    proof {
        is_ascii_chars_encode_utf8(hash@);
        assert forall|k: int| 0 <= k < bytes@.len() implies hash@[k] as u32
            == #[trigger] bytes@[k] by {
            assert('\0' <= hash@[k] <= '\u{7f}');
            assert(hash@[k] as u8 == encode_utf8(hash@)[k]);
        }
    }
    if difficulty > bytes.len() {
        return false;
    }
    let mut i: usize = 0;
    while i < difficulty
        invariant
            i <= difficulty <= bytes@.len(),
            bytes@.len() == hash@.len(),
            forall|k: int| 0 <= k < bytes@.len() ==> hash@[k] as u32 == #[trigger] bytes@[k],
            forall|k: int| 0 <= k < i ==> hash@[k] == '0',
        decreases difficulty - i,
    {
        let ghost c = hash@[i as int];
        assert(c as u32 == bytes@[i as int]);
        if bytes[i] != 48 {
            return false;
        }
        assert(c == '0') by {
            char_u32_cast(c, 48u32);
        }
        i = i + 1;
    }
    true
}

/// The same for a text with characters beyond ASCII, character by character.
fn has_leading_zero_chars(hash: &str, difficulty: usize) -> (met: bool)
    ensures
        met == meets_difficulty(hash@, difficulty as nat),
{
    if difficulty > hash.unicode_len() {
        return false;
    }
    let mut i: usize = 0;
    while i < difficulty
        invariant
            i <= difficulty <= hash@.len(),
            forall|k: int| 0 <= k < i ==> hash@[k] == '0',
        decreases difficulty - i,
    {
        if hash.get_char(i) != '0' {
            return false;
        }
        i = i + 1;
    }
    true
}

impl Block {
    /// A block with the given fields, nonce 0 and the digest that belongs to
    /// them.
    pub fn new(
        index: u64,
        timestamp: u128,
        data: Vec<NFTTransaction>,
        previous_hash: String,
    ) -> (block: Self)
        ensures
            block.index == index,
            block.timestamp == timestamp,
            block.data == data,
            block.previous_hash == previous_hash,
            block.nonce == 0,
            block@.hash_is_current(),
            block.hash@.len() == DIGEST_LEN,
            is_lower_hex(block.hash@),
    {
        let mut block =
            Block { index, timestamp, data, previous_hash, hash: String::new(), nonce: 0 };
        let hash = block.calculate_hash();
        block.hash = hash;
        block
    }

    /// The bytes of the digest input that come before the nonce.
    fn preimage_prefix(&self) -> (prefix: Vec<u8>)
        ensures
            prefix@ == self@.preimage_prefix(),
    {
        let mut prefix: Vec<u8> = Vec::new();
        push_decimal(&mut prefix, self.index as u128);
        push_decimal(&mut prefix, self.timestamp);
        let ghost head = prefix@;
        let ghost records = models_of(self.data@);
        assert(records.subrange(0, 0) =~= Seq::<TransactionModel>::empty());
        let mut i: usize = 0;
        while i < self.data.len()
            invariant
                i <= self.data@.len(),
                records == models_of(self.data@),
                head == decimal_digits(self.index as nat) + decimal_digits(self.timestamp as nat),
                prefix@ == head + records_bytes(records.subrange(0, i as int)),
            decreases self.data@.len() - i,
        {
            let record = &self.data[i];
            let ghost before = prefix@;
            push_bytes(&mut prefix, record.first_name.as_str().as_bytes());
            push_bytes(&mut prefix, record.last_name.as_str().as_bytes());
            push_bytes(&mut prefix, record.class_number.as_str().as_bytes());
            push_bytes(&mut prefix, record.image_hash.as_str().as_bytes());
            proof {
                let upto = records.subrange(0, i + 1);
                assert(upto.drop_last() =~= records.subrange(0, i as int));
                assert(upto.last() == record@);
                assert(prefix@ =~= before + record@.bytes());
                assert(prefix@ =~= head + records_bytes(upto));
            }
            i = i + 1;
        }
        assert(records.subrange(0, i as int) =~= records);
        push_bytes(&mut prefix, self.previous_hash.as_str().as_bytes());
        assert(prefix@ =~= self@.preimage_prefix());
        prefix
    }

    /// The bytes that are hashed for the block's digest: the decimal index
    /// and timestamp, every field of every record in order, the previous
    /// digest and the decimal nonce, with nothing in between.
    pub fn preimage(&self) -> (preimage: Vec<u8>)
        ensures
            preimage@ == self@.preimage_at(self@.nonce),
    {
        let mut preimage = self.preimage_prefix();
        push_decimal(&mut preimage, self.nonce as u128);
        preimage
    }

    /// The digest of the block's fields as they stand: the SHA-256 hash of
    /// its digest input, in lowercase hexadecimal. The stored `hash` is not
    /// read.
    pub fn calculate_hash(&self) -> (hash: String)
        ensures
            hash@ == self@.digest(),
            hash@.len() == DIGEST_LEN,
            is_lower_hex(hash@),
    {
        let preimage = self.preimage();
        hex_digest(preimage.as_slice())
    }

    /// Searches for the first nonce, from the block's own upwards, whose
    /// digest begins with `difficulty` zeros, and returns whether there is
    /// one.
    ///
    /// On success the block carries that nonce and its digest. Where no
    /// nonce that a `u64` can hold solves the difficulty, or the difficulty
    /// is above the length of a digest, the block is left as it was.
    pub fn mine_block(&mut self, difficulty: usize) -> (sealed: bool)
        ensures
            sealed == old(self)@.minable(difficulty as nat),
            sealed ==> old(self)@.first_solution(final(self).nonce as nat, difficulty as nat),
            sealed ==> final(self)@ == old(self)@.sealed(difficulty as nat),
            sealed ==> final(self).data == old(self).data,
            sealed ==> final(self).hash@.len() == DIGEST_LEN && is_lower_hex(final(self).hash@),
            !sealed ==> *final(self) == *old(self),
    {
        if difficulty > DIGEST_LEN {
            return false;
        }
        let mut preimage = self.preimage_prefix();
        let prefix_len: usize = preimage.len();
        let ghost model = self@;
        let mut nonce: u64 = self.nonce;
        loop
            invariant
                *self == *old(self),
                model == old(self)@,
                difficulty <= DIGEST_LEN,
                preimage@ == model.preimage_prefix(),
                prefix_len == preimage@.len(),
                model.nonce <= nonce,
                forall|m: nat| model.nonce <= m < nonce ==> !model.solves(m, difficulty as nat),
            decreases u64::MAX - nonce,
        {
            push_decimal(&mut preimage, nonce as u128);
            let hash = hex_digest(preimage.as_slice());
            assert(hash@ == model.digest_at(nonce as nat));
            preimage.truncate(prefix_len);
            assert(preimage@ =~= model.preimage_prefix());
            if has_leading_zeros(hash.as_str(), difficulty) {
                self.nonce = nonce;
                self.hash = hash;
                assert(model.solves(nonce as nat, difficulty as nat));
                assert(self@ == model.mined(nonce as nat));
                proof {
                    model.lemma_first_solution_unique(
                        nonce as nat,
                        nonce as nat,
                        difficulty as nat,
                    );
                }
                return true;
            }
            if nonce == u64::MAX {
                return false;
            }
            nonce = nonce + 1;
        }
    }
}

impl Clone for Block {
    fn clone(&self) -> (copy: Self)
        ensures
            copy@ == self@,
            copy.data@ == self.data@,
    {
        Block {
            index: self.index,
            timestamp: self.timestamp,
            data: clone_records(&self.data),
            previous_hash: self.previous_hash.clone(),
            hash: self.hash.clone(),
            nonce: self.nonce,
        }
    }
}

} // verus!
