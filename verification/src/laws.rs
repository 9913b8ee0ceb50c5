//! Laws of the ledger: what holds of every ledger that the operations can
//! produce, and what tampering with a block does to the chain.

use vstd::prelude::*;
use vstd::utf8::*;
use crate::block::{meets_difficulty, BlockModel};
use crate::blockchain::{sound_at, valid_chain, LedgerModel};
use crate::digest::sha256;
use crate::storage::{decode_ledger, encode_ledger, lemma_ledger_round_trip};
use crate::text::{
    decimal_digits, lemma_decimal_injective, lemma_hex_string_injective, lemma_utf8_injective,
};
use crate::transaction::{records_bytes, TransactionModel};

verus! {

/// One step in the life of a ledger.
pub enum Operation {
    /// A record is put into the pool.
    Submit(TransactionModel),
    /// The pool is sealed into a block stamped with the given time.
    Seal(nat),
}

impl LedgerModel {
    /// The ledger after one operation.
    pub open spec fn step(self, operation: Operation) -> LedgerModel {
        match operation {
            Operation::Submit(record) => self.after_submit(record),
            Operation::Seal(timestamp) => self.after_seal(timestamp),
        }
    }

    /// The ledger after a sequence of operations, the first one first.
    pub open spec fn run(self, operations: Seq<Operation>) -> LedgerModel
        decreases operations.len(),
    {
        if operations.len() == 0 {
            self
        } else {
            self.run(operations.drop_last()).step(operations.last())
        }
    }
}

/// A block that was sealed meets the difficulty: where sealing the pool
/// succeeds, the hash of the new last block begins with as many zeros as the
/// difficulty asks for.
pub proof fn lemma_sealed_block_meets_difficulty(ledger: LedgerModel, timestamp: nat)
    requires
        ledger.well_formed(),
        ledger.can_add(ledger.pending, timestamp),
    ensures
        ledger.after_seal(timestamp).chain.len() == ledger.chain.len() + 1,
        meets_difficulty(ledger.after_seal(timestamp).chain.last().hash, ledger.difficulty),
{
    ledger.lemma_add_keeps_shape(ledger.pending, timestamp);
}

/// Submitting and sealing keep a ledger well formed and valid.
pub proof fn lemma_step_keeps_valid(ledger: LedgerModel, operation: Operation)
    requires
        ledger.well_formed(),
        ledger.valid(),
    ensures
        ledger.step(operation).well_formed(),
        ledger.step(operation).valid(),
{
    match operation {
        Operation::Submit(record) => {},
        Operation::Seal(timestamp) => {
            ledger.lemma_add_keeps_shape(ledger.pending, timestamp);
        },
    }
}

/// Every ledger that grows from a genesis block by submitting and sealing
/// alone is well formed and valid.
pub proof fn lemma_history_is_valid(difficulty: nat, timestamp: nat, operations: Seq<Operation>)
    ensures
        LedgerModel::genesis(difficulty, timestamp).run(operations).well_formed(),
        LedgerModel::genesis(difficulty, timestamp).run(operations).valid(),
    decreases operations.len(),
{
    let start = LedgerModel::genesis(difficulty, timestamp);
    if operations.len() == 0 {
        assert(start.well_formed());
        assert(start.valid());
    } else {
        lemma_history_is_valid(difficulty, timestamp, operations.drop_last());
        lemma_step_keeps_valid(start.run(operations.drop_last()), operations.last());
    }
}

/// Sealing an empty pool twice in a row, where both searches succeed, adds
/// two blocks to the chain. Each holds no records, each is sound in its
/// place, and the two differ.
pub proof fn lemma_two_empty_seals(ledger: LedgerModel, first: nat, second: nat)
    requires
        ledger.well_formed(),
        ledger.pending.len() == 0,
        ledger.can_add(ledger.pending, first),
        ledger.after_seal(first).can_add(ledger.after_seal(first).pending, second),
    ensures
        ({
            let end = ledger.after_seal(first).after_seal(second);
            let n = ledger.chain.len() as int;
            &&& end.chain.len() == n + 2
            &&& end.chain.subrange(0, n) == ledger.chain
            &&& end.chain[n].records.len() == 0
            &&& end.chain[n + 1].records.len() == 0
            &&& sound_at(end.chain, n, ledger.difficulty)
            &&& sound_at(end.chain, n + 1, ledger.difficulty)
            &&& end.chain[n] != end.chain[n + 1]
            &&& end.pending.len() == 0
            &&& end.difficulty == ledger.difficulty
            &&& ledger.valid() ==> end.valid()
        }),
{
    let middle = ledger.after_seal(first);
    let end = middle.after_seal(second);
    let n = ledger.chain.len() as int;
    ledger.lemma_add_keeps_shape(ledger.pending, first);
    middle.lemma_add_keeps_shape(middle.pending, second);
    ledger.candidate(ledger.pending, first).lemma_minable_has_first_solution(ledger.difficulty);
    middle.candidate(middle.pending, second).lemma_minable_has_first_solution(middle.difficulty);
    assert(middle.chain == ledger.chain.push(middle.chain.last()));
    assert(end.chain == middle.chain.push(end.chain.last()));
    assert(end.chain.subrange(0, n) =~= ledger.chain);
    assert(end.chain[n] == middle.chain.last());
    assert(end.chain[n - 1] == ledger.chain.last());
    assert(end.chain[n].index == n);
    assert(end.chain[n + 1].index == n + 1);
}

/// Storing and reading back: a ledger that can be stored reads back with
/// the chain and the difficulty it had, and with an empty pool.
pub proof fn lemma_restore_inverts_export(ledger: LedgerModel)
    requires
        ledger.storable(),
    ensures
        decode_ledger(encode_ledger(ledger)) is Some,
        decode_ledger(encode_ledger(ledger))->0.chain == ledger.chain,
        decode_ledger(encode_ledger(ledger))->0.difficulty == ledger.difficulty,
        decode_ledger(encode_ledger(ledger))->0.pending.len() == 0,
{
    lemma_ledger_round_trip(ledger);
}

/// Two sequences that agree after the same prefix and before the same
/// suffix have been taken away were the same in between.
pub proof fn lemma_infix_cancel<T>(head: Seq<T>, x: Seq<T>, y: Seq<T>, tail: Seq<T>)
    requires
        head + x + tail == head + y + tail,
    ensures
        x == y,
{
    let a = head + x + tail;
    let b = head + y + tail;
    assert(a.len() == head.len() + x.len() + tail.len());
    assert(b.len() == head.len() + y.len() + tail.len());
    assert(x.len() == y.len());
    assert forall|i: int| 0 <= i < x.len() implies x[i] == y[i] by {
        assert(a[head.len() + i] == x[i]);
        assert(b[head.len() + i] == y[i]);
    }
    assert(x =~= y);
}

/// The digest input of records put one after the other is the digest input
/// of the first followed by that of the second.
pub proof fn lemma_records_bytes_concat(a: Seq<TransactionModel>, b: Seq<TransactionModel>)
    ensures
        records_bytes(a + b) == records_bytes(a) + records_bytes(b),
    decreases b.len(),
{
    if b.len() == 0 {
        assert(a + b =~= a);
        assert(records_bytes(a) + records_bytes(b) =~= records_bytes(a));
    } else {
        lemma_records_bytes_concat(a, b.drop_last());
        assert((a + b).drop_last() =~= a + b.drop_last());
        assert((a + b).last() == b.last());
        assert(records_bytes(a + b) =~= records_bytes(a) + records_bytes(b));
    }
}

/// True when `b` is `a` with exactly one of its four fields replaced by
/// another text.
pub open spec fn one_field_replaced(a: TransactionModel, b: TransactionModel) -> bool {
    ||| b == TransactionModel { first_name: b.first_name, ..a } && b.first_name != a.first_name
    ||| b == TransactionModel { last_name: b.last_name, ..a } && b.last_name != a.last_name
    ||| b == TransactionModel { class_number: b.class_number, ..a } && b.class_number
        != a.class_number
    ||| b == TransactionModel { image_hash: b.image_hash, ..a } && b.image_hash != a.image_hash
}

/// True when `b` is `a` with exactly one field given another value, and so
/// the stored hash left as it was: the index, the timestamp, the previous
/// digest, the nonce, or the records. Of a change to the records this asks
/// that it shows in the bytes they contribute to the digest input, as the
/// replacement of one field of one record does
/// ([`lemma_record_field_tampered`]); the digest input has no separators, so
/// a record with four empty fields, for one, comes and goes unseen.
pub open spec fn one_field_tampered(a: BlockModel, b: BlockModel) -> bool {
    ||| b == BlockModel { index: b.index, ..a } && b.index != a.index
    ||| b == BlockModel { timestamp: b.timestamp, ..a } && b.timestamp != a.timestamp
    ||| b == BlockModel { previous_hash: b.previous_hash, ..a } && b.previous_hash
        != a.previous_hash
    ||| b == BlockModel { nonce: b.nonce, ..a } && b.nonce != a.nonce
    ||| b == BlockModel { records: b.records, ..a } && records_bytes(b.records) != records_bytes(
        a.records,
    )
}

/// Replacing one field of a record changes what the record contributes to
/// the digest input.
pub proof fn lemma_record_bytes_change(a: TransactionModel, b: TransactionModel)
    requires
        one_field_replaced(a, b),
    ensures
        a.bytes() != b.bytes(),
{
    let none = Seq::<u8>::empty();
    let f1 = encode_utf8(a.first_name);
    let f2 = encode_utf8(a.last_name);
    let f3 = encode_utf8(a.class_number);
    let f4 = encode_utf8(a.image_hash);
    if a.bytes() == b.bytes() {
        if b.first_name != a.first_name {
            let g = encode_utf8(b.first_name);
            assert(a.bytes() =~= none + f1 + (f2 + f3 + f4));
            assert(b.bytes() =~= none + g + (f2 + f3 + f4));
            lemma_infix_cancel(none, f1, g, f2 + f3 + f4);
            lemma_utf8_injective(a.first_name, b.first_name);
        } else if b.last_name != a.last_name {
            let g = encode_utf8(b.last_name);
            assert(a.bytes() =~= f1 + f2 + (f3 + f4));
            assert(b.bytes() =~= f1 + g + (f3 + f4));
            lemma_infix_cancel(f1, f2, g, f3 + f4);
            lemma_utf8_injective(a.last_name, b.last_name);
        } else if b.class_number != a.class_number {
            let g = encode_utf8(b.class_number);
            assert(a.bytes() =~= (f1 + f2) + f3 + f4);
            assert(b.bytes() =~= (f1 + f2) + g + f4);
            lemma_infix_cancel(f1 + f2, f3, g, f4);
            lemma_utf8_injective(a.class_number, b.class_number);
        } else {
            let g = encode_utf8(b.image_hash);
            assert(a.bytes() =~= (f1 + f2 + f3) + f4 + none);
            assert(b.bytes() =~= (f1 + f2 + f3) + g + none);
            lemma_infix_cancel(f1 + f2 + f3, f4, g, none);
            lemma_utf8_injective(a.image_hash, b.image_hash);
        }
    }
}

/// Five sequences put one after the other change when exactly one of them
/// changes.
proof fn lemma_one_part_changed(a: Seq<Seq<u8>>, b: Seq<Seq<u8>>, k: int)
    requires
        a.len() == 5,
        b.len() == 5,
        0 <= k < 5,
        forall|j: int| 0 <= j < 5 && j != k ==> a[j] == b[j],
        a[k] != b[k],
    ensures
        a[0] + a[1] + a[2] + a[3] + a[4] != b[0] + b[1] + b[2] + b[3] + b[4],
{
    let none = Seq::<u8>::empty();
    let x = a[0] + a[1] + a[2] + a[3] + a[4];
    let y = b[0] + b[1] + b[2] + b[3] + b[4];
    if x == y {
        if k == 0 {
            let tail = a[1] + a[2] + a[3] + a[4];
            assert(x =~= none + a[0] + tail);
            assert(y =~= none + b[0] + tail);
            lemma_infix_cancel(none, a[0], b[0], tail);
        } else if k == 1 {
            let tail = a[2] + a[3] + a[4];
            assert(x =~= a[0] + a[1] + tail);
            assert(y =~= a[0] + b[1] + tail);
            lemma_infix_cancel(a[0], a[1], b[1], tail);
        } else if k == 2 {
            let tail = a[3] + a[4];
            assert(x =~= (a[0] + a[1]) + a[2] + tail);
            assert(y =~= (a[0] + a[1]) + b[2] + tail);
            lemma_infix_cancel(a[0] + a[1], a[2], b[2], tail);
        } else if k == 3 {
            assert(x =~= (a[0] + a[1] + a[2]) + a[3] + a[4]);
            assert(y =~= (a[0] + a[1] + a[2]) + b[3] + a[4]);
            lemma_infix_cancel(a[0] + a[1] + a[2], a[3], b[3], a[4]);
        } else {
            assert(x =~= (a[0] + a[1] + a[2] + a[3]) + a[4] + none);
            assert(y =~= (a[0] + a[1] + a[2] + a[3]) + b[4] + none);
            lemma_infix_cancel(a[0] + a[1] + a[2] + a[3], a[4], b[4], none);
        }
    }
}

/// The five parts of a block's digest input, in order.
pub open spec fn preimage_parts(block: BlockModel) -> Seq<Seq<u8>> {
    seq![
        decimal_digits(block.index),
        decimal_digits(block.timestamp),
        records_bytes(block.records),
        encode_utf8(block.previous_hash),
        decimal_digits(block.nonce),
    ]
}

/// Replacing one field of one record changes what the records contribute to
/// the digest input.
pub proof fn lemma_records_bytes_change(
    records: Seq<TransactionModel>,
    j: int,
    replacement: TransactionModel,
)
    requires
        0 <= j < records.len(),
        one_field_replaced(records[j], replacement),
    ensures
        records_bytes(records) != records_bytes(records.update(j, replacement)),
{
    let changed = records.update(j, replacement);
    let before = records.subrange(0, j);
    let after = records.subrange(j + 1, records.len() as int);
    let old_one = seq![records[j]];
    let new_one = seq![replacement];
    assert(records =~= before + old_one + after);
    assert(changed =~= before + new_one + after);
    lemma_records_bytes_concat(before + old_one, after);
    lemma_records_bytes_concat(before, old_one);
    lemma_records_bytes_concat(before + new_one, after);
    lemma_records_bytes_concat(before, new_one);
    let nothing = Seq::<TransactionModel>::empty();
    assert(records_bytes(nothing) =~= Seq::<u8>::empty());
    assert(records_bytes(old_one) =~= records[j].bytes()) by {
        assert(old_one.drop_last() =~= nothing);
        assert(old_one.last() == records[j]);
    }
    assert(records_bytes(new_one) =~= replacement.bytes()) by {
        assert(new_one.drop_last() =~= nothing);
        assert(new_one.last() == replacement);
    }
    lemma_record_bytes_change(records[j], replacement);
    if records_bytes(records) == records_bytes(changed) {
        lemma_infix_cancel(
            records_bytes(before),
            records[j].bytes(),
            replacement.bytes(),
            records_bytes(after),
        );
    }
}

/// Replacing one field of one record of a block is tampering with the
/// block's records.
pub proof fn lemma_record_field_tampered(block: BlockModel, j: int, replacement: TransactionModel)
    requires
        0 <= j < block.records.len(),
        one_field_replaced(block.records[j], replacement),
    ensures
        one_field_tampered(
            block,
            BlockModel { records: block.records.update(j, replacement), ..block },
        ),
{
    lemma_records_bytes_change(block.records, j, replacement);
}

/// Giving one field of a block another value changes the block's digest
/// input.
pub proof fn lemma_tampering_changes_preimage(a: BlockModel, b: BlockModel)
    requires
        one_field_tampered(a, b),
    ensures
        a.preimage_at(a.nonce) != b.preimage_at(b.nonce),
{
    let pa = preimage_parts(a);
    let pb = preimage_parts(b);
    assert(a.preimage_at(a.nonce) == pa[0] + pa[1] + pa[2] + pa[3] + pa[4]);
    assert(b.preimage_at(b.nonce) == pb[0] + pb[1] + pb[2] + pb[3] + pb[4]);
    if b.index != a.index {
        if pa[0] == pb[0] {
            lemma_decimal_injective(a.index, b.index);
        }
        lemma_one_part_changed(pa, pb, 0);
    } else if b.timestamp != a.timestamp {
        if pa[1] == pb[1] {
            lemma_decimal_injective(a.timestamp, b.timestamp);
        }
        lemma_one_part_changed(pa, pb, 1);
    } else if b.previous_hash != a.previous_hash {
        if pa[3] == pb[3] {
            lemma_utf8_injective(a.previous_hash, b.previous_hash);
        }
        lemma_one_part_changed(pa, pb, 3);
    } else if b.nonce != a.nonce {
        if pa[4] == pb[4] {
            lemma_decimal_injective(a.nonce, b.nonce);
        }
        lemma_one_part_changed(pa, pb, 4);
    } else {
        lemma_one_part_changed(pa, pb, 2);
    }
}

/// Tampering is detected unless it breaks SHA-256. Take a valid ledger and
/// give one field of a block after the genesis block another value, leaving
/// the stored hash as it was. If the chain is still valid, the digest
/// inputs of the block before and after the change are two different
/// messages with the same SHA-256 hash.
pub proof fn lemma_tampering_is_detected(ledger: LedgerModel, i: int, tampered: BlockModel)
    requires
        ledger.valid(),
        1 <= i < ledger.chain.len(),
        one_field_tampered(ledger.chain[i], tampered),
    ensures
        tampered.hash == ledger.chain[i].hash,
        valid_chain(ledger.chain.update(i, tampered), ledger.difficulty) ==> {
            let before = ledger.chain[i].preimage_at(ledger.chain[i].nonce);
            let after = tampered.preimage_at(tampered.nonce);
            before != after && sha256(before) == sha256(after)
        },
{
    let intact = ledger.chain[i];
    let chain = ledger.chain.update(i, tampered);
    lemma_tampering_changes_preimage(intact, tampered);
    assert(sound_at(ledger.chain, i, ledger.difficulty));
    if valid_chain(chain, ledger.difficulty) {
        assert(sound_at(chain, i, ledger.difficulty));
        assert(chain[i] == tampered);
        assert(tampered.digest() == intact.digest());
        lemma_hex_string_injective(
            sha256(intact.preimage_at(intact.nonce)),
            sha256(tampered.preimage_at(tampered.nonce)),
        );
    }
}

} // verus!
