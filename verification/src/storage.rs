//! Storing a ledger as bytes and reading it back.
//!
//! The chain and the difficulty are stored; the pool of pending records is
//! not. A ledger is a structure with the fields `chain` and `difficulty`, a
//! block one with `index`, `timestamp`, `previous_hash`, `hash`, `nonce` and
//! `records`, a record one with `first_name`, `last_name`, `class_number`
//! and `image_hash`. Fields of other names are passed over.

use vstd::prelude::*;
use vstd::slice::slice_to_vec;
use vstd::utf8::*;
use crate::block::{Block, BlockModel};
use crate::blockchain::{blocks_of, Blockchain, LedgerModel};
use crate::codec::{
    be_bytes, be_value, bodies_of, chunk, field, find, join_chunks, lemma_be_round_trip,
    lemma_be_value_bound, lemma_body_within, lemma_radix_power_values, lemma_split_join, push_be,
    push_chunk, radix_power, read_be, split, split_chunks, split_fields, split_pairs, WIDE, WORD,
};
use crate::text::{lemma_utf8_injective, string_from_utf8};
use crate::transaction::{models_of, NFTTransaction, TransactionModel};

verus! {

/// Why bytes were not accepted as a stored ledger: they do not have the
/// layout of one, a field is missing or of the wrong size, a text is not
/// UTF-8, or the difficulty is beyond the machine's reach.
#[derive(Debug, Clone, Copy, PartialEq, Eq)]
pub struct FormatError {}

impl FormatError {
    /// The error in words.
    pub fn message(&self) -> (text: String)
        ensures
            text@ == "the bytes do not store a ledger"@,
    {
        "the bytes do not store a ledger".to_owned()
    }
}

/// `bytes` with one more field behind them.
pub open spec fn with_field(bytes: Seq<u8>, name: Seq<char>, value: Seq<u8>) -> Seq<u8> {
    bytes + chunk(encode_utf8(name)) + chunk(value)
}

/// The text in the first field called `name`, where there is one and it is
/// UTF-8.
pub open spec fn text_field(chunks: Seq<Seq<u8>>, name: Seq<char>) -> Option<Seq<char>> {
    match field(chunks, encode_utf8(name)) {
        Some(value) => if valid_utf8(value) {
            Some(decode_utf8(value))
        } else {
            None
        },
        None => None,
    }
}

/// The number in the first field called `name`, where there is one and it
/// has `width` bytes.
pub open spec fn number_field(chunks: Seq<Seq<u8>>, name: Seq<char>, width: nat) -> Option<nat> {
    match field(chunks, encode_utf8(name)) {
        Some(value) => if value.len() == width {
            Some(be_value(value))
        } else {
            None
        },
        None => None,
    }
}

/// The items of the list in the first field called `name`, where there is
/// one and it is a list.
pub open spec fn list_field(chunks: Seq<Seq<u8>>, name: Seq<char>) -> Option<Seq<Seq<u8>>> {
    match field(chunks, encode_utf8(name)) {
        Some(value) => split_chunks(value),
        None => None,
    }
}

/// The bytes that store a record.
#[verifier::opaque]
pub open spec fn encode_record(record: TransactionModel) -> Seq<u8> {
    let a = with_field(Seq::empty(), "first_name"@, encode_utf8(record.first_name));
    let b = with_field(a, "last_name"@, encode_utf8(record.last_name));
    let c = with_field(b, "class_number"@, encode_utf8(record.class_number));
    with_field(c, "image_hash"@, encode_utf8(record.image_hash))
}

/// The record that `bytes` store, if any.
#[verifier::opaque]
pub open spec fn decode_record(bytes: Seq<u8>) -> Option<TransactionModel> {
    match split_fields(bytes) {
        Some(chunks) => match (
            text_field(chunks, "first_name"@),
            text_field(chunks, "last_name"@),
            text_field(chunks, "class_number"@),
            text_field(chunks, "image_hash"@),
        ) {
            (Some(first_name), Some(last_name), Some(class_number), Some(image_hash)) => Some(
                TransactionModel { first_name, last_name, class_number, image_hash },
            ),
            _ => None,
        },
        None => None,
    }
}

/// The items that store `records`, in order.
pub open spec fn encode_records(records: Seq<TransactionModel>) -> Seq<Seq<u8>> {
    Seq::new(records.len(), |i: int| encode_record(records[i]))
}

/// The records that `items` store, if each of them stores one.
pub open spec fn decode_records(items: Seq<Seq<u8>>) -> Option<Seq<TransactionModel>> {
    if forall|i: int| 0 <= i < items.len() ==> (#[trigger] decode_record(items[i])) is Some {
        Some(Seq::new(items.len(), |i: int| decode_record(items[i])->0))
    } else {
        None
    }
}

/// The bytes that store a block.
#[verifier::opaque]
pub open spec fn encode_block(block: BlockModel) -> Seq<u8> {
    let a = with_field(Seq::empty(), "index"@, be_bytes(block.index, WORD as nat));
    let b = with_field(a, "timestamp"@, be_bytes(block.timestamp, WIDE as nat));
    let c = with_field(b, "previous_hash"@, encode_utf8(block.previous_hash));
    let d = with_field(c, "hash"@, encode_utf8(block.hash));
    let e = with_field(d, "nonce"@, be_bytes(block.nonce, WORD as nat));
    with_field(e, "records"@, join_chunks(encode_records(block.records)))
}

/// The block that `bytes` store, if any.
#[verifier::opaque]
pub open spec fn decode_block(bytes: Seq<u8>) -> Option<BlockModel> {
    match split_fields(bytes) {
        Some(chunks) => match (
            number_field(chunks, "index"@, WORD as nat),
            number_field(chunks, "timestamp"@, WIDE as nat),
            text_field(chunks, "previous_hash"@),
            text_field(chunks, "hash"@),
            number_field(chunks, "nonce"@, WORD as nat),
            list_field(chunks, "records"@),
        ) {
            (
                Some(index),
                Some(timestamp),
                Some(previous_hash),
                Some(hash),
                Some(nonce),
                Some(items),
            ) => {
                match decode_records(items) {
                    Some(records) => Some(
                        BlockModel { index, timestamp, records, previous_hash, hash, nonce },
                    ),
                    None => None,
                }
            },
            _ => None,
        },
        None => None,
    }
}

/// The items that store `blocks`, in order.
pub open spec fn encode_blocks(blocks: Seq<BlockModel>) -> Seq<Seq<u8>> {
    Seq::new(blocks.len(), |i: int| encode_block(blocks[i]))
}

/// The blocks that `items` store, if each of them stores one.
pub open spec fn decode_blocks(items: Seq<Seq<u8>>) -> Option<Seq<BlockModel>> {
    if forall|i: int| 0 <= i < items.len() ==> (#[trigger] decode_block(items[i])) is Some {
        Some(Seq::new(items.len(), |i: int| decode_block(items[i])->0))
    } else {
        None
    }
}

impl LedgerModel {
    /// The ledger as it is stored: without its pool.
    pub open spec fn stored(self) -> LedgerModel {
        LedgerModel { pending: Seq::empty(), ..self }
    }
}

/// The bytes that store a ledger: its chain and its difficulty.
#[verifier::opaque]
pub open spec fn encode_ledger(ledger: LedgerModel) -> Seq<u8> {
    let a = with_field(Seq::empty(), "chain"@, join_chunks(encode_blocks(ledger.chain)));
    with_field(a, "difficulty"@, be_bytes(ledger.difficulty, WORD as nat))
}

/// The ledger that `bytes` store, if any: a chain, a difficulty that a
/// `usize` can hold, and an empty pool. The chain is taken as it is found:
/// whether it is well formed and valid is for the ledger to tell.
#[verifier::opaque]
pub open spec fn decode_ledger(bytes: Seq<u8>) -> Option<LedgerModel> {
    match split_fields(bytes) {
        Some(chunks) => match (
            list_field(chunks, "chain"@),
            number_field(chunks, "difficulty"@, WORD as nat),
        ) {
            (Some(items), Some(difficulty)) => match decode_blocks(items) {
                Some(chain) => {
                    let ledger = LedgerModel { chain, difficulty, pending: Seq::empty() };
                    if difficulty <= usize::MAX {
                        Some(ledger)
                    } else {
                        None
                    }
                },
                None => None,
            },
            _ => None,
        },
        None => None,
    }
}

impl BlockModel {
    /// True when the block's numbers are such as the machine's types hold.
    pub open spec fn in_range(self) -> bool {
        &&& self.index <= u64::MAX
        &&& self.timestamp <= u128::MAX
        &&& self.nonce <= u64::MAX
    }
}

impl LedgerModel {
    /// True when the ledger can be stored: its numbers are such as the
    /// machine's types hold, and the bytes that store it are no more than a
    /// chunk's length can say.
    pub open spec fn storable(self) -> bool {
        &&& self.difficulty <= usize::MAX
        &&& forall|i: int| 0 <= i < self.chain.len() ==> (#[trigger] self.chain[i]).in_range()
        &&& encode_ledger(self).len() <= u64::MAX
    }
}

/// A field put behind chunks is two more chunks.
pub proof fn lemma_with_field_joins(chunks: Seq<Seq<u8>>, name: Seq<char>, value: Seq<u8>)
    ensures
        with_field(join_chunks(chunks), name, value) == join_chunks(
            chunks.push(encode_utf8(name)).push(value),
        ),
{
    let one = chunks.push(encode_utf8(name));
    let two = one.push(value);
    assert(two.drop_last() =~= one);
    assert(two.last() == value);
    assert(one.drop_last() =~= chunks);
    assert(one.last() == encode_utf8(name));
    assert(join_chunks(one) == join_chunks(chunks) + chunk(encode_utf8(name)));
    assert(join_chunks(two) == join_chunks(one) + chunk(value));
}

/// The names of a record's fields differ from each other.
proof fn lemma_record_names()
    ensures
        "first_name"@ != "last_name"@,
        "first_name"@ != "class_number"@,
        "first_name"@ != "image_hash"@,
        "last_name"@ != "class_number"@,
        "last_name"@ != "image_hash"@,
        "class_number"@ != "image_hash"@,
{
    reveal_strlit("first_name");
    reveal_strlit("last_name");
    reveal_strlit("class_number");
    reveal_strlit("image_hash");
    assert("first_name"@.len() == 10 && "last_name"@.len() == 9 && "class_number"@.len() == 12
        && "image_hash"@.len() == 10);
    assert("first_name"@[0] == 'f' && "image_hash"@[0] == 'i');
}

/// The names of a block's fields differ from each other.
proof fn lemma_block_names()
    ensures
        "index"@ != "timestamp"@,
        "index"@ != "previous_hash"@,
        "index"@ != "hash"@,
        "index"@ != "nonce"@,
        "index"@ != "records"@,
        "timestamp"@ != "previous_hash"@,
        "timestamp"@ != "hash"@,
        "timestamp"@ != "nonce"@,
        "timestamp"@ != "records"@,
        "previous_hash"@ != "hash"@,
        "previous_hash"@ != "nonce"@,
        "previous_hash"@ != "records"@,
        "hash"@ != "nonce"@,
        "hash"@ != "records"@,
        "nonce"@ != "records"@,
{
    reveal_strlit("index");
    reveal_strlit("timestamp");
    reveal_strlit("previous_hash");
    reveal_strlit("hash");
    reveal_strlit("nonce");
    reveal_strlit("records");
    assert("index"@.len() == 5 && "timestamp"@.len() == 9 && "previous_hash"@.len() == 13
        && "hash"@.len() == 4 && "nonce"@.len() == 5 && "records"@.len() == 7);
    assert("index"@[0] == 'i' && "nonce"@[0] == 'n');
}

/// The names of a ledger's fields differ from each other.
proof fn lemma_ledger_names()
    ensures
        "chain"@ != "difficulty"@,
{
    reveal_strlit("chain");
    reveal_strlit("difficulty");
    assert("chain"@.len() == 5 && "difficulty"@.len() == 10);
}

/// Fields written one after the other, as the chunks they are.
pub open spec fn fields_of(names: Seq<Seq<char>>, values: Seq<Seq<u8>>) -> Seq<u8>
    decreases names.len(),
{
    if names.len() == 0 {
        Seq::empty()
    } else {
        with_field(fields_of(names.drop_last(), values.drop_last()), names.last(), values.last())
    }
}

/// The chunks of fields: names and values in turn.
pub open spec fn pairs_of(names: Seq<Seq<char>>, values: Seq<Seq<u8>>) -> Seq<Seq<u8>> {
    Seq::new(
        2 * names.len(),
        |i: int|
            if i % 2 == 0 {
                encode_utf8(names[i / 2])
            } else {
                values[i / 2]
            },
    )
}

/// Fields of different names, written one after the other, are split into
/// their names and values again, and each value is found under its name.
pub proof fn lemma_fields_round_trip(names: Seq<Seq<char>>, values: Seq<Seq<u8>>)
    requires
        names.len() == values.len(),
        forall|i: int, j: int| 0 <= i < j < names.len() ==> names[i] != names[j],
        fields_of(names, values).len() <= u64::MAX,
    ensures
        fields_of(names, values) == join_chunks(pairs_of(names, values)),
        split_fields(fields_of(names, values)) == Some(pairs_of(names, values)),
        forall|k: int|
            0 <= k < names.len() ==> #[trigger] field(
                pairs_of(names, values),
                encode_utf8(names[k]),
            ) == Some(values[k]),
        forall|k: int|
            0 <= k < names.len() ==> (#[trigger] values[k]).len() <= fields_of(names, values).len(),
{
    let pairs = pairs_of(names, values);
    lemma_fields_are_chunks(names, values);
    lemma_split_join(pairs);
    assert forall|k: int| 0 <= k < names.len() implies #[trigger] field(
        pairs,
        encode_utf8(names[k]),
    ) == Some(values[k]) by {
        assert forall|j: int| 0 <= j < k implies #[trigger] name_at(pairs, j) != pairs[2 * k] by {
            if encode_utf8(names[j]) == encode_utf8(names[k]) {
                lemma_utf8_injective(names[j], names[k]);
            }
        }
        lemma_field_found(pairs, k);
    }
    assert forall|k: int| 0 <= k < names.len() implies (#[trigger] values[k]).len() <= fields_of(
        names,
        values,
    ).len() by {
        lemma_body_within(pairs, 2 * k + 1);
    }
}

/// Fields written one after the other are the chunks of their names and
/// values.
proof fn lemma_fields_are_chunks(names: Seq<Seq<char>>, values: Seq<Seq<u8>>)
    requires
        names.len() == values.len(),
    ensures
        fields_of(names, values) == join_chunks(pairs_of(names, values)),
    decreases names.len(),
{
    if names.len() == 0 {
        assert(pairs_of(names, values) =~= Seq::<Seq<u8>>::empty());
    } else {
        let head = pairs_of(names.drop_last(), values.drop_last());
        lemma_fields_are_chunks(names.drop_last(), values.drop_last());
        lemma_with_field_joins(head, names.last(), values.last());
        assert(head.push(encode_utf8(names.last())).push(values.last()) =~= pairs_of(
            names,
            values,
        ));
    }
}

/// The name of the field at place `k` of a structure.
pub open spec fn name_at(chunks: Seq<Seq<u8>>, k: int) -> Seq<u8> {
    chunks[2 * k]
}

/// The field at place `k` of a structure is found under its name, where no
/// field before it has the same name.
pub proof fn lemma_field_found(chunks: Seq<Seq<u8>>, k: int)
    requires
        0 <= k,
        2 * k + 1 < chunks.len(),
        forall|j: int| 0 <= j < k ==> #[trigger] name_at(chunks, j) != chunks[2 * k],
    ensures
        field(chunks, chunks[2 * k]) == Some(chunks[2 * k + 1]),
    decreases k,
{
    if k > 0 {
        let rest = chunks.skip(2);
        assert(rest[2 * (k - 1)] == chunks[2 * k]);
        assert(rest[2 * (k - 1) + 1] == chunks[2 * k + 1]);
        assert(name_at(chunks, 0) != chunks[2 * k]);
        assert forall|j: int| 0 <= j < k - 1 implies #[trigger] name_at(rest, j) != rest[2 * (k
            - 1)] by {
            assert(name_at(rest, j) == name_at(chunks, j + 1));
        }
        lemma_field_found(rest, k - 1);
    }
}

/// A text stored as UTF-8 reads back as itself.
pub proof fn lemma_text_reads_back(text: Seq<char>)
    ensures
        valid_utf8(encode_utf8(text)),
        decode_utf8(encode_utf8(text)) == text,
{
    encode_utf8_valid_utf8(text);
    encode_utf8_decode_utf8(text);
}

/// A text that is found as a field's value reads back as itself.
pub proof fn lemma_text_found(chunks: Seq<Seq<u8>>, name: Seq<char>, text: Seq<char>)
    requires
        field(chunks, encode_utf8(name)) == Some(encode_utf8(text)),
    ensures
        text_field(chunks, name) == Some(text),
{
    lemma_text_reads_back(text);
}

/// A number that is found as a field's value reads back as itself, where
/// it fits the field's width.
pub proof fn lemma_number_found(chunks: Seq<Seq<u8>>, name: Seq<char>, n: nat, width: nat)
    requires
        field(chunks, encode_utf8(name)) == Some(be_bytes(n, width)),
        n < radix_power(width),
    ensures
        number_field(chunks, name, width) == Some(n),
{
    lemma_be_round_trip(n, width);
}

/// The names of a record's fields.
pub open spec fn record_names() -> Seq<Seq<char>> {
    seq!["first_name"@, "last_name"@, "class_number"@, "image_hash"@]
}

/// The values of a record's fields.
pub open spec fn record_values(record: TransactionModel) -> Seq<Seq<u8>> {
    seq![
        encode_utf8(record.first_name),
        encode_utf8(record.last_name),
        encode_utf8(record.class_number),
        encode_utf8(record.image_hash),
    ]
}

/// A stored record is its four fields, written one after the other.
proof fn lemma_record_fields(record: TransactionModel)
    ensures
        encode_record(record) == fields_of(record_names(), record_values(record)),
{
    reveal(encode_record);
    let n = record_names();
    let v = record_values(record);
    let n3 = n.drop_last();
    let v3 = v.drop_last();
    let n2 = n3.drop_last();
    let v2 = v3.drop_last();
    let n1 = n2.drop_last();
    let v1 = v2.drop_last();
    assert(n1.drop_last().len() == 0);
    assert(fields_of(n1.drop_last(), v1.drop_last()) =~= Seq::<u8>::empty());
    assert(fields_of(n1, v1) == with_field(Seq::empty(), n[0], v[0]));
    assert(fields_of(n2, v2) == with_field(fields_of(n1, v1), n[1], v[1]));
    assert(fields_of(n3, v3) == with_field(fields_of(n2, v2), n[2], v[2]));
    assert(fields_of(n, v) == with_field(fields_of(n3, v3), n[3], v[3]));
}

/// A record that was stored reads back as itself.
pub proof fn lemma_record_round_trip(record: TransactionModel)
    requires
        encode_record(record).len() <= u64::MAX,
    ensures
        decode_record(encode_record(record)) == Some(record),
{
    reveal(decode_record);
    let n = record_names();
    let v = record_values(record);
    let chunks = pairs_of(n, v);
    lemma_record_fields(record);
    lemma_record_names();
    lemma_fields_round_trip(n, v);
    assert(text_field(chunks, "first_name"@) == Some(record.first_name)) by {
        assert(field(chunks, encode_utf8(n[0])) == Some(v[0]));
        lemma_text_found(chunks, n[0], record.first_name);
    }
    assert(text_field(chunks, "last_name"@) == Some(record.last_name)) by {
        assert(field(chunks, encode_utf8(n[1])) == Some(v[1]));
        lemma_text_found(chunks, n[1], record.last_name);
    }
    assert(text_field(chunks, "class_number"@) == Some(record.class_number)) by {
        assert(field(chunks, encode_utf8(n[2])) == Some(v[2]));
        lemma_text_found(chunks, n[2], record.class_number);
    }
    assert(text_field(chunks, "image_hash"@) == Some(record.image_hash)) by {
        assert(field(chunks, encode_utf8(n[3])) == Some(v[3]));
        lemma_text_found(chunks, n[3], record.image_hash);
    }
}

/// Records that were stored as a list read back as themselves.
pub proof fn lemma_records_round_trip(records: Seq<TransactionModel>)
    requires
        join_chunks(encode_records(records)).len() <= u64::MAX,
    ensures
        split_chunks(join_chunks(encode_records(records))) == Some(encode_records(records)),
        decode_records(encode_records(records)) == Some(records),
{
    let items = encode_records(records);
    lemma_split_join(items);
    assert forall|i: int| 0 <= i < items.len() implies (#[trigger] decode_record(items[i]))
        == Some(records[i]) by {
        lemma_body_within(items, i);
        lemma_record_round_trip(records[i]);
    }
    assert(decode_records(items)->0 =~= records);
}

/// The names of a block's fields.
pub open spec fn block_names() -> Seq<Seq<char>> {
    seq!["index"@, "timestamp"@, "previous_hash"@, "hash"@, "nonce"@, "records"@]
}

/// The values of a block's fields.
pub open spec fn block_values(block: BlockModel) -> Seq<Seq<u8>> {
    seq![
        be_bytes(block.index, WORD as nat),
        be_bytes(block.timestamp, WIDE as nat),
        encode_utf8(block.previous_hash),
        encode_utf8(block.hash),
        be_bytes(block.nonce, WORD as nat),
        join_chunks(encode_records(block.records)),
    ]
}

/// A stored block is its six fields, written one after the other.
proof fn lemma_block_fields(block: BlockModel)
    ensures
        encode_block(block) == fields_of(block_names(), block_values(block)),
{
    reveal(encode_block);
    let n = block_names();
    let v = block_values(block);
    let n5 = n.drop_last();
    let v5 = v.drop_last();
    let n4 = n5.drop_last();
    let v4 = v5.drop_last();
    let n3 = n4.drop_last();
    let v3 = v4.drop_last();
    let n2 = n3.drop_last();
    let v2 = v3.drop_last();
    let n1 = n2.drop_last();
    let v1 = v2.drop_last();
    assert(n1.drop_last().len() == 0);
    assert(fields_of(n1.drop_last(), v1.drop_last()) =~= Seq::<u8>::empty());
    assert(fields_of(n1, v1) == with_field(Seq::empty(), n[0], v[0]));
    assert(fields_of(n2, v2) == with_field(fields_of(n1, v1), n[1], v[1]));
    assert(fields_of(n3, v3) == with_field(fields_of(n2, v2), n[2], v[2]));
    assert(fields_of(n4, v4) == with_field(fields_of(n3, v3), n[3], v[3]));
    assert(fields_of(n5, v5) == with_field(fields_of(n4, v4), n[4], v[4]));
    assert(fields_of(n, v) == with_field(fields_of(n5, v5), n[5], v[5]));
}

/// What the fields of a stored block read back as.
proof fn lemma_block_fields_read_back(block: BlockModel)
    requires
        block.in_range(),
        encode_block(block).len() <= u64::MAX,
    ensures
        ({
            let chunks = pairs_of(block_names(), block_values(block));
            &&& split_fields(encode_block(block)) == Some(chunks)
            &&& number_field(chunks, "index"@, WORD as nat) == Some(block.index)
            &&& number_field(chunks, "timestamp"@, WIDE as nat) == Some(block.timestamp)
            &&& text_field(chunks, "previous_hash"@) == Some(block.previous_hash)
            &&& text_field(chunks, "hash"@) == Some(block.hash)
            &&& number_field(chunks, "nonce"@, WORD as nat) == Some(block.nonce)
            &&& list_field(chunks, "records"@) == Some(encode_records(block.records))
            &&& decode_records(encode_records(block.records)) == Some(block.records)
        }),
{
    let n = block_names();
    let v = block_values(block);
    let chunks = pairs_of(n, v);
    lemma_block_fields(block);
    lemma_block_names();
    lemma_fields_round_trip(n, v);
    lemma_radix_power_values();
    assert(number_field(chunks, "index"@, WORD as nat) == Some(block.index)) by {
        assert(field(chunks, encode_utf8(n[0])) == Some(v[0]));
        lemma_number_found(chunks, n[0], block.index, WORD as nat);
    }
    assert(number_field(chunks, "timestamp"@, WIDE as nat) == Some(block.timestamp)) by {
        assert(field(chunks, encode_utf8(n[1])) == Some(v[1]));
        lemma_number_found(chunks, n[1], block.timestamp, WIDE as nat);
    }
    assert(text_field(chunks, "previous_hash"@) == Some(block.previous_hash)) by {
        assert(field(chunks, encode_utf8(n[2])) == Some(v[2]));
        lemma_text_found(chunks, n[2], block.previous_hash);
    }
    assert(text_field(chunks, "hash"@) == Some(block.hash)) by {
        assert(field(chunks, encode_utf8(n[3])) == Some(v[3]));
        lemma_text_found(chunks, n[3], block.hash);
    }
    assert(number_field(chunks, "nonce"@, WORD as nat) == Some(block.nonce)) by {
        assert(field(chunks, encode_utf8(n[4])) == Some(v[4]));
        lemma_number_found(chunks, n[4], block.nonce, WORD as nat);
    }
    assert(list_field(chunks, "records"@) == Some(encode_records(block.records))
        && decode_records(encode_records(block.records)) == Some(block.records)) by {
        assert(field(chunks, encode_utf8(n[5])) == Some(v[5]));
        assert(v[5].len() <= fields_of(n, v).len());
        lemma_records_round_trip(block.records);
    }
}

/// A block that was stored reads back as itself.
pub proof fn lemma_block_round_trip(block: BlockModel)
    requires
        block.in_range(),
        encode_block(block).len() <= u64::MAX,
    ensures
        decode_block(encode_block(block)) == Some(block),
{
    reveal(decode_block);
    lemma_block_fields_read_back(block);
}

/// Blocks that were stored as a list read back as themselves.
pub proof fn lemma_blocks_round_trip(blocks: Seq<BlockModel>)
    requires
        forall|i: int| 0 <= i < blocks.len() ==> (#[trigger] blocks[i]).in_range(),
        join_chunks(encode_blocks(blocks)).len() <= u64::MAX,
    ensures
        split_chunks(join_chunks(encode_blocks(blocks))) == Some(encode_blocks(blocks)),
        decode_blocks(encode_blocks(blocks)) == Some(blocks),
{
    let items = encode_blocks(blocks);
    lemma_split_join(items);
    assert forall|i: int| 0 <= i < items.len() implies (#[trigger] decode_block(items[i]))
        == Some(blocks[i]) by {
        lemma_body_within(items, i);
        assert(blocks[i].in_range());
        lemma_block_round_trip(blocks[i]);
    }
    assert(decode_blocks(items)->0 =~= blocks);
}

/// The names of a ledger's fields.
pub open spec fn ledger_names() -> Seq<Seq<char>> {
    seq!["chain"@, "difficulty"@]
}

/// The values of a ledger's fields.
pub open spec fn ledger_values(ledger: LedgerModel) -> Seq<Seq<u8>> {
    seq![join_chunks(encode_blocks(ledger.chain)), be_bytes(ledger.difficulty, WORD as nat)]
}

/// A stored ledger is its two fields, written one after the other.
proof fn lemma_ledger_fields(ledger: LedgerModel)
    ensures
        encode_ledger(ledger) == fields_of(ledger_names(), ledger_values(ledger)),
{
    reveal(encode_ledger);
    let n = ledger_names();
    let v = ledger_values(ledger);
    let n1 = n.drop_last();
    let v1 = v.drop_last();
    assert(n1.drop_last().len() == 0);
    assert(fields_of(n1.drop_last(), v1.drop_last()) =~= Seq::<u8>::empty());
    assert(fields_of(n1, v1) == with_field(Seq::empty(), n[0], v[0]));
    assert(fields_of(n, v) == with_field(fields_of(n1, v1), n[1], v[1]));
}

/// What the fields of a stored ledger read back as.
proof fn lemma_ledger_fields_read_back(ledger: LedgerModel)
    requires
        ledger.storable(),
    ensures
        ({
            let chunks = pairs_of(ledger_names(), ledger_values(ledger));
            &&& split_fields(encode_ledger(ledger)) == Some(chunks)
            &&& list_field(chunks, "chain"@) == Some(encode_blocks(ledger.chain))
            &&& number_field(chunks, "difficulty"@, WORD as nat) == Some(ledger.difficulty)
            &&& decode_blocks(encode_blocks(ledger.chain)) == Some(ledger.chain)
        }),
{
    let n = ledger_names();
    let v = ledger_values(ledger);
    let chunks = pairs_of(n, v);
    lemma_ledger_fields(ledger);
    lemma_ledger_names();
    lemma_fields_round_trip(n, v);
    lemma_radix_power_values();
    assert(number_field(chunks, "difficulty"@, WORD as nat) == Some(ledger.difficulty)) by {
        assert(field(chunks, encode_utf8(n[1])) == Some(v[1]));
        lemma_number_found(chunks, n[1], ledger.difficulty, WORD as nat);
    }
    assert(list_field(chunks, "chain"@) == Some(encode_blocks(ledger.chain)) && decode_blocks(
        encode_blocks(ledger.chain),
    ) == Some(ledger.chain)) by {
        assert(field(chunks, encode_utf8(n[0])) == Some(v[0]));
        assert(v[0].len() <= fields_of(n, v).len());
        lemma_blocks_round_trip(ledger.chain);
    }
}

/// A ledger that was stored reads back as itself, without its pool.
pub proof fn lemma_ledger_round_trip(ledger: LedgerModel)
    requires
        ledger.storable(),
    ensures
        decode_ledger(encode_ledger(ledger)) == Some(ledger.stored()),
{
    reveal(decode_ledger);
    lemma_ledger_fields_read_back(ledger);
}

/// What holds of the bytes that a ledger was stored in.
proof fn lemma_exported(ledger: Blockchain, bytes: Seq<u8>)
    requires
        bytes == encode_ledger(ledger@),
        bytes.len() <= usize::MAX,
    ensures
        decode_ledger(bytes) == Some(ledger@.stored()),
{
    assert forall|i: int| 0 <= i < ledger@.chain.len() implies (#[trigger] ledger@.chain[
        i
    ]).in_range() by {
        assert(ledger@.chain[i] == ledger.chain@[i]@);
    }
    lemma_ledger_round_trip(ledger@);
}

/// Appends a field.
fn push_field(out: &mut Vec<u8>, name: &str, value: &[u8])
    ensures
        final(out)@ == with_field(old(out)@, name@, value@),
{
    push_chunk(out, name.as_bytes());
    push_chunk(out, value);
}

/// Reads the text in the first field called `name`.
fn text_of(chunks: &Vec<&[u8]>, name: &str) -> (found: Option<String>)
    ensures
        match found {
            Some(text) => text_field(bodies_of(chunks@), name@) == Some(text@),
            None => text_field(bodies_of(chunks@), name@) is None,
        },
{
    match find(chunks, name.as_bytes()) {
        Some(value) => string_from_utf8(slice_to_vec(value)),
        None => None,
    }
}

/// Reads the number in the first field called `name`.
fn number_of(chunks: &Vec<&[u8]>, name: &str, width: usize) -> (found: Option<u128>)
    requires
        width <= WIDE,
    ensures
        match found {
            Some(n) => number_field(bodies_of(chunks@), name@, width as nat) == Some(n as nat),
            None => number_field(bodies_of(chunks@), name@, width as nat) is None,
        },
        found is Some && width == WORD ==> found->0 <= u64::MAX,
{
    match find(chunks, name.as_bytes()) {
        Some(value) => if value.len() == width {
            proof {
                lemma_be_value_bound(value@);
                lemma_radix_power_values();
            }
            Some(read_be(value))
        } else {
            None
        },
        None => None,
    }
}

/// Reads the items of the list in the first field called `name`.
fn list_of<'a>(chunks: &Vec<&'a [u8]>, name: &str) -> (found: Option<Vec<&'a [u8]>>)
    ensures
        match found {
            Some(items) => list_field(bodies_of(chunks@), name@) == Some(bodies_of(items@)),
            None => list_field(bodies_of(chunks@), name@) is None,
        },
{
    match find(chunks, name.as_bytes()) {
        Some(value) => split(value),
        None => None,
    }
}

impl NFTTransaction {
    /// The bytes that store the record.
    pub fn to_bytes(&self) -> (bytes: Vec<u8>)
        ensures
            bytes@ == encode_record(self@),
    {
        proof {
            reveal(encode_record);
        }
        let mut bytes: Vec<u8> = Vec::new();
        push_field(&mut bytes, "first_name", self.first_name.as_str().as_bytes());
        push_field(&mut bytes, "last_name", self.last_name.as_str().as_bytes());
        push_field(&mut bytes, "class_number", self.class_number.as_str().as_bytes());
        push_field(&mut bytes, "image_hash", self.image_hash.as_str().as_bytes());
        bytes
    }

    /// The record that `bytes` store, or an error where they store none.
    pub fn from_bytes(bytes: &[u8]) -> (read: Result<NFTTransaction, FormatError>)
        ensures
            match read {
                Ok(record) => decode_record(bytes@) == Some(record@),
                Err(_) => decode_record(bytes@) is None,
            },
    {
        proof {
            reveal(decode_record);
        }
        let chunks = match split_pairs(bytes) {
            Some(chunks) => chunks,
            None => {
                return Err(FormatError {});
            },
        };
        let first_name = match text_of(&chunks, "first_name") {
            Some(text) => text,
            None => {
                return Err(FormatError {});
            },
        };
        let last_name = match text_of(&chunks, "last_name") {
            Some(text) => text,
            None => {
                return Err(FormatError {});
            },
        };
        let class_number = match text_of(&chunks, "class_number") {
            Some(text) => text,
            None => {
                return Err(FormatError {});
            },
        };
        let image_hash = match text_of(&chunks, "image_hash") {
            Some(text) => text,
            None => {
                return Err(FormatError {});
            },
        };
        Ok(NFTTransaction { first_name, last_name, class_number, image_hash })
    }
}

/// Stores `records` as the items of a list.
fn records_to_bytes(records: &Vec<NFTTransaction>) -> (bytes: Vec<u8>)
    ensures
        bytes@ == join_chunks(encode_records(models_of(records@))),
{
    let mut bytes: Vec<u8> = Vec::new();
    let ghost items = encode_records(models_of(records@));
    let mut i: usize = 0;
    assert(items.subrange(0, 0) =~= Seq::<Seq<u8>>::empty());
    while i < records.len()
        invariant
            i <= records@.len(),
            items == encode_records(models_of(records@)),
            bytes@ == join_chunks(items.subrange(0, i as int)),
        decreases records@.len() - i,
    {
        let item = records[i].to_bytes();
        push_chunk(&mut bytes, item.as_slice());
        proof {
            let upto = items.subrange(0, i + 1);
            assert(upto.drop_last() =~= items.subrange(0, i as int));
            assert(upto.last() == item@);
        }
        i = i + 1;
    }
    assert(items.subrange(0, i as int) =~= items);
    bytes
}

/// Reads the records that `items` store.
fn records_from_items(items: &Vec<&[u8]>) -> (read: Option<Vec<NFTTransaction>>)
    ensures
        match read {
            Some(records) => decode_records(bodies_of(items@)) == Some(models_of(records@)),
            None => decode_records(bodies_of(items@)) is None,
        },
{
    let mut records: Vec<NFTTransaction> = Vec::new();
    let ghost bodies = bodies_of(items@);
    let mut i: usize = 0;
    while i < items.len()
        invariant
            i <= items@.len(),
            bodies == bodies_of(items@),
            records@.len() == i,
            forall|k: int|
                0 <= k < i ==> (#[trigger] decode_record(bodies[k])) == Some(records@[k]@),
        decreases items@.len() - i,
    {
        assert(bodies[i as int] == items@[i as int]@);
        match NFTTransaction::from_bytes(items[i]) {
            Ok(record) => {
                records.push(record);
            },
            Err(_) => {
                assert(decode_record(bodies[i as int]) is None);
                return None;
            },
        }
        i = i + 1;
    }
    assert(decode_records(bodies)->0 =~= models_of(records@));
    Some(records)
}

impl Block {
    /// The bytes that store the block.
    pub fn to_bytes(&self) -> (bytes: Vec<u8>)
        ensures
            bytes@ == encode_block(self@),
    {
        proof {
            reveal(encode_block);
        }
        let mut bytes: Vec<u8> = Vec::new();
        let mut number: Vec<u8> = Vec::new();
        push_be(&mut number, self.index as u128, WORD);
        push_field(&mut bytes, "index", number.as_slice());
        let mut number: Vec<u8> = Vec::new();
        push_be(&mut number, self.timestamp, WIDE);
        push_field(&mut bytes, "timestamp", number.as_slice());
        push_field(&mut bytes, "previous_hash", self.previous_hash.as_str().as_bytes());
        push_field(&mut bytes, "hash", self.hash.as_str().as_bytes());
        let mut number: Vec<u8> = Vec::new();
        push_be(&mut number, self.nonce as u128, WORD);
        push_field(&mut bytes, "nonce", number.as_slice());
        let records = records_to_bytes(&self.data);
        push_field(&mut bytes, "records", records.as_slice());
        bytes
    }

    /// The block that `bytes` store, or an error where they store none.
    pub fn from_bytes(bytes: &[u8]) -> (read: Result<Block, FormatError>)
        ensures
            match read {
                Ok(block) => decode_block(bytes@) == Some(block@),
                Err(_) => decode_block(bytes@) is None,
            },
    {
        proof {
            reveal(decode_block);
        }
        let chunks = match split_pairs(bytes) {
            Some(chunks) => chunks,
            None => {
                return Err(FormatError {});
            },
        };
        let index = match number_of(&chunks, "index", WORD) {
            Some(n) => n as u64,
            None => {
                return Err(FormatError {});
            },
        };
        let timestamp = match number_of(&chunks, "timestamp", WIDE) {
            Some(n) => n,
            None => {
                return Err(FormatError {});
            },
        };
        let previous_hash = match text_of(&chunks, "previous_hash") {
            Some(text) => text,
            None => {
                return Err(FormatError {});
            },
        };
        let hash = match text_of(&chunks, "hash") {
            Some(text) => text,
            None => {
                return Err(FormatError {});
            },
        };
        let nonce = match number_of(&chunks, "nonce", WORD) {
            Some(n) => n as u64,
            None => {
                return Err(FormatError {});
            },
        };
        let items = match list_of(&chunks, "records") {
            Some(items) => items,
            None => {
                return Err(FormatError {});
            },
        };
        let data = match records_from_items(&items) {
            Some(records) => records,
            None => {
                return Err(FormatError {});
            },
        };
        Ok(Block { index, timestamp, data, previous_hash, hash, nonce })
    }
}

/// Stores `chain` as the items of a list.
fn blocks_to_bytes(chain: &Vec<Block>) -> (bytes: Vec<u8>)
    ensures
        bytes@ == join_chunks(encode_blocks(blocks_of(chain@))),
{
    let mut bytes: Vec<u8> = Vec::new();
    let ghost items = encode_blocks(blocks_of(chain@));
    let mut i: usize = 0;
    assert(items.subrange(0, 0) =~= Seq::<Seq<u8>>::empty());
    while i < chain.len()
        invariant
            i <= chain@.len(),
            items == encode_blocks(blocks_of(chain@)),
            bytes@ == join_chunks(items.subrange(0, i as int)),
        decreases chain@.len() - i,
    {
        let item = chain[i].to_bytes();
        push_chunk(&mut bytes, item.as_slice());
        proof {
            let upto = items.subrange(0, i + 1);
            assert(upto.drop_last() =~= items.subrange(0, i as int));
            assert(upto.last() == item@);
        }
        i = i + 1;
    }
    assert(items.subrange(0, i as int) =~= items);
    bytes
}

/// Reads the blocks that `items` store.
fn blocks_from_items(items: &Vec<&[u8]>) -> (read: Option<Vec<Block>>)
    ensures
        match read {
            Some(chain) => decode_blocks(bodies_of(items@)) == Some(blocks_of(chain@)),
            None => decode_blocks(bodies_of(items@)) is None,
        },
{
    let mut chain: Vec<Block> = Vec::new();
    let ghost bodies = bodies_of(items@);
    let mut i: usize = 0;
    while i < items.len()
        invariant
            i <= items@.len(),
            bodies == bodies_of(items@),
            chain@.len() == i,
            forall|k: int| 0 <= k < i ==> (#[trigger] decode_block(bodies[k])) == Some(chain@[k]@),
        decreases items@.len() - i,
    {
        assert(bodies[i as int] == items@[i as int]@);
        match Block::from_bytes(items[i]) {
            Ok(block) => {
                chain.push(block);
            },
            Err(_) => {
                assert(decode_block(bodies[i as int]) is None);
                return None;
            },
        }
        i = i + 1;
    }
    assert(decode_blocks(bodies)->0 =~= blocks_of(chain@));
    Some(chain)
}

impl Blockchain {
    /// The bytes that store the ledger: its chain and its difficulty, not
    /// its pool.
    pub fn export(&self) -> (bytes: Vec<u8>)
        ensures
            bytes@ == encode_ledger(self@),
            decode_ledger(bytes@) == Some(self@.stored()),
    {
        let bytes = self.to_bytes();
        proof {
            assert(bytes@.len() == bytes.len());
            lemma_exported(*self, bytes@);
        }
        bytes
    }

    /// Writes the ledger's fields one after the other.
    fn to_bytes(&self) -> (bytes: Vec<u8>)
        ensures
            bytes@ == encode_ledger(self@),
    {
        proof {
            reveal(encode_ledger);
        }
        let mut bytes: Vec<u8> = Vec::new();
        let chain = blocks_to_bytes(&self.chain);
        push_field(&mut bytes, "chain", chain.as_slice());
        let mut number: Vec<u8> = Vec::new();
        push_be(&mut number, self.difficulty as u128, WORD);
        push_field(&mut bytes, "difficulty", number.as_slice());
        bytes
    }

    /// The ledger that `bytes` store, with an empty pool, or an error where
    /// they store none. The chain is taken as it is found, so that every
    /// ledger that was stored reads back; `is_well_formed` and
    /// `is_chain_valid` tell what it is worth.
    pub fn restore(bytes: &[u8]) -> (read: Result<Blockchain, FormatError>)
        ensures
            match read {
                Ok(ledger) => decode_ledger(bytes@) == Some(ledger@),
                Err(_) => decode_ledger(bytes@) is None,
            },
    {
        proof {
            reveal(decode_ledger);
        }
        let chunks = match split_pairs(bytes) {
            Some(chunks) => chunks,
            None => {
                return Err(FormatError {});
            },
        };
        let items = match list_of(&chunks, "chain") {
            Some(items) => items,
            None => {
                return Err(FormatError {});
            },
        };
        let difficulty = match number_of(&chunks, "difficulty", WORD) {
            Some(n) => n,
            None => {
                return Err(FormatError {});
            },
        };
        let chain = match blocks_from_items(&items) {
            Some(chain) => chain,
            None => {
                return Err(FormatError {});
            },
        };
        if difficulty > usize::MAX as u128 {
            return Err(FormatError {});
        }
        let ledger = Blockchain {
            chain,
            difficulty: difficulty as usize,
            pending_transactions: Vec::new(),
        };
        assert(ledger@.pending =~= Seq::<TransactionModel>::empty());
        Ok(ledger)
    }
}

} // verus!
