//! The record that the ledger stores.

use vstd::prelude::*;
use vstd::utf8::*;

verus! {

/// One unit of ledger content: three identity fields and the hexadecimal
/// digest of the content it stands for. The ledger never looks inside the
/// fields and accepts duplicates.
#[derive(Debug, PartialEq, Eq)]
pub struct NFTTransaction {
    pub first_name: String,
    pub last_name: String,
    pub class_number: String,
    pub image_hash: String,
}

/// What a record is, mathematically: four texts.
pub struct TransactionModel {
    pub first_name: Seq<char>,
    pub last_name: Seq<char>,
    pub class_number: Seq<char>,
    pub image_hash: Seq<char>,
}

impl TransactionModel {
    /// The bytes that the record contributes to a block's digest: the UTF-8
    /// encodings of its fields, one after the other.
    pub open spec fn bytes(self) -> Seq<u8> {
        encode_utf8(self.first_name) + encode_utf8(self.last_name) + encode_utf8(
            self.class_number,
        ) + encode_utf8(self.image_hash)
    }
}

impl View for NFTTransaction {
    type V = TransactionModel;

    open spec fn view(&self) -> TransactionModel {
        TransactionModel {
            first_name: self.first_name@,
            last_name: self.last_name@,
            class_number: self.class_number@,
            image_hash: self.image_hash@,
        }
    }
}

/// The models of a sequence of records, in order.
pub open spec fn models_of(records: Seq<NFTTransaction>) -> Seq<TransactionModel> {
    Seq::new(records.len(), |i: int| records[i]@)
}

/// The bytes that a sequence of records contributes to a block's digest.
pub open spec fn records_bytes(records: Seq<TransactionModel>) -> Seq<u8>
    decreases records.len(),
{
    if records.len() == 0 {
        Seq::empty()
    } else {
        records_bytes(records.drop_last()) + records.last().bytes()
    }
}

impl NFTTransaction {
    /// A record with the given fields.
    pub fn new(
        first_name: String,
        last_name: String,
        class_number: String,
        image_hash: String,
    ) -> (record: Self)
        ensures
            record.first_name == first_name,
            record.last_name == last_name,
            record.class_number == class_number,
            record.image_hash == image_hash,
    {
        NFTTransaction { first_name, last_name, class_number, image_hash }
    }

    /// Tells whether every field holds some text. The ledger accepts records
    /// that are not complete; it is for the one who submits to ask.
    pub fn is_complete(&self) -> (complete: bool)
        ensures
            complete == (self@.first_name.len() > 0 && self@.last_name.len() > 0
                && self@.class_number.len() > 0 && self@.image_hash.len() > 0),
    {
        !self.first_name.as_str().is_empty() && !self.last_name.as_str().is_empty()
            && !self.class_number.as_str().is_empty() && !self.image_hash.as_str().is_empty()
    }
}

impl Clone for NFTTransaction {
    fn clone(&self) -> (copy: Self)
        ensures
            copy == *self,
    {
        NFTTransaction {
            first_name: self.first_name.clone(),
            last_name: self.last_name.clone(),
            class_number: self.class_number.clone(),
            image_hash: self.image_hash.clone(),
        }
    }
}

/// A copy of `records`.
pub fn clone_records(records: &Vec<NFTTransaction>) -> (copy: Vec<NFTTransaction>)
    ensures
        copy@ == records@,
{
    let mut copy: Vec<NFTTransaction> = Vec::new();
    let mut i: usize = 0;
    while i < records.len()
        invariant
            i <= records@.len(),
            copy@ == records@.subrange(0, i as int),
        decreases records@.len() - i,
    {
        copy.push(records[i].clone());
        i = i + 1;
        assert(copy@ =~= records@.subrange(0, i as int));
    }
    assert(records@.subrange(0, i as int) =~= records@);
    copy
}

} // verus!
