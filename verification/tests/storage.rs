use nft_ledger::{Block, Blockchain, FormatError, NFTTransaction};

fn record(first: &str, last: &str, class: &str, image: &str) -> NFTTransaction {
    NFTTransaction::new(
        String::from(first),
        String::from(last),
        String::from(class),
        String::from(image),
    )
}

fn chunk(body: &[u8]) -> Vec<u8> {
    let mut bytes = (body.len() as u64).to_be_bytes().to_vec();
    bytes.extend_from_slice(body);
    bytes
}

fn field(name: &str, value: &[u8]) -> Vec<u8> {
    let mut bytes = chunk(name.as_bytes());
    bytes.extend(chunk(value));
    bytes
}

fn stored_record(first: &[u8], last: &[u8], class: &[u8], image: &[u8]) -> Vec<u8> {
    [
        field("first_name", first),
        field("last_name", last),
        field("class_number", class),
        field("image_hash", image),
    ]
    .concat()
}

fn stored_block(index: u64, records: &[Vec<u8>]) -> Vec<u8> {
    let items: Vec<u8> = records.iter().flat_map(|item| chunk(item)).collect();
    [
        field("index", &index.to_be_bytes()),
        field("timestamp", &7u128.to_be_bytes()),
        field("previous_hash", b"p"),
        field("hash", b"h"),
        field("nonce", &9u64.to_be_bytes()),
        field("records", &items),
    ]
    .concat()
}

fn stored_ledger(blocks: &[Vec<u8>], difficulty: u64) -> Vec<u8> {
    let items: Vec<u8> = blocks.iter().flat_map(|item| chunk(item)).collect();
    [field("chain", &items), field("difficulty", &difficulty.to_be_bytes())].concat()
}

fn plain_block(index: u64, data: Vec<NFTTransaction>) -> Block {
    Block {
        index,
        timestamp: 7,
        data,
        previous_hash: String::from("p"),
        hash: String::from("h"),
        nonce: 9,
    }
}

fn sealed_ledger() -> Blockchain {
    let mut ledger = Blockchain::new_at(2, 1000);
    ledger.create_transaction(record("Ada", "Lovelace", "CS101", "e3b0c4"));
    ledger.create_transaction(record("Žofie", "Nováková", "数学", "ff"));
    assert!(ledger.mine_pending_transactions_at(2000));
    assert!(ledger.mine_pending_transactions_at(3000));
    ledger
}

#[test]
fn stored_record_byte_for_byte() {
    let bytes = record("a", "b", "c", "d").to_bytes();
    let expected: Vec<u8> = vec![
        0, 0, 0, 0, 0, 0, 0, 10, 102, 105, 114, 115, 116, 95, 110, 97, 109, 101, 0, 0, 0, 0, 0, 0,
        0, 1, 97, 0, 0, 0, 0, 0, 0, 0, 9, 108, 97, 115, 116, 95, 110, 97, 109, 101, 0, 0, 0, 0, 0,
        0, 0, 1, 98, 0, 0, 0, 0, 0, 0, 0, 12, 99, 108, 97, 115, 115, 95, 110, 117, 109, 98, 101,
        114, 0, 0, 0, 0, 0, 0, 0, 1, 99, 0, 0, 0, 0, 0, 0, 0, 10, 105, 109, 97, 103, 101, 95, 104,
        97, 115, 104, 0, 0, 0, 0, 0, 0, 0, 1, 100,
    ];
    assert_eq!(bytes, expected);
    assert_eq!(bytes, stored_record(b"a", b"b", b"c", b"d"));
}

#[test]
fn stored_ledger_byte_for_byte() {
    let ledger = Blockchain {
        chain: vec![Block {
            index: 0,
            timestamp: 7,
            data: Vec::new(),
            previous_hash: String::new(),
            hash: String::from("ab"),
            nonce: 0,
        }],
        difficulty: 1,
        pending_transactions: Vec::new(),
    };
    let expected: Vec<u8> = vec![
        0, 0, 0, 0, 0, 0, 0, 5, 99, 104, 97, 105, 110, 0, 0, 0, 0, 0, 0, 0, 181, 0, 0, 0, 0, 0, 0,
        0, 173, 0, 0, 0, 0, 0, 0, 0, 5, 105, 110, 100, 101, 120, 0, 0, 0, 0, 0, 0, 0, 8, 0, 0, 0,
        0, 0, 0, 0, 0, 0, 0, 0, 0, 0, 0, 0, 9, 116, 105, 109, 101, 115, 116, 97, 109, 112, 0, 0, 0,
        0, 0, 0, 0, 16, 0, 0, 0, 0, 0, 0, 0, 0, 0, 0, 0, 0, 0, 0, 0, 7, 0, 0, 0, 0, 0, 0, 0, 13,
        112, 114, 101, 118, 105, 111, 117, 115, 95, 104, 97, 115, 104, 0, 0, 0, 0, 0, 0, 0, 0, 0,
        0, 0, 0, 0, 0, 0, 4, 104, 97, 115, 104, 0, 0, 0, 0, 0, 0, 0, 2, 97, 98, 0, 0, 0, 0, 0, 0,
        0, 5, 110, 111, 110, 99, 101, 0, 0, 0, 0, 0, 0, 0, 8, 0, 0, 0, 0, 0, 0, 0, 0, 0, 0, 0, 0,
        0, 0, 0, 7, 114, 101, 99, 111, 114, 100, 115, 0, 0, 0, 0, 0, 0, 0, 0, 0, 0, 0, 0, 0, 0, 0,
        10, 100, 105, 102, 102, 105, 99, 117, 108, 116, 121, 0, 0, 0, 0, 0, 0, 0, 8, 0, 0, 0, 0, 0,
        0, 0, 1,
    ];
    assert_eq!(ledger.export(), expected);
}

#[test]
fn stored_block_has_its_six_fields() {
    let block = plain_block(4, vec![record("a", "b", "c", "d")]);
    assert_eq!(block.to_bytes(), stored_block(4, &[stored_record(b"a", b"b", b"c", b"d")]));
}

#[test]
fn a_record_reads_back() {
    let stored = record("Žofie", "Nováková", "数学", "");
    assert_eq!(NFTTransaction::from_bytes(&stored.to_bytes()), Ok(stored));
}

#[test]
fn a_block_reads_back() {
    let stored = Block {
        index: u64::MAX,
        timestamp: u128::MAX,
        data: vec![record("a", "", "c", "d"), record("a", "", "c", "d")],
        previous_hash: String::from("00ab"),
        hash: String::from("not even a digest"),
        nonce: 1 << 40,
    };
    assert_eq!(Block::from_bytes(&stored.to_bytes()), Ok(stored));
}

#[test]
fn a_ledger_reads_back_without_its_pool() {
    let mut ledger = sealed_ledger();
    ledger.create_transaction(record("Grace", "Hopper", "CS102", "ab12"));
    let restored = Blockchain::restore(&ledger.export()).unwrap();
    assert_eq!(restored.chain, ledger.chain);
    assert_eq!(restored.difficulty, ledger.difficulty);
    assert!(restored.pending_transactions.is_empty());
    assert!(restored.is_chain_valid());
}

#[test]
fn a_restored_ledger_goes_on() {
    let mut restored = Blockchain::restore(&sealed_ledger().export()).unwrap();
    assert!(restored.is_well_formed());
    restored.create_transaction(record("Grace", "Hopper", "CS102", "ab12"));
    assert!(restored.mine_pending_transactions_at(4000));
    assert_eq!(restored.chain.len(), 4);
    assert_eq!(restored.chain[3].index, 3);
    assert!(restored.is_chain_valid());
}

#[test]
fn a_tampered_ledger_reads_back_as_tampered() {
    let mut ledger = sealed_ledger();
    ledger.chain[1].data[0].first_name = String::from("Eve");
    let restored = Blockchain::restore(&ledger.export()).unwrap();
    assert_eq!(restored.chain, ledger.chain);
    assert!(!restored.is_chain_valid());
}

#[test]
fn unknown_fields_are_passed_over() {
    let item = [
        field("middle_name", b"X"),
        stored_record(b"a", b"b", b"c", b"d"),
        field("note", &[0xff, 0xfe]),
    ]
    .concat();
    assert_eq!(NFTTransaction::from_bytes(&item), Ok(record("a", "b", "c", "d")));

    let block = [field("miner", b"m"), stored_block(0, &[item]), field("", b"")].concat();
    assert_eq!(Block::from_bytes(&block), Ok(plain_block(0, vec![record("a", "b", "c", "d")])));

    let bytes =
        [field("version", &[2]), stored_ledger(&[block], 3), field("checksum", b"")].concat();
    let ledger = Blockchain::restore(&bytes).unwrap();
    assert_eq!(ledger.chain, vec![plain_block(0, vec![record("a", "b", "c", "d")])]);
    assert_eq!(ledger.difficulty, 3);
    assert!(ledger.pending_transactions.is_empty());
}

#[test]
fn fields_are_found_in_any_order() {
    let item = [
        field("image_hash", b"d"),
        field("class_number", b"c"),
        field("last_name", b"b"),
        field("first_name", b"a"),
    ]
    .concat();
    assert_eq!(NFTTransaction::from_bytes(&item), Ok(record("a", "b", "c", "d")));
    let bytes = [
        field("difficulty", &5u64.to_be_bytes()),
        field("chain", &chunk(&stored_block(0, &[]))),
    ]
    .concat();
    let ledger = Blockchain::restore(&bytes).unwrap();
    assert_eq!(ledger.difficulty, 5);
    assert_eq!(ledger.chain, vec![plain_block(0, Vec::new())]);
}

#[test]
fn the_first_of_two_fields_of_one_name_counts() {
    let item = [field("first_name", b"one"), stored_record(b"two", b"b", b"c", b"d")].concat();
    assert_eq!(NFTTransaction::from_bytes(&item), Ok(record("one", "b", "c", "d")));
}

#[test]
fn a_missing_field_is_an_error() {
    let names = ["first_name", "last_name", "class_number", "image_hash"];
    for missing in names {
        let item: Vec<u8> = names
            .iter()
            .filter(|name| **name != missing)
            .flat_map(|name| field(name, b"x"))
            .collect();
        assert_eq!(NFTTransaction::from_bytes(&item), Err(FormatError {}));
    }
    let whole = stored_block(0, &[]);
    assert!(Block::from_bytes(&whole).is_ok());
    let names = ["index", "timestamp", "previous_hash", "hash", "nonce", "records"];
    for (place, _) in names.iter().enumerate() {
        let values: [&[u8]; 6] = [&[0; 8], &[0; 16], b"p", b"h", &[0; 8], b""];
        let block: Vec<u8> = (0..6)
            .filter(|i| *i != place)
            .flat_map(|i| field(names[i], values[i]))
            .collect();
        assert_eq!(Block::from_bytes(&block), Err(FormatError {}));
    }
    let block = stored_block(0, &[]);
    assert_eq!(Blockchain::restore(&field("chain", &chunk(&block))).err(), Some(FormatError {}));
    assert_eq!(
        Blockchain::restore(&field("difficulty", &1u64.to_be_bytes())).err(),
        Some(FormatError {})
    );
    assert_eq!(Blockchain::restore(&[]).err(), Some(FormatError {}));
}

#[test]
fn truncated_bytes_are_an_error() {
    let bytes = sealed_ledger().export();
    assert!(Blockchain::restore(&bytes).is_ok());
    for keep in [1, 7, 8, 12, 13, 20, 21, bytes.len() / 2, bytes.len() - 9, bytes.len() - 1] {
        assert_eq!(Blockchain::restore(&bytes[..keep]).err(), Some(FormatError {}));
    }
}

#[test]
fn bytes_behind_the_last_chunk_are_an_error() {
    let mut bytes = sealed_ledger().export();
    bytes.push(0);
    assert_eq!(Blockchain::restore(&bytes).err(), Some(FormatError {}));
    let mut item = stored_record(b"a", b"b", b"c", b"d");
    item.extend_from_slice(&[0, 0, 0]);
    assert_eq!(NFTTransaction::from_bytes(&item), Err(FormatError {}));
}

#[test]
fn a_name_without_a_value_is_an_error() {
    let item = [stored_record(b"a", b"b", b"c", b"d"), chunk(b"note")].concat();
    assert_eq!(NFTTransaction::from_bytes(&item), Err(FormatError {}));
}

#[test]
fn a_length_beyond_the_end_is_an_error() {
    let mut item = stored_record(b"a", b"b", b"c", b"d");
    let last = item.len() - 2;
    item[last] = 2;
    assert_eq!(NFTTransaction::from_bytes(&item), Err(FormatError {}));
    let huge = [vec![0xff; 8], vec![1, 2, 3]].concat();
    assert_eq!(NFTTransaction::from_bytes(&huge), Err(FormatError {}));
}

#[test]
fn text_that_is_not_utf8_is_an_error() {
    let item = stored_record(b"a", &[0xc3], b"c", b"d");
    assert_eq!(NFTTransaction::from_bytes(&item), Err(FormatError {}));
    let item = stored_record(b"a", b"b", b"c", &[0xff]);
    assert_eq!(NFTTransaction::from_bytes(&item), Err(FormatError {}));
    let item = stored_record(b"a", &[0xc5, 0xbd], b"c", b"d");
    assert_eq!(NFTTransaction::from_bytes(&item), Ok(record("a", "Ž", "c", "d")));
}

#[test]
fn a_number_of_the_wrong_width_is_an_error() {
    let block = [
        field("index", &[0; 4]),
        field("timestamp", &[0; 16]),
        field("previous_hash", b"p"),
        field("hash", b"h"),
        field("nonce", &[0; 8]),
        field("records", b""),
    ]
    .concat();
    assert_eq!(Block::from_bytes(&block), Err(FormatError {}));
    let block = [
        field("index", &[0; 8]),
        field("timestamp", &[0; 8]),
        field("previous_hash", b"p"),
        field("hash", b"h"),
        field("nonce", &[0; 8]),
        field("records", b""),
    ]
    .concat();
    assert_eq!(Block::from_bytes(&block), Err(FormatError {}));
    let chain = chunk(&stored_block(0, &[]));
    let bytes = [field("chain", &chain), field("difficulty", &[0, 0, 0, 1])].concat();
    assert_eq!(Blockchain::restore(&bytes).err(), Some(FormatError {}));
}

#[test]
fn a_record_that_does_not_read_spoils_its_block() {
    let good = stored_record(b"a", b"b", b"c", b"d");
    let bad = field("first_name", b"a");
    assert!(Block::from_bytes(&stored_block(0, &[good.clone(), good.clone()])).is_ok());
    assert_eq!(Block::from_bytes(&stored_block(0, &[good, bad])), Err(FormatError {}));
}

#[test]
fn a_block_that_does_not_read_spoils_the_ledger() {
    let good = stored_block(0, &[]);
    let bad = field("index", &[0; 8]);
    assert_eq!(Blockchain::restore(&stored_ledger(&[good, bad], 1)).err(), Some(FormatError {}));
}

#[test]
fn the_error_says_what_it_is() {
    let error = Blockchain::restore(&[1, 2, 3]).unwrap_err();
    assert_eq!(error, FormatError {});
    assert_eq!(error.message(), "the bytes do not store a ledger");
}

#[test]
fn an_empty_chain_reads_back() {
    let ledger = Blockchain::restore(&stored_ledger(&[], 1)).unwrap();
    assert!(ledger.chain.is_empty());
    assert_eq!(ledger.difficulty, 1);
    assert!(!ledger.is_well_formed());
    assert_eq!(Blockchain::restore(&ledger.export()), Ok(ledger));
}

#[test]
fn indices_out_of_place_read_back() {
    let at = |index: u64| stored_block(index, &[]);
    let ordered = Blockchain::restore(&stored_ledger(&[at(0), at(1), at(2)], 1)).unwrap();
    assert!(ordered.is_well_formed());
    for indices in [vec![1], vec![0, 2], vec![0, 1, 1]] {
        let blocks: Vec<Vec<u8>> = indices.iter().map(|index| at(*index)).collect();
        let ledger = Blockchain::restore(&stored_ledger(&blocks, 1)).unwrap();
        let found: Vec<u64> = ledger.chain.iter().map(|block| block.index).collect();
        assert_eq!(found, indices);
        assert!(!ledger.is_well_formed());
    }
}

#[test]
fn a_ledger_of_any_shape_reads_back() {
    let mut ledger = sealed_ledger();
    ledger.chain[1].index = 7;
    ledger.chain[2].previous_hash = String::from("unlinked");
    ledger.chain.swap(0, 2);
    ledger.difficulty = 40;
    let restored = Blockchain::restore(&ledger.export()).unwrap();
    assert_eq!(restored.chain, ledger.chain);
    assert_eq!(restored.difficulty, 40);
    assert!(restored.pending_transactions.is_empty());
    let lone = Blockchain {
        chain: vec![plain_block(1, Vec::new())],
        difficulty: 0,
        pending_transactions: Vec::new(),
    };
    assert_eq!(Blockchain::restore(&lone.export()), Ok(lone));
}

#[test]
fn numbers_are_stored_most_significant_byte_first() {
    let block = [
        field("index", &[0, 0, 0, 0, 0, 0, 1, 2]),
        field("timestamp", &[1, 0, 0, 0, 0, 0, 0, 0, 0, 0, 0, 0, 0, 0, 0, 3]),
        field("previous_hash", b""),
        field("hash", b""),
        field("nonce", &[0xff; 8]),
        field("records", b""),
    ]
    .concat();
    let block = Block::from_bytes(&block).unwrap();
    assert_eq!(block.index, 258);
    assert_eq!(block.timestamp, (1u128 << 120) + 3);
    assert_eq!(block.nonce, u64::MAX);
}
