use nft_ledger::block::has_leading_zeros;
use nft_ledger::clock::timestamp_from_reading;
use nft_ledger::{Block, Blockchain, NFTTransaction};

const GENESIS_AT_1000: &str = "740b504574f2bc5d27b06c79a4477194c40990c8f066d5df34faa285c30c23ba";
const FIRST_AT_2000: &str = "0054568109ceafbf42b4cae63b8bfae866ce64978695a2d376706113d7182d30";

fn record(first: &str, last: &str, class: &str, image: &str) -> NFTTransaction {
    NFTTransaction::new(
        String::from(first),
        String::from(last),
        String::from(class),
        String::from(image),
    )
}

fn ada() -> NFTTransaction {
    record("Ada", "Lovelace", "CS101", "e3b0c4")
}

/// A ledger of difficulty 2 with a genesis block stamped 1000 and one block
/// stamped 2000 that holds Ada's record.
fn sealed_ledger() -> Blockchain {
    let mut ledger = Blockchain::new_at(2, 1000);
    ledger.create_transaction(ada());
    assert!(ledger.mine_pending_transactions_at(2000));
    ledger
}

#[test]
fn digest_of_an_empty_block() {
    let block = Block::new(0, 0, Vec::new(), String::new());
    assert_eq!(block.index, 0);
    assert_eq!(block.timestamp, 0);
    assert!(block.data.is_empty());
    assert_eq!(block.previous_hash, "");
    assert_eq!(block.nonce, 0);
    assert_eq!(block.hash, "2ac9a6746aca543af8dff39894cfe8173afba21eb01c6fae33d52947222855ef");
    assert_eq!(block.calculate_hash(), block.hash);
}

#[test]
fn digest_concatenates_fields_in_order() {
    let mut block = Block::new(1, 1700000000000, vec![ada()], String::from("abc"));
    block.nonce = 7;
    assert_eq!(
        block.calculate_hash(),
        "9a3f921d1c5b82ae547ed36e0e4e9c8e26a71d0ad6072730df44f37432cc2e28"
    );
}

#[test]
fn digest_input_byte_for_byte() {
    let mut block = Block::new(1, 1700000000000, vec![ada()], String::from("abc"));
    block.nonce = 7;
    assert_eq!(block.preimage(), b"11700000000000AdaLovelaceCS101e3b0c4abc7".to_vec());
    let empty = Block::new(0, 0, Vec::new(), String::new());
    assert_eq!(empty.preimage(), b"000".to_vec());
    let two = Block::new(12, 3, vec![ada(), record("G", "H", "", "1f")], String::from("0e"));
    assert_eq!(two.preimage(), b"123AdaLovelaceCS101e3b0c4GH1f0e0".to_vec());
}

#[test]
fn leading_zeros_are_counted_in_characters() {
    assert!(has_leading_zeros("00ab", 0));
    assert!(has_leading_zeros("00ab", 2));
    assert!(!has_leading_zeros("00ab", 3));
    assert!(!has_leading_zeros("0", 2));
    assert!(has_leading_zeros("", 0));
    assert!(!has_leading_zeros("", 1));
    assert!(has_leading_zeros("0000", 4));
    assert!(!has_leading_zeros("0000", 5));
    assert!(!has_leading_zeros("1000", 1));
    assert!(has_leading_zeros("00\u{e9}0", 2));
    assert!(!has_leading_zeros("00\u{e9}0", 3));
    assert!(!has_leading_zeros("00\u{e9}0", 4));
    assert!(!has_leading_zeros("0\u{e9}", 3));
    assert!(!has_leading_zeros("\u{ff10}0", 1));
    assert!(has_leading_zeros("0\u{ff10}", 1));
}

#[test]
fn digest_takes_text_as_utf8() {
    let mut block = Block::new(
        5,
        6,
        vec![record("Žofie", "Nováková", "数学", "ff")],
        String::from("00ab"),
    );
    block.nonce = 9;
    assert_eq!(
        block.calculate_hash(),
        "f2a4b681889e9515029bddb6f156224dca13a73977f173131846c41398d00518"
    );
}

#[test]
fn digest_does_not_read_the_stored_hash() {
    let mut block = Block::new(3, 4, vec![ada()], String::from("ff"));
    let digest = block.calculate_hash();
    block.hash = String::from("something else");
    assert_eq!(block.calculate_hash(), digest);
}

#[test]
fn digest_has_no_separators_between_fields() {
    let left = Block::new(1, 2, vec![record("ab", "c", "", "")], String::new());
    let right = Block::new(1, 2, vec![record("a", "bc", "", "")], String::new());
    assert_eq!(left.hash, "977c09226c1f028c423d4167001f0e311127f6b20fd75d3d33b6a797136be41d");
    assert_eq!(right.hash, left.hash);
}

#[test]
fn mining_finds_the_first_nonce() {
    let mut block = Block::new(1, 2000, vec![ada()], String::from(GENESIS_AT_1000));
    assert!(block.mine_block(2));
    assert_eq!(block.nonce, 593);
    assert_eq!(block.hash, FIRST_AT_2000);
    assert_eq!(block.calculate_hash(), block.hash);
    assert_eq!(block.data, vec![ada()]);
    assert_eq!(block.index, 1);
    assert_eq!(block.timestamp, 2000);
    assert_eq!(block.previous_hash, GENESIS_AT_1000);
}

#[test]
fn a_hash_has_64_lowercase_hexadecimal_characters() {
    let is_digest = |hash: &str| {
        hash.len() == 64 && hash.chars().all(|c| c.is_ascii_digit() || ('a'..='f').contains(&c))
    };
    let mut block = Block::new(1, 2000, vec![ada()], String::from(GENESIS_AT_1000));
    assert!(is_digest(&block.hash));
    assert!(block.mine_block(1));
    assert!(is_digest(&block.hash));
    let mut ledger = Blockchain::new_at(1, 1000);
    assert!(is_digest(&ledger.chain[0].hash));
    assert!(ledger.add_block_at(vec![ada()], 2000));
    assert!(is_digest(&ledger.chain[1].hash));
    assert!(ledger.mine_pending_transactions_at(3000));
    assert!(is_digest(&ledger.chain[2].hash));
    let mut ledger = Blockchain::new(1);
    assert!(is_digest(&ledger.chain[0].hash));
    assert!(ledger.add_block(Vec::new()));
    assert!(ledger.mine_pending_transactions());
    assert!(is_digest(&ledger.chain[1].hash));
    assert!(is_digest(&ledger.chain[2].hash));
}

#[test]
fn mining_at_other_difficulties() {
    let mut one = Block::new(1, 2000, vec![ada()], String::from(GENESIS_AT_1000));
    assert!(one.mine_block(1));
    assert_eq!(one.nonce, 2);
    assert_eq!(one.hash, "0e4aaac217f2b90f8dc285c7348096ff50f9f736e0d25932ed3c7e1d2f7009b9");
    let mut three = Block::new(1, 2000, vec![ada()], String::from(GENESIS_AT_1000));
    assert!(three.mine_block(3));
    assert_eq!(three.nonce, 16019);
    assert_eq!(three.hash, "000fa234238f45886e22931ab32ab8b3bf53969a831f5848006a182b8474bbe3");
}

#[test]
fn mining_at_difficulty_zero_keeps_the_nonce() {
    let mut block = Block::new(1, 2000, vec![ada()], String::from(GENESIS_AT_1000));
    assert!(block.mine_block(0));
    assert_eq!(block.nonce, 0);
    assert_eq!(block.hash, "43b3ce1fc2fd6de16777c601be979919f0bd177c6a44b6dcc84624af91d4e7a4");
}

#[test]
fn mining_starts_from_the_nonce_of_the_block() {
    let mut block = Block::new(1, 2000, vec![ada()], String::from(GENESIS_AT_1000));
    block.nonce = 594;
    assert!(block.mine_block(2));
    assert_eq!(block.nonce, 695);
    assert_eq!(block.hash, "00c54b96e722a952c3f9991427deb56dc0cdbed1327e385dc2dd20f2b9ee75b9");
}

#[test]
fn mining_sets_a_stale_hash_right() {
    let mut block = Block::new(1, 2000, vec![ada()], String::from(GENESIS_AT_1000));
    block.hash = String::from("00 but not a digest");
    assert!(block.mine_block(2));
    assert_eq!(block.nonce, 593);
    assert_eq!(block.hash, FIRST_AT_2000);
}

#[test]
fn mining_beyond_the_length_of_a_digest_fails() {
    let mut block = Block::new(1, 2000, vec![ada()], String::from(GENESIS_AT_1000));
    let before = block.clone();
    assert!(!block.mine_block(65));
    assert_eq!(block, before);
}

#[test]
fn mining_without_a_nonce_left_fails() {
    let mut block = Block::new(1, 2000, vec![ada()], String::from(GENESIS_AT_1000));
    block.nonce = u64::MAX;
    let before = block.clone();
    assert!(!block.mine_block(64));
    assert_eq!(block, before);
}

#[test]
fn genesis_block_of_a_new_ledger() {
    let ledger = Blockchain::new_at(3, 1000);
    assert_eq!(ledger.difficulty, 3);
    assert!(ledger.pending_transactions.is_empty());
    assert_eq!(ledger.chain.len(), 1);
    let genesis = &ledger.chain[0];
    assert_eq!(genesis.index, 0);
    assert_eq!(genesis.timestamp, 1000);
    assert!(genesis.data.is_empty());
    assert_eq!(genesis.previous_hash, "");
    assert_eq!(genesis.nonce, 0);
    assert_eq!(genesis.hash, GENESIS_AT_1000);
}

#[test]
fn fresh_ledger_is_valid() {
    let ledger = Blockchain::new(1);
    assert_eq!(ledger.difficulty, 1);
    assert_eq!(ledger.chain.len(), 1);
    assert!(ledger.is_chain_valid());
}

#[test]
fn a_reading_of_the_clock_becomes_a_timestamp() {
    assert_eq!(timestamp_from_reading(Some(0)), 0);
    assert_eq!(timestamp_from_reading(Some(1)), 1);
    assert_eq!(timestamp_from_reading(Some(1_700_000_000_000)), 1_700_000_000_000);
    assert_eq!(timestamp_from_reading(Some(u128::MAX)), u128::MAX);
    assert_eq!(timestamp_from_reading(None), 0);
}

#[test]
fn new_ledger_is_stamped_with_the_clock() {
    let before = Blockchain::current_time();
    let ledger = Blockchain::new(1);
    let after = Blockchain::current_time();
    assert!(before <= ledger.chain[0].timestamp);
    assert!(ledger.chain[0].timestamp <= after);
    assert!(before > 1_600_000_000_000);
}

#[test]
fn sealing_one_record() {
    let mut ledger = Blockchain::new(2);
    ledger.create_transaction(ada());
    assert!(ledger.mine_pending_transactions());
    assert_eq!(ledger.chain.len(), 2);
    assert_eq!(ledger.chain[1].previous_hash, ledger.chain[0].hash);
    assert!(ledger.chain[1].hash.starts_with("00"));
    assert_eq!(ledger.chain[1].data, vec![ada()]);
    assert!(ledger.is_chain_valid());
}

#[test]
fn sealing_at_a_given_time() {
    let ledger = sealed_ledger();
    assert_eq!(ledger.chain.len(), 2);
    let block = &ledger.chain[1];
    assert_eq!(block.index, 1);
    assert_eq!(block.timestamp, 2000);
    assert_eq!(block.data, vec![ada()]);
    assert_eq!(block.previous_hash, GENESIS_AT_1000);
    assert_eq!(block.nonce, 593);
    assert_eq!(block.hash, FIRST_AT_2000);
    assert!(ledger.pending_transactions.is_empty());
    assert_eq!(ledger.difficulty, 2);
    assert!(ledger.is_chain_valid());
}

#[test]
fn sealed_hash_meets_every_difficulty() {
    for difficulty in 0..4 {
        let mut ledger = Blockchain::new_at(difficulty, 1000);
        ledger.create_transaction(ada());
        assert!(ledger.mine_pending_transactions_at(2000));
        let hash = &ledger.chain[1].hash;
        assert_eq!(&hash[..difficulty], "0".repeat(difficulty));
        assert!(ledger.is_chain_valid());
    }
}

#[test]
fn sealing_above_the_length_of_a_digest_changes_nothing() {
    let mut ledger = Blockchain::new_at(65, 1000);
    ledger.create_transaction(ada());
    let before = ledger.clone();
    assert!(!ledger.mine_pending_transactions_at(2000));
    assert_eq!(ledger, before);
    assert!(!ledger.add_block_at(vec![ada()], 2000));
    assert_eq!(ledger, before);
}

#[test]
fn submitting_keeps_order_and_mines_nothing() {
    let mut ledger = Blockchain::new_at(2, 1000);
    let grace = record("Grace", "Hopper", "CS102", "ab12");
    ledger.create_transaction(ada());
    ledger.create_transaction(grace.clone());
    ledger.create_transaction(ada());
    assert_eq!(ledger.chain.len(), 1);
    assert_eq!(ledger.pending_transactions, vec![ada(), grace.clone(), ada()]);
    assert!(ledger.mine_pending_transactions_at(2000));
    assert_eq!(ledger.chain[1].data, vec![ada(), grace, ada()]);
    assert!(ledger.pending_transactions.is_empty());
}

#[test]
fn sealing_an_empty_pool_twice() {
    let mut ledger = sealed_ledger();
    assert!(ledger.mine_pending_transactions_at(3000));
    assert!(ledger.mine_pending_transactions_at(3000));
    assert_eq!(ledger.chain.len(), 4);
    let (second, third) = (&ledger.chain[2], &ledger.chain[3]);
    assert!(second.data.is_empty());
    assert!(third.data.is_empty());
    assert_eq!(second.index, 2);
    assert_eq!(third.index, 3);
    assert_eq!(second.previous_hash, FIRST_AT_2000);
    assert_eq!(second.nonce, 7);
    assert_eq!(second.hash, "000dc637211930af2e074ca5a005479ad2ec1ca006c8259d34184b8de6dedcb7");
    assert_eq!(third.previous_hash, second.hash);
    assert_eq!(third.nonce, 324);
    assert_eq!(third.hash, "00096b23bb13b95bdb151b81d442c738d297fd3ab29fcd5b352d57cc42927d01");
    assert_ne!(second, third);
    assert!(ledger.is_chain_valid());
}

#[test]
fn adding_a_block_leaves_the_pool_alone() {
    let mut ledger = Blockchain::new_at(2, 1000);
    let grace = record("Grace", "Hopper", "CS102", "ab12");
    ledger.create_transaction(grace.clone());
    assert!(ledger.add_block_at(vec![ada()], 2000));
    assert_eq!(ledger.chain.len(), 2);
    assert_eq!(ledger.chain[1].data, vec![ada()]);
    assert_eq!(ledger.chain[1].nonce, 593);
    assert_eq!(ledger.chain[1].hash, FIRST_AT_2000);
    assert_eq!(ledger.pending_transactions, vec![grace]);
    assert!(ledger.is_chain_valid());
}

#[test]
fn adding_a_block_by_the_clock() {
    let mut ledger = Blockchain::new(1);
    assert!(ledger.add_block(vec![ada()]));
    assert!(ledger.add_block(Vec::new()));
    assert_eq!(ledger.chain.len(), 3);
    assert_eq!(ledger.chain[2].index, 2);
    assert_eq!(ledger.chain[2].previous_hash, ledger.chain[1].hash);
    assert!(ledger.chain[2].hash.starts_with('0'));
    assert!(ledger.is_chain_valid());
}

#[test]
fn a_history_of_submitting_and_sealing_is_valid() {
    let mut ledger = Blockchain::new_at(1, 5);
    for round in 0..6u128 {
        for _ in 0..(round % 3) {
            ledger.create_transaction(ada());
        }
        assert!(ledger.is_chain_valid());
        assert!(ledger.mine_pending_transactions_at(10 + round));
        assert!(ledger.is_chain_valid());
    }
    assert_eq!(ledger.chain.len(), 7);
    for (place, block) in ledger.chain.iter().enumerate() {
        assert_eq!(block.index, place as u64);
    }
}

#[test]
fn tampering_with_any_one_field_is_detected() {
    let intact = sealed_ledger();
    assert!(intact.is_chain_valid());

    let mut ledger = intact.clone();
    ledger.chain[1].index = 2;
    assert!(!ledger.is_chain_valid());

    let mut ledger = intact.clone();
    ledger.chain[1].timestamp = 2001;
    assert!(!ledger.is_chain_valid());

    let mut ledger = intact.clone();
    ledger.chain[1].nonce = 594;
    assert!(!ledger.is_chain_valid());

    let mut ledger = intact.clone();
    ledger.chain[1].previous_hash.replace_range(0..1, "8");
    assert!(!ledger.is_chain_valid());

    let mut ledger = intact.clone();
    ledger.chain[1].data[0].first_name = String::from("Eve");
    assert!(!ledger.is_chain_valid());

    let mut ledger = intact.clone();
    ledger.chain[1].data[0].last_name = String::from("Lovelacf");
    assert!(!ledger.is_chain_valid());

    let mut ledger = intact.clone();
    ledger.chain[1].data[0].class_number = String::from("CS102");
    assert!(!ledger.is_chain_valid());

    let mut ledger = intact.clone();
    ledger.chain[1].data[0].image_hash = String::from("e3b0c5");
    assert!(!ledger.is_chain_valid());

    let mut ledger = intact.clone();
    ledger.chain[1].hash.replace_range(63..64, "1");
    assert!(!ledger.is_chain_valid());
}

#[test]
fn a_hash_that_was_derived_again_but_not_mined_is_detected() {
    let mut ledger = sealed_ledger();
    ledger.chain[1].data[0].first_name = String::from("Eve");
    ledger.chain[1].hash = ledger.chain[1].calculate_hash();
    assert_eq!(
        ledger.chain[1].hash,
        "41e47c01501f1911d36b69f2c2ca1a3134d034bb10e938835843cfd6bcdd2581"
    );
    assert!(!ledger.is_chain_valid());
}

#[test]
fn a_broken_link_is_detected() {
    let mut ledger = sealed_ledger();
    ledger.chain[1].previous_hash = String::from("00");
    ledger.chain[1].nonce = 0;
    assert!(ledger.chain[1].mine_block(2));
    assert_eq!(ledger.chain[1].hash, ledger.chain[1].calculate_hash());
    assert!(ledger.chain[1].hash.starts_with("00"));
    assert!(!ledger.is_chain_valid());
}

#[test]
fn a_block_behind_a_tampered_one_is_detected() {
    let mut ledger = sealed_ledger();
    assert!(ledger.mine_pending_transactions_at(3000));
    ledger.chain[1].data[0].first_name = String::from("Eve");
    ledger.chain[1].nonce = 0;
    assert!(ledger.chain[1].mine_block(2));
    assert!(!ledger.is_chain_valid());
}

#[test]
fn a_raised_difficulty_is_not_met() {
    let mut ledger = sealed_ledger();
    ledger.difficulty = 3;
    assert!(!ledger.is_chain_valid());
    ledger.difficulty = 1;
    assert!(ledger.is_chain_valid());
}

#[test]
fn the_genesis_block_is_exempt() {
    let mut ledger = Blockchain::new_at(4, 1000);
    ledger.chain[0].hash = String::from("not a digest");
    ledger.chain[0].previous_hash = String::from("anything");
    assert!(ledger.is_chain_valid());
    ledger.chain.clear();
    assert!(ledger.is_chain_valid());
}

#[test]
fn well_formed_means_a_genesis_block_and_indices_in_place() {
    let mut ledger = sealed_ledger();
    assert!(ledger.is_well_formed());
    ledger.chain[1].index = 2;
    assert!(!ledger.is_well_formed());
    ledger.chain[1].index = 1;
    ledger.chain[0].index = 1;
    assert!(!ledger.is_well_formed());
    ledger.chain[0].index = 0;
    ledger.chain[1].hash = String::from("tampered");
    assert!(ledger.is_well_formed());
    ledger.chain.clear();
    assert!(!ledger.is_well_formed());
}

#[test]
fn snapshot_copies_chain_and_difficulty() {
    let mut ledger = sealed_ledger();
    ledger.create_transaction(ada());
    let (chain, difficulty) = ledger.snapshot();
    assert_eq!(chain, ledger.chain);
    assert_eq!(difficulty, 2);
    assert!(ledger.mine_pending_transactions_at(3000));
    assert_eq!(chain.len(), 2);
    assert_eq!(ledger.chain.len(), 3);
}

#[test]
fn clone_copies_everything() {
    let mut ledger = sealed_ledger();
    ledger.create_transaction(ada());
    let copy = ledger.clone();
    assert_eq!(copy, ledger);
    assert_eq!(copy.pending_transactions, vec![ada()]);
}
