use nft_ledger::{decimal, hex_digest, to_hex, NFTTransaction};

#[test]
fn decimal_renders_digits() {
    assert_eq!(decimal(0), b"0".to_vec());
    assert_eq!(decimal(7), b"7".to_vec());
    assert_eq!(decimal(10), b"10".to_vec());
    assert_eq!(decimal(1700000000000), b"1700000000000".to_vec());
}

#[test]
fn decimal_renders_the_largest_number() {
    assert_eq!(decimal(u128::MAX), b"340282366920938463463374607431768211455".to_vec());
}

#[test]
fn hex_is_lowercase_with_two_digits_per_byte() {
    assert_eq!(to_hex(&[0x0a, 0x14, 0x1e]), "0a141e");
    assert_eq!(to_hex(&[0x00, 0xff, 0x9a]), "00ff9a");
}

#[test]
fn hex_of_nothing_is_empty() {
    assert_eq!(to_hex(&[]), "");
}

#[test]
fn hex_digest_of_a_known_message() {
    assert_eq!(
        hex_digest(b"hello world"),
        "b94d27b9934d3e08a52e52d7da7dabfac484efe37a5380ee9088f7ace2efcde9"
    );
}

#[test]
fn hex_digest_of_the_empty_message() {
    assert_eq!(
        hex_digest(b""),
        "e3b0c44298fc1c149afbf4c8996fb92427ae41e4649b934ca495991b7852b855"
    );
}

#[test]
fn hex_digest_has_64_lowercase_hex_characters() {
    let hash = hex_digest(b"any content at all");
    assert_eq!(hash.len(), 64);
    assert!(hash.chars().all(|c| c.is_ascii_digit() || ('a'..='f').contains(&c)));
}

#[test]
fn record_keeps_its_fields() {
    let record = NFTTransaction::new(
        String::from("Ada"),
        String::from("Lovelace"),
        String::from("CS101"),
        String::from("e3b0c4"),
    );
    assert_eq!(record.first_name, "Ada");
    assert_eq!(record.last_name, "Lovelace");
    assert_eq!(record.class_number, "CS101");
    assert_eq!(record.image_hash, "e3b0c4");
    assert_eq!(record.clone(), record);
}

#[test]
fn record_is_complete_when_no_field_is_empty() {
    let full = NFTTransaction::new(
        String::from("a"),
        String::from("b"),
        String::from("c"),
        String::from("d"),
    );
    assert!(full.is_complete());
    for missing in 0..4 {
        let field = |i: usize| if i == missing { String::new() } else { String::from("x") };
        let record = NFTTransaction::new(field(0), field(1), field(2), field(3));
        assert!(!record.is_complete());
    }
}
