use tiaf::block::Block;
use tiaf::hashing::hex_sha3;
use tiaf::record::Record;

#[test]
fn test_blocks() {
    let b = Block::genesis();
    b.validate().unwrap();
    let g = Record::genesis_record();
    g.validate().unwrap();
    let r = Record::new("sixpence".to_string());
    r.validate().unwrap();
}

#[test]
fn test_structured_entry() {
    let r = Record::new("{\"foo\": \"bar\"}".to_string());
    let kv = r.structured_entry().unwrap();
    let pairs = kv.pairs();
    let found = pairs.iter().find(|p| p.0 == "foo").unwrap();
    assert_eq!(found.1, "bar");
}

#[test]
fn test_structured_entry_with_unstructure() {
    let r = Record::new("mumbles".to_string());
    assert!(r.structured_entry().is_err());
}

#[test]
fn test_record_validates() {
    // any record made over an entry passes its own hash check
    let r = Record::new("anything at all".to_string());
    assert!(r.validate().is_ok());
    assert_eq!(r.entry, "anything at all");
    assert_eq!(r.uuid.len(), 16);
    // tampering with the entry invalidates the stored hash
    let mut tampered = r.clone();
    tampered.entry = "something else".to_string();
    assert!(tampered.validate().is_err());
}

#[test]
fn test_records_are_distinct() {
    // two records over the same entry differ by uuid, so their hashes differ
    let a = Record::new("same".to_string());
    let b = Record::new("same".to_string());
    assert_ne!(a.uuid, b.uuid);
    assert_ne!(a.hash, b.hash);
}

#[test]
fn test_hex_sha3_known_digest() {
    // the SHA3-256 digest of the empty input, rendered in lowercase hex
    let digest = hex_sha3(&Vec::new());
    assert_eq!(
        digest,
        "a7ffc6f8bf1ed76651c14756a061d662f580ff4de43b49fa82d80a4b80f8434a"
    );
    // and of a short ASCII input
    let abc = hex_sha3(&vec![b'a', b'b', b'c']);
    assert_eq!(
        abc,
        "3a985da74fe225b2045c172d6bd390bd855f086e3e9d525b46bfe24511431532"
    );
}

#[test]
fn test_block_new_seals() {
    let r1 = Record::new("one".to_string());
    let r2 = Record::new("two".to_string());
    let genesis = Block::genesis();
    let b = Block::new(1, genesis.hash.clone(), vec![r1, r2]);
    assert_eq!(b.index, 1);
    assert_eq!(b.previous_hash(), &genesis.hash);
    assert_eq!(b.hash.len(), 64);
    b.validate().unwrap();
}

#[test]
fn test_block_validate_rejects_tampering() {
    let r = Record::new("payload".to_string());
    let genesis = Block::genesis();
    let mut b = Block::new(1, genesis.hash.clone(), vec![r]);
    b.timestamp = b.timestamp.wrapping_add(1);
    assert!(b.validate().is_err());
}
