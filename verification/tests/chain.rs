use rand::distr::{Alphanumeric, SampleString};
use tiaf::chain::{Blockchain, ChainComparison};
use tiaf::mempool::MemPool;
use tiaf::record::Record;
use tiaf::workers::{merge_from_peer, seal_pending, MergeOutcome};

fn random_string(n: usize) -> String {
    Alphanumeric.sample_string(&mut rand::rng(), n)
}

fn generate_records(num_to_get: u64) -> Vec<Record> {
    let suffix = random_string(4);
    let mut records: Vec<Record> = vec![];
    for i in 0..num_to_get {
        let r = Record::new(format!("{} {}", suffix, i));
        r.validate().unwrap();
        records.push(r);
    }
    records
}

#[test]
fn test_blockchain_append() {
    let mut b = Blockchain::new();
    b.append_records(generate_records(10)).unwrap();
    b.append_records(generate_records(10)).unwrap();
    assert_eq!(b.length(), 3);
    assert_eq!(b.get(1).unwrap().data.len(), 10);
    assert_eq!(b.get(2).unwrap().data.len(), 10);
}

#[test]
fn test_blockhashes() {
    let mut b = Blockchain::new();
    b.append_records(generate_records(10)).unwrap();
    b.append_records(generate_records(10)).unwrap();
    let hashes = b.block_hashes();
    assert_eq!(hashes.len(), 3);
    assert_eq!(hashes[0], b.get(0).unwrap().hash);
    assert_eq!(hashes[1], b.get(1).unwrap().hash);
}

#[test]
fn test_record_hashes() {
    let mut b = Blockchain::new();
    let r1 = generate_records(10);
    let r2 = generate_records(10);
    b.append_records(r1.clone()).unwrap();
    b.append_records(r2.clone()).unwrap();
    let hashes = b.known_record_hashes.clone();
    assert_eq!(hashes.len(), 21);
    vec![r1, r2].iter().for_each(|r| {
        r.iter().for_each(|r| {
            assert!(hashes.contains(&r.hash));
        })
    });
}

#[test]
fn test_append_new_records() {
    // Verify that we can add records.
    // Verify that we do not double-add records.
    {
        let mut b = Blockchain::new();
        let r1 = generate_records(10);
        let r2 = generate_records(10);
        b.append_records(r1.clone()).unwrap();
        b.append_records(r2.clone()).unwrap();
        let hashes = b.known_record_hashes.clone();
        assert_eq!(hashes.len(), 21);
        vec![r1, r2].iter().for_each(|r| {
            r.iter().for_each(|r| {
                assert!(hashes.contains(&r.hash));
            })
        });
    }
    {
        let mut b = Blockchain::new();
        let r1 = generate_records(10);
        let r2 = generate_records(10);
        b.append_records(r1.clone()).unwrap();
        b.append_new_records(r2.clone()).unwrap();
        let hashes = b.known_record_hashes.clone();
        assert_eq!(hashes.len(), 21);
        vec![r1, r2].iter().for_each(|r| {
            r.iter().for_each(|r| {
                assert!(hashes.contains(&r.hash));
            })
        });
    }
    {
        let mut b = Blockchain::new();
        let r1 = generate_records(10);
        let r2 = generate_records(10);
        b.append_records(r1.clone()).unwrap();
        // a wholly duplicate batch filters to nothing and is refused
        assert!(b.append_new_records(r1.clone()).is_err());
        let hashes = b.known_record_hashes.clone();
        assert_eq!(hashes.len(), 11);
        vec![r1].iter().for_each(|r| {
            r.iter().for_each(|r| {
                assert!(hashes.contains(&r.hash));
            })
        });
        // verify didn't see what ain'tthere.
        vec![r2].iter().for_each(|r| {
            r.iter().for_each(|r| {
                assert!(!hashes.contains(&r.hash));
            })
        });
    }
}

#[test]
fn test_append_records_refuses_empty_batch() {
    let mut b = Blockchain::new();
    assert!(b.append_records(vec![]).is_err());
    assert_eq!(b.length(), 1);
}

#[test]
fn test_chain_validates_after_appends() {
    let mut b = Blockchain::new();
    b.append_records(generate_records(3)).unwrap();
    b.append_records(generate_records(4)).unwrap();
    b.full_validate().unwrap();
    b.validate().unwrap();
    // every block links to its predecessor
    for i in 1..b.length() {
        assert_eq!(
            b.get(i).unwrap().previous_hash(),
            &b.get(i - 1).unwrap().hash
        );
    }
}

#[test]
fn test_tail_scenario() {
    // a new chain, one batch of two records: length 2, tail(1) is that block
    let mut b = Blockchain::new();
    let recs = vec![Record::new("a".to_string()), Record::new("b".to_string())];
    b.append_records(recs.clone()).unwrap();
    assert_eq!(b.length(), 2);
    let tail = b.tail(1);
    assert_eq!(tail.len(), 1);
    assert_eq!(tail[0].data.len(), 2);
    assert_eq!(tail[0].data[0].hash, recs[0].hash);
    assert_eq!(tail[0].data[1].hash, recs[1].hash);
    // asking for more blocks than exist returns the whole chain
    assert_eq!(b.tail(100).len(), 2);
}

#[test]
fn test_since_scenarios() {
    let mut b = Blockchain::new();
    b.append_records(generate_records(2)).unwrap();
    b.append_records(generate_records(2)).unwrap();
    assert_eq!(b.length(), 3);
    // since the head: nothing newer
    let head_hash = b.get(2).unwrap().hash.clone();
    assert_eq!(b.since(&head_hash).unwrap().len(), 0);
    // since genesis: blocks 1 and 2, ascending
    let genesis_hash = b.get(0).unwrap().hash.clone();
    let blocks = b.since(&genesis_hash).unwrap();
    assert_eq!(blocks.len(), 2);
    assert_eq!(blocks[0].hash, b.get(1).unwrap().hash);
    assert_eq!(blocks[1].hash, b.get(2).unwrap().hash);
}

#[test]
fn test_append_blocks_scenario() {
    // chain A holds [G, X]; chain B holds [G, X, Y]
    let mut a = Blockchain::new();
    let batch_x = generate_records(2);
    a.append_records(batch_x.clone()).unwrap();
    // rebuild B from A's blocks so both share G and X, then extend B
    let mut blocks = Vec::new();
    for i in 0..a.length() {
        blocks.push(a.get(i).unwrap().clone());
    }
    let mut b_candidates = Vec::new();
    for bl in &blocks {
        b_candidates.push(bl.clone());
    }
    let len = b_candidates.len() as u64;
    let mut b2 = Blockchain::from_blocks(b_candidates, len).unwrap();
    b2.append_records(generate_records(2)).unwrap();
    // appending B[1..] fails: its first block links to genesis, not to X
    let slice_from_1 = vec![b2.get(1).unwrap().clone(), b2.get(2).unwrap().clone()];
    assert!(a.append_blocks(slice_from_1).is_err());
    assert_eq!(a.length(), 2);
    // appending B[2..] succeeds and yields [G, X, Y]
    let slice_from_2 = vec![b2.get(2).unwrap().clone()];
    a.append_blocks(slice_from_2).unwrap();
    assert_eq!(a.length(), 3);
    assert_eq!(a.get(2).unwrap().hash, b2.get(2).unwrap().hash);
    a.full_validate().unwrap();
}

#[test]
fn test_compare_other_chain() {
    let mut a = Blockchain::new();
    a.append_records(generate_records(2)).unwrap();
    let mut longer = Blockchain::new();
    longer.append_records(generate_records(2)).unwrap();
    longer.append_records(generate_records(2)).unwrap();
    assert_eq!(a.compare_other_chain(&longer), ChainComparison::Longer);
    let same = Blockchain::new();
    assert_eq!(a.compare_other_chain(&same), ChainComparison::ShorterOrSame);
    // a candidate with a corrupted block is invalid
    let mut broken = Blockchain::new();
    broken.append_records(generate_records(2)).unwrap();
    let mut blocks = Vec::new();
    for i in 0..broken.length() {
        let mut bl = broken.get(i).unwrap().clone();
        if i == 1 {
            bl.hash = "not the right hash".to_string();
        }
        blocks.push(bl);
    }
    let corrupt = Blockchain {
        blocks,
        known_block_hashes: vec![],
        known_record_hashes: vec![],
        max_verified: 0,
    };
    assert!(matches!(
        a.compare_other_chain(&corrupt),
        ChainComparison::Invalid(_)
    ));
}

#[test]
fn test_compare_round_trip() {
    // rebuilding either operand from its serialised parts (blocks + length)
    // leaves the comparison outcome unchanged
    let mut a = Blockchain::new();
    a.append_records(generate_records(2)).unwrap();
    let mut b = Blockchain::new();
    b.append_records(generate_records(2)).unwrap();
    b.append_records(generate_records(2)).unwrap();
    let outcome = a.compare_other_chain(&b);
    let mut b_blocks = Vec::new();
    for i in 0..b.length() {
        b_blocks.push(b.get(i).unwrap().clone());
    }
    let b_rebuilt = Blockchain::from_blocks(b_blocks, b.length()).unwrap();
    assert_eq!(a.compare_other_chain(&b_rebuilt), outcome);
    let mut a_blocks = Vec::new();
    for i in 0..a.length() {
        a_blocks.push(a.get(i).unwrap().clone());
    }
    let a_rebuilt = Blockchain::from_blocks(a_blocks, a.length()).unwrap();
    assert_eq!(a_rebuilt.compare_other_chain(&b), outcome);
}

#[test]
fn test_from_blocks_rejects_bad_size() {
    let b = Blockchain::new();
    let blocks = vec![b.get(0).unwrap().clone()];
    assert!(Blockchain::from_blocks(blocks, 2).is_err());
    assert!(Blockchain::from_blocks(vec![], 0).is_err());
}

#[test]
fn test_seal_pending() {
    let mut pool = MemPool::new(10);
    let mut chain = Blockchain::new();
    // an empty pool seals nothing
    assert!(seal_pending(&mut pool, &mut chain).is_none());
    assert_eq!(chain.length(), 1);
    for r in generate_records(3) {
        pool.put(r).unwrap();
    }
    let outcome = seal_pending(&mut pool, &mut chain).unwrap();
    assert!(outcome.is_ok());
    assert_eq!(pool.length(), 0);
    assert_eq!(chain.length(), 2);
    assert_eq!(chain.get(1).unwrap().data.len(), 3);
}

#[test]
fn test_merge_from_peer() {
    let mut local = Blockchain::new();
    let batch = generate_records(2);
    local.append_records(batch.clone()).unwrap();
    // a peer that grew from the same chain by one block
    let mut shared = Vec::new();
    for i in 0..local.length() {
        shared.push(local.get(i).unwrap().clone());
    }
    let len = shared.len() as u64;
    let mut peer = Blockchain::from_blocks(shared, len).unwrap();
    peer.append_records(generate_records(2)).unwrap();
    let mut fetched = Vec::new();
    for i in 0..peer.length() {
        fetched.push(peer.get(i).unwrap().clone());
    }
    // a peer no longer than us changes nothing
    let not_longer = merge_from_peer(&mut local, 2, fetched.clone());
    assert!(matches!(not_longer, MergeOutcome::NotLonger));
    assert_eq!(local.length(), 2);
    // a longer peer grafts its unseen suffix
    let merged = merge_from_peer(&mut local, peer.length(), fetched);
    assert!(matches!(merged, MergeOutcome::Merged));
    assert_eq!(local.length(), 3);
    assert_eq!(local.get(2).unwrap().hash, peer.get(2).unwrap().hash);
}

#[test]
fn test_since_unknown_hash_returns_everything_after_genesis() {
    let mut b = Blockchain::new();
    b.append_records(generate_records(2)).unwrap();
    b.append_records(generate_records(2)).unwrap();
    let blocks = b.since("no block carries this hash").unwrap();
    assert_eq!(blocks.len(), 2);
    assert_eq!(blocks[0].hash, b.get(1).unwrap().hash);
}

#[test]
fn test_validate_advances_watermark() {
    let mut b = Blockchain::new();
    b.append_records(generate_records(2)).unwrap();
    b.append_records(generate_records(2)).unwrap();
    assert_eq!(b.max_verified, 0);
    b.validate().unwrap();
    assert_eq!(b.max_verified, 2);
    b.full_validate().unwrap();
    assert_eq!(b.max_verified, 2);
}

#[test]
fn test_merge_from_peer_no_graft() {
    // a peer claims more blocks but every fetched block is already known
    let mut local = Blockchain::new();
    local.append_records(generate_records(2)).unwrap();
    let fetched = vec![local.get(0).unwrap().clone(), local.get(1).unwrap().clone()];
    let outcome = merge_from_peer(&mut local, 10, fetched);
    assert!(matches!(outcome, MergeOutcome::NoGraft));
    assert_eq!(local.length(), 2);
}

#[test]
fn test_merge_from_peer_mismatch() {
    // a longer peer whose unseen blocks do not link to our head
    let mut local = Blockchain::new();
    local.append_records(generate_records(2)).unwrap();
    let mut stranger = Blockchain::new();
    stranger.append_records(generate_records(2)).unwrap();
    let fetched = vec![stranger.get(1).unwrap().clone()];
    let outcome = merge_from_peer(&mut local, 10, fetched);
    assert!(matches!(outcome, MergeOutcome::Mismatch(_)));
    assert_eq!(local.length(), 2);
}

#[test]
fn test_new_chain_shape() {
    // a fresh chain holds exactly the genesis block over the genesis record
    let c = Blockchain::new();
    assert_eq!(c.length(), 1);
    let b0 = c.get(0).unwrap();
    assert_eq!(b0.previous_hash(), "EIN SOF");
    assert_eq!(b0.hash.len(), 64);
    assert_eq!(b0.data.len(), 1);
    let g = &b0.data[0];
    assert_eq!(g.uuid, vec![0u8; 16]);
    assert_eq!(g.timestamp, 0);
    assert_eq!(g.entry, "בְּרֵאשִׁ֖ית בָּרָ֣א");
    g.validate().unwrap();
    assert!(c.block_seen(&b0.hash));
    assert!(c.record_seen(&g.hash));
    c.full_validate().unwrap();
}

#[test]
fn test_compare_invalid_carries_reason() {
    let a = Blockchain::new();
    let mut broken = Blockchain::new();
    broken.append_records(generate_records(1)).unwrap();
    let mut blocks = vec![broken.get(0).unwrap().clone(), broken.get(1).unwrap().clone()];
    blocks[1].hash = "corrupted".to_string();
    let corrupt = Blockchain {
        blocks,
        known_block_hashes: vec![],
        known_record_hashes: vec![],
        max_verified: 0,
    };
    match a.compare_other_chain(&corrupt) {
        ChainComparison::Invalid(reason) => {
            assert!(reason.starts_with("candidate chain is invalid: "));
        }
        other => panic!("expected an invalid comparison, got {:?}", other),
    }
}
