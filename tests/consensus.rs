use conflux_consensus::block_metadata::{build, BlockMetadata, MetadataError};
use conflux_consensus::types::{AccountAddress, HashValue, Secp256k1Signature};
use conflux_consensus::validators::{ValidatorInfo, ValidatorSet};
use conflux_consensus::vote_map::{VoteEntry, VoteMap};
use conflux_consensus::vote_store::{VoteError, VoteStore};

fn addr(n: u8) -> AccountAddress {
    AccountAddress::new([n; 32])
}

fn sig(n: u8) -> Secp256k1Signature {
    Secp256k1Signature::new([n; 64])
}

fn digest(n: u8) -> HashValue {
    HashValue::new([n; 32])
}

fn validators(powers: &[(u8, u64)]) -> ValidatorSet {
    let members = powers
        .iter()
        .map(|&(a, p)| ValidatorInfo { address: addr(a), voting_power: p })
        .collect();
    ValidatorSet::new(members).expect("valid validator set")
}

fn abc() -> ValidatorSet {
    validators(&[(0xA, 1), (0xB, 1), (0xC, 1)])
}

fn pairs(m: &VoteMap) -> Vec<([u8; 32], [u8; 64])> {
    m.entries().iter().map(|e: &VoteEntry| (e.voter.bytes, e.signature.bytes)).collect()
}

fn finalize_in_order(order: &[u8]) -> VoteMap {
    let mut store = VoteStore::new(abc());
    let d = digest(0xD);
    for &v in order {
        assert_eq!(store.record_vote(&d, addr(v), sig(v), true), Ok(()));
    }
    store.finalize(&d).expect("quorum")
}

fn le(x: u64) -> Vec<u8> {
    x.to_le_bytes().to_vec()
}

#[test]
fn end_to_end_three_validators() {
    let votes = finalize_in_order(&[0xC, 0xA, 0xB]);
    assert_eq!(
        pairs(&votes),
        vec![
            ([0xA; 32], [0xA; 64]),
            ([0xB; 32], [0xB; 64]),
            ([0xC; 32], [0xC; 64]),
        ]
    );
    let m = build(digest(0xD2), 1000, votes, addr(0xA), &abc(), 0).expect("valid metadata");
    let bytes = m.encode().expect("encodes");
    let mut expected = vec![0xD2u8; 32];
    expected.extend(le(1000));
    expected.extend(le(3));
    for v in [0xAu8, 0xB, 0xC] {
        expected.extend([v; 32]);
        expected.extend([v; 64]);
    }
    expected.extend([0xA; 32]);
    assert_eq!(bytes, expected);

    let other = build(digest(0xD2), 1000, finalize_in_order(&[0xA, 0xB, 0xC]), addr(0xA), &abc(), 0)
        .expect("valid metadata");
    assert_eq!(other.encode().expect("encodes"), bytes);
}

#[test]
fn encoding_independent_of_arrival_order() {
    let orders: [[u8; 3]; 6] = [
        [0xA, 0xB, 0xC],
        [0xA, 0xC, 0xB],
        [0xB, 0xA, 0xC],
        [0xB, 0xC, 0xA],
        [0xC, 0xA, 0xB],
        [0xC, 0xB, 0xA],
    ];
    let encodings: Vec<Vec<u8>> = orders
        .iter()
        .map(|o| {
            BlockMetadata::new(digest(1), 5, finalize_in_order(o), addr(0xB))
                .encode()
                .expect("encodes")
        })
        .collect();
    for e in &encodings {
        assert_eq!(e, &encodings[0]);
    }
}

#[test]
fn distinct_metadata_encode_differently() {
    let mut one = VoteMap::new();
    one.insert(addr(1), sig(1));
    let mut other_sig = VoteMap::new();
    other_sig.insert(addr(1), sig(2));
    let mut two = VoteMap::new();
    two.insert(addr(1), sig(1));
    two.insert(addr(2), sig(2));
    let all = vec![
        BlockMetadata::new(digest(1), 10, VoteMap::new(), addr(1)),
        BlockMetadata::new(digest(2), 10, VoteMap::new(), addr(1)),
        BlockMetadata::new(digest(1), 11, VoteMap::new(), addr(1)),
        BlockMetadata::new(digest(1), 10, VoteMap::new(), addr(2)),
        BlockMetadata::new(digest(1), 10, one, addr(1)),
        BlockMetadata::new(digest(1), 10, other_sig, addr(1)),
        BlockMetadata::new(digest(1), 10, two, addr(1)),
        BlockMetadata::new(digest(1), 1 << 40, VoteMap::new(), addr(1)),
    ];
    let encodings: Vec<Vec<u8>> = all.iter().map(|m| m.encode().expect("encodes")).collect();
    for i in 0..encodings.len() {
        for j in 0..encodings.len() {
            if i != j {
                assert_ne!(encodings[i], encodings[j]);
            }
        }
    }
}

#[test]
fn unknown_voter_rejected_without_change() {
    let mut store = VoteStore::new(abc());
    let d = digest(7);
    assert_eq!(store.record_vote(&d, addr(0xA), sig(0xA), true), Ok(()));
    assert_eq!(store.record_vote(&d, addr(0xE), sig(0xE), true), Err(VoteError::UnknownVoter));
    assert_eq!(store.record_vote(&d, addr(0xE), sig(0xE), false), Err(VoteError::UnknownVoter));
    assert_eq!(store.record_vote(&d, addr(0xB), sig(0xB), true), Ok(()));
    assert_eq!(store.record_vote(&d, addr(0xC), sig(0xC), true), Ok(()));
    let votes = store.finalize(&d).expect("quorum");
    assert_eq!(votes.len(), 3);
    assert!(!votes.contains_voter(&addr(0xE)));
}

#[test]
fn invalid_signature_rejected() {
    let mut store = VoteStore::new(abc());
    let d = digest(7);
    assert_eq!(store.record_vote(&d, addr(0xA), sig(0xA), false), Err(VoteError::InvalidSignature));
    assert_eq!(store.finalize(&d).err(), Some(VoteError::QuorumNotReached));
}

#[test]
fn conflicting_vote_is_duplicate_and_first_kept() {
    let mut store = VoteStore::new(abc());
    let d = digest(9);
    assert_eq!(store.record_vote(&d, addr(0xA), sig(1), true), Ok(()));
    assert_eq!(store.record_vote(&d, addr(0xA), sig(2), true), Err(VoteError::DuplicateVote));
    assert_eq!(store.record_vote(&d, addr(0xA), sig(1), true), Ok(()));
    assert_eq!(store.record_vote(&d, addr(0xB), sig(0xB), true), Ok(()));
    assert_eq!(store.record_vote(&d, addr(0xC), sig(0xC), true), Ok(()));
    let votes = store.finalize(&d).expect("quorum");
    assert_eq!(pairs(&votes)[0], ([0xA; 32], [1; 64]));
    assert_eq!(votes.len(), 3);
}

#[test]
fn quorum_needs_more_than_two_thirds() {
    let set = || validators(&[(1, 2), (2, 1), (3, 1)]);
    let d = digest(3);
    let mut store = VoteStore::new(set());
    assert_eq!(store.record_vote(&d, addr(1), sig(1), true), Ok(()));
    // 2 of 4: not more than two thirds
    assert_eq!(store.finalize(&d).err(), Some(VoteError::QuorumNotReached));
    assert_eq!(store.record_vote(&d, addr(2), sig(2), true), Ok(()));
    // 3 of 4
    let votes = store.finalize(&d).expect("quorum");
    assert_eq!(votes.len(), 2);
    // the finalized votes are gone from the store
    assert_eq!(store.finalize(&d).err(), Some(VoteError::QuorumNotReached));
}

#[test]
fn votes_for_other_digests_are_kept_apart() {
    let mut store = VoteStore::new(abc());
    for v in [0xA, 0xB, 0xC] {
        assert_eq!(store.record_vote(&digest(1), addr(v), sig(v), true), Ok(()));
    }
    assert_eq!(store.record_vote(&digest(2), addr(0xA), sig(0x2A), true), Ok(()));
    let votes = store.finalize(&digest(1)).expect("quorum");
    assert_eq!(votes.len(), 3);
    assert_eq!(store.record_vote(&digest(2), addr(0xA), sig(0x2B), true), Err(VoteError::DuplicateVote));
    store.discard(&digest(2));
    assert_eq!(store.record_vote(&digest(2), addr(0xA), sig(0x2B), true), Ok(()));
}

#[test]
fn build_rejects_timestamp_going_back() {
    let r = build(digest(1), 999, VoteMap::new(), addr(0xA), &abc(), 1000);
    assert_eq!(r.err(), Some(MetadataError::NonMonotonicTimestamp));
    let r = build(digest(1), 999, VoteMap::new(), addr(0xE), &abc(), 1000);
    assert_eq!(r.err(), Some(MetadataError::NonMonotonicTimestamp));
    let r = build(digest(1), 1000, VoteMap::new(), addr(0xA), &abc(), 1000);
    assert!(r.is_ok());
}

#[test]
fn build_rejects_unknown_proposer() {
    let r = build(digest(1), 1000, VoteMap::new(), addr(0xE), &abc(), 0);
    assert_eq!(r.err(), Some(MetadataError::InvalidProposer));
}

#[test]
fn into_inner_splits_the_fields() {
    let mut votes = VoteMap::new();
    votes.insert(addr(2), sig(2));
    votes.insert(addr(1), sig(1));
    let m = BlockMetadata::new(digest(5), 0x0102030405060708, votes, addr(3));
    assert_eq!(m.id().bytes, [5; 32]);
    assert_eq!(m.timestamp_usec(), 0x0102030405060708);
    assert_eq!(m.proposer().bytes, [3; 32]);
    assert_eq!(m.previous_block_votes().len(), 2);
    let (id, ts, vote_bytes, proposer) = m.into_inner().expect("encodes");
    assert_eq!(id, vec![5u8; 32]);
    assert_eq!(ts, 0x0102030405060708);
    let mut expected = le(2);
    expected.extend([1u8; 32]);
    expected.extend([1u8; 64]);
    expected.extend([2u8; 32]);
    expected.extend([2u8; 64]);
    assert_eq!(vote_bytes, expected);
    assert_eq!(proposer.bytes, [3; 32]);
}

#[test]
fn vote_map_insert_orders_and_replaces() {
    let mut m = VoteMap::new();
    m.insert(addr(3), sig(3));
    m.insert(addr(1), sig(1));
    m.insert(addr(2), sig(2));
    m.insert(addr(1), sig(9));
    assert_eq!(
        pairs(&m),
        vec![([1; 32], [9; 64]), ([2; 32], [2; 64]), ([3; 32], [3; 64])]
    );
    let mut a = [0u8; 32];
    a[31] = 1;
    let mut b = [0u8; 32];
    b[0] = 1;
    m.insert(AccountAddress::new(b), sig(5));
    m.insert(AccountAddress::new(a), sig(4));
    assert_eq!(pairs(&m)[0].0, a);
    assert_eq!(pairs(&m)[1].0, b);
}

#[test]
fn validator_set_rejects_duplicates_and_overflow() {
    let dup = vec![
        ValidatorInfo { address: addr(1), voting_power: 1 },
        ValidatorInfo { address: addr(1), voting_power: 2 },
    ];
    assert!(ValidatorSet::new(dup).is_none());
    let big = vec![
        ValidatorInfo { address: addr(1), voting_power: u64::MAX },
        ValidatorInfo { address: addr(2), voting_power: 1 },
    ];
    assert!(ValidatorSet::new(big).is_none());
    let ok = validators(&[(1, u64::MAX - 1), (2, 1)]);
    assert_eq!(ok.len(), 2);
    assert_eq!(ok.total_voting_power(), u64::MAX);
    assert!(ok.contains(&addr(2)));
    assert!(!ok.contains(&addr(3)));
}

#[test]
fn digest_to_vec_and_compare() {
    assert_eq!(digest(4).to_vec(), vec![4u8; 32]);
    assert!(digest(4).same(&digest(4)));
    assert!(!digest(4).same(&digest(5)));
    assert_eq!(addr(1).compare(&addr(2)), std::cmp::Ordering::Less);
    assert_eq!(addr(2).compare(&addr(2)), std::cmp::Ordering::Equal);
    assert_eq!(addr(3).compare(&addr(2)), std::cmp::Ordering::Greater);
}
