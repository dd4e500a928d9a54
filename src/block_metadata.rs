//! The record of a committed block handed to the execution layer, and its
//! canonical byte encoding.
use vstd::prelude::*;
use crate::types::{AccountAddress, HashValue, DIGEST_LEN, IDENTITY_LEN, SIGNATURE_LEN};
use crate::validators::{is_member, ValidatorSet};
use crate::vote_map::{sorted_by_voter, well_sized, VoteEntry, VoteMap};

verus! {

#[derive(Clone, Copy, Debug, PartialEq, Eq, Structural)]
pub enum MetadataError {
    InvalidProposer,
    NonMonotonicTimestamp,
}

#[derive(Clone, Copy, Debug, PartialEq, Eq, Structural)]
pub enum EncodeError {
    SerializationFailure,
}

/// The information of one block that is stored on chain: its id, its
/// timestamp in microseconds, the votes that endorsed the previous block in
/// ascending order of identity, and its proposer.
pub struct BlockMetadata {
    id: HashValue,
    timestamp_usec: u64,
    previous_block_votes: VoteMap,
    proposer: AccountAddress,
}

/// The fields of a block's metadata: id, timestamp, vote pairs and proposer.
pub type MetadataView = (Seq<u8>, u64, Seq<(Seq<u8>, Seq<u8>)>, Seq<u8>);

impl View for BlockMetadata {
    type V = MetadataView;

    closed spec fn view(&self) -> MetadataView {
        (self.id@, self.timestamp_usec, self.previous_block_votes@, self.proposer@)
    }
}

/// The eight bytes of `x`, least significant first.
pub open spec fn le_bytes(x: u64) -> Seq<u8> {
    seq![
        x as u8,
        (x >> 8u64) as u8,
        (x >> 16u64) as u8,
        (x >> 24u64) as u8,
        (x >> 32u64) as u8,
        (x >> 40u64) as u8,
        (x >> 48u64) as u8,
        (x >> 56u64) as u8,
    ]
}

/// The vote pairs one after the other: identity bytes, then signature bytes.
pub open spec fn pairs_bytes(s: Seq<(Seq<u8>, Seq<u8>)>) -> Seq<u8>
    decreases s.len(),
{
    if s.len() == 0 {
        Seq::empty()
    } else {
        pairs_bytes(s.drop_last()) + s.last().0 + s.last().1
    }
}

/// The encoded vote map: the number of pairs, then the pairs.
pub open spec fn vote_map_bytes(s: Seq<(Seq<u8>, Seq<u8>)>) -> Seq<u8> {
    le_bytes(s.len() as u64) + pairs_bytes(s)
}

/// The canonical encoding of block metadata: id, timestamp, vote map,
/// proposer.
pub open spec fn encoding(m: MetadataView) -> Seq<u8> {
    m.0 + le_bytes(m.1) + vote_map_bytes(m.2) + m.3
}

fn push_u64(v: &mut Vec<u8>, x: u64)
    ensures
        final(v)@ == old(v)@ + le_bytes(x),
{
    v.push(x as u8);
    v.push((x >> 8u64) as u8);
    v.push((x >> 16u64) as u8);
    v.push((x >> 24u64) as u8);
    v.push((x >> 32u64) as u8);
    v.push((x >> 40u64) as u8);
    v.push((x >> 48u64) as u8);
    v.push((x >> 56u64) as u8);
    assert(v@ =~= old(v)@ + le_bytes(x));
}

fn push_bytes(v: &mut Vec<u8>, b: &[u8])
    ensures
        final(v)@ == old(v)@ + b@,
{
    let mut i: usize = 0;
    while i < b.len()
        invariant
            0 <= i <= b@.len(),
            v@ == old(v)@ + b@.take(i as int),
        decreases b@.len() - i,
    {
        v.push(b[i]);
        assert(b@.take(i as int + 1) =~= b@.take(i as int).push(b@[i as int]));
        i = i + 1;
    }
    assert(b@.take(b@.len() as int) =~= b@);
}

/// Appends the encoded vote map of `entries` to `v`.
fn push_vote_pairs(v: &mut Vec<u8>, entries: &[VoteEntry])
    ensures
        final(v)@ == old(v)@ + vote_map_bytes(entries@.map_values(|e: VoteEntry| e@)),
{
    let ghost s = entries@.map_values(|e: VoteEntry| e@);
    push_u64(v, entries.len() as u64);
    let ghost start = v@;
    let mut i: usize = 0;
    while i < entries.len()
        invariant
            0 <= i <= entries@.len(),
            s == entries@.map_values(|e: VoteEntry| e@),
            v@ == start + pairs_bytes(s.take(i as int)),
        decreases entries@.len() - i,
    {
        let e = entries[i];
        push_bytes(v, e.voter.bytes.as_slice());
        push_bytes(v, e.signature.bytes.as_slice());
        assert(s.take(i as int + 1).drop_last() =~= s.take(i as int));
        assert(v@ =~= start + pairs_bytes(s.take(i as int + 1)));
        i = i + 1;
    }
    assert(s.take(s.len() as int) =~= s);
    assert(v@ =~= old(v)@ + vote_map_bytes(s));
}

impl BlockMetadata {
    pub open spec fn wf(&self) -> bool {
        &&& sorted_by_voter(self@.2)
        &&& well_sized(self@.2)
    }

    pub fn new(
        id: HashValue,
        timestamp_usec: u64,
        previous_block_votes: VoteMap,
        proposer: AccountAddress,
    ) -> (r: Self)
        requires
            previous_block_votes.wf(),
        ensures
            r.wf(),
            r@ == (id@, timestamp_usec, previous_block_votes@, proposer@),
    {
        BlockMetadata { id, timestamp_usec, previous_block_votes, proposer }
    }

    pub fn id(&self) -> (r: HashValue)
        ensures
            r@ == self@.0,
    {
        self.id
    }

    pub fn timestamp_usec(&self) -> (r: u64)
        ensures
            r == self@.1,
    {
        self.timestamp_usec
    }

    pub fn previous_block_votes(&self) -> (r: &VoteMap)
        ensures
            r@ == self@.2,
    {
        &self.previous_block_votes
    }

    pub fn proposer(&self) -> (r: AccountAddress)
        ensures
            r@ == self@.3,
    {
        self.proposer
    }

    /// The arguments of the system transaction: the id bytes, the timestamp,
    /// the encoded vote map and the proposer.
    pub fn into_inner(self) -> (r: Result<(Vec<u8>, u64, Vec<u8>, AccountAddress), EncodeError>)
        requires
            self.wf(),
        ensures
            match r {
                Ok((id, timestamp_usec, votes, proposer)) => {
                    &&& id@ == self@.0
                    &&& timestamp_usec == self@.1
                    &&& votes@ == vote_map_bytes(self@.2)
                    &&& proposer@ == self@.3
                },
                Err(_) => false,
            },
    {
        let id = self.id.to_vec();
        let mut votes: Vec<u8> = Vec::new();
        push_vote_pairs(&mut votes, self.previous_block_votes.entries());
        assert(votes@ =~= vote_map_bytes(self@.2));
        Ok((id, self.timestamp_usec, votes, self.proposer))
    }

    /// The canonical encoding of the whole record.
    pub fn encode(&self) -> (r: Result<Vec<u8>, EncodeError>)
        requires
            self.wf(),
        ensures
            match r {
                Ok(bytes) => bytes@ == encoding(self@),
                Err(_) => false,
            },
    {
        let mut v: Vec<u8> = Vec::new();
        push_bytes(&mut v, self.id.bytes.as_slice());
        push_u64(&mut v, self.timestamp_usec);
        push_vote_pairs(&mut v, self.previous_block_votes.entries());
        push_bytes(&mut v, self.proposer.bytes.as_slice());
        assert(v@ =~= encoding(self@));
        Ok(v)
    }
}

/// Builds the metadata of a block proposed by `proposer` at
/// `timestamp_usec`, after a previous block stamped
/// `previous_timestamp_usec`. A timestamp that goes back is refused first,
/// then a proposer outside `validators`.
pub fn build(
    id: HashValue,
    timestamp_usec: u64,
    previous_block_votes: VoteMap,
    proposer: AccountAddress,
    validators: &ValidatorSet,
    previous_timestamp_usec: u64,
) -> (r: Result<BlockMetadata, MetadataError>)
    requires
        previous_block_votes.wf(),
    ensures
        match r {
            Ok(m) => {
                &&& timestamp_usec >= previous_timestamp_usec
                &&& is_member(validators@, proposer@)
                &&& m.wf()
                &&& m@ == (id@, timestamp_usec, previous_block_votes@, proposer@)
            },
            Err(e) => if timestamp_usec < previous_timestamp_usec {
                e == MetadataError::NonMonotonicTimestamp
            } else {
                e == MetadataError::InvalidProposer && !is_member(validators@, proposer@)
            },
        },
{
    if timestamp_usec < previous_timestamp_usec {
        return Err(MetadataError::NonMonotonicTimestamp);
    }
    if !validators.contains(&proposer) {
        return Err(MetadataError::InvalidProposer);
    }
    Ok(BlockMetadata::new(id, timestamp_usec, previous_block_votes, proposer))
}

proof fn lemma_le_bytes_injective(x: u64, y: u64)
    requires
        le_bytes(x) == le_bytes(y),
    ensures
        x == y,
{
    assert(le_bytes(x)[0] == le_bytes(y)[0]);
    assert(le_bytes(x)[1] == le_bytes(y)[1]);
    assert(le_bytes(x)[2] == le_bytes(y)[2]);
    assert(le_bytes(x)[3] == le_bytes(y)[3]);
    assert(le_bytes(x)[4] == le_bytes(y)[4]);
    assert(le_bytes(x)[5] == le_bytes(y)[5]);
    assert(le_bytes(x)[6] == le_bytes(y)[6]);
    assert(le_bytes(x)[7] == le_bytes(y)[7]);
    assert(x == y) by (bit_vector)
        requires
            x as u8 == y as u8,
            (x >> 8u64) as u8 == (y >> 8u64) as u8,
            (x >> 16u64) as u8 == (y >> 16u64) as u8,
            (x >> 24u64) as u8 == (y >> 24u64) as u8,
            (x >> 32u64) as u8 == (y >> 32u64) as u8,
            (x >> 40u64) as u8 == (y >> 40u64) as u8,
            (x >> 48u64) as u8 == (y >> 48u64) as u8,
            (x >> 56u64) as u8 == (y >> 56u64) as u8,
    ;
}

proof fn lemma_pairs_bytes_len(s: Seq<(Seq<u8>, Seq<u8>)>)
    requires
        well_sized(s),
    ensures
        pairs_bytes(s).len() == (IDENTITY_LEN + SIGNATURE_LEN) * s.len(),
    decreases s.len(),
{
    if s.len() > 0 {
        assert(s.last() == s[s.len() - 1]);
        lemma_pairs_bytes_len(s.drop_last());
    }
}

proof fn lemma_pairs_bytes_injective(a: Seq<(Seq<u8>, Seq<u8>)>, b: Seq<(Seq<u8>, Seq<u8>)>)
    requires
        well_sized(a),
        well_sized(b),
        a.len() == b.len(),
        pairs_bytes(a) == pairs_bytes(b),
    ensures
        a == b,
    decreases a.len(),
{
    if a.len() > 0 {
        let n = a.len() - 1;
        let (ea, eb) = (pairs_bytes(a), pairs_bytes(b));
        assert(a.last() == a[n]);
        assert(b.last() == b[n]);
        lemma_pairs_bytes_len(a.drop_last());
        lemma_pairs_bytes_len(b.drop_last());
        let k = (IDENTITY_LEN + SIGNATURE_LEN) * n;
        assert(ea.subrange(0, k) =~= pairs_bytes(a.drop_last()));
        assert(eb.subrange(0, k) =~= pairs_bytes(b.drop_last()));
        assert(ea.subrange(k, k + IDENTITY_LEN) =~= a.last().0);
        assert(eb.subrange(k, k + IDENTITY_LEN) =~= b.last().0);
        assert(ea.subrange(k + IDENTITY_LEN, ea.len() as int) =~= a.last().1);
        assert(eb.subrange(k + IDENTITY_LEN, eb.len() as int) =~= b.last().1);
        lemma_pairs_bytes_injective(a.drop_last(), b.drop_last());
        assert(a =~= a.drop_last().push(a.last()));
        assert(b =~= b.drop_last().push(b.last()));
    } else {
        assert(a =~= b);
    }
}

/// Block metadata that differs in any field encodes to different bytes.
pub proof fn lemma_encoding_injective(m1: &BlockMetadata, m2: &BlockMetadata)
    requires
        m1.wf(),
        m2.wf(),
        m1@ != m2@,
    ensures
        encoding(m1@) != encoding(m2@),
{
    let (a, b) = (m1@, m2@);
    if encoding(a) == encoding(b) {
        let (ea, eb) = (encoding(a), encoding(b));
        assert(m1.id.bytes@.len() == DIGEST_LEN && m2.id.bytes@.len() == DIGEST_LEN);
        assert(m1.proposer.bytes@.len() == IDENTITY_LEN && m2.proposer.bytes@.len() == IDENTITY_LEN);
        lemma_pairs_bytes_len(a.2);
        lemma_pairs_bytes_len(b.2);
        assert(le_bytes(a.1).len() == 8 && le_bytes(b.1).len() == 8);
        assert(le_bytes(a.2.len() as u64).len() == 8 && le_bytes(b.2.len() as u64).len() == 8);
        assert(ea.len() == 80 + 96 * a.2.len());
        assert(eb.len() == 80 + 96 * b.2.len());
        assert(a.2.len() == b.2.len());
        let k = 48 + (IDENTITY_LEN + SIGNATURE_LEN) * a.2.len();
        assert(ea.subrange(0, 32) =~= a.0);
        assert(eb.subrange(0, 32) =~= b.0);
        assert(ea.subrange(32, 40) =~= le_bytes(a.1));
        assert(eb.subrange(32, 40) =~= le_bytes(b.1));
        lemma_le_bytes_injective(a.1, b.1);
        assert(ea.subrange(48, k) =~= pairs_bytes(a.2));
        assert(eb.subrange(48, k) =~= pairs_bytes(b.2));
        lemma_pairs_bytes_injective(a.2, b.2);
        assert(ea.subrange(k, ea.len() as int) =~= a.3);
        assert(eb.subrange(k, eb.len() as int) =~= b.3);
    }
}

} // verus!
