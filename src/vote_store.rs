//! Collects validators' votes per block digest and hands out the finalized,
//! identity-ordered vote set once a quorum has voted.
use vstd::prelude::*;
use crate::types::{AccountAddress, HashValue, Secp256k1Signature};
use crate::validators::{is_member, is_quorum, power_where, total_power, ValidatorSet};
use crate::block_metadata::encoding;
use crate::vote_map::{has_voter, lemma_same_votes_same_order, sorted_by_voter, VoteMap};

verus! {

#[derive(Clone, Copy, Debug, PartialEq, Eq, Structural)]
pub enum VoteError {
    InvalidSignature,
    UnknownVoter,
    DuplicateVote,
    QuorumNotReached,
}

/// A vote as recorded: the digest voted on, the voter and its signature.
#[derive(Clone, Copy, Debug)]
pub struct Ballot {
    pub digest: HashValue,
    pub voter: AccountAddress,
    pub signature: Secp256k1Signature,
}

impl View for Ballot {
    type V = (Seq<u8>, Seq<u8>, Seq<u8>);

    open spec fn view(&self) -> (Seq<u8>, Seq<u8>, Seq<u8>) {
        (self.digest@, self.voter@, self.signature@)
    }
}

/// At most one ballot per digest and voter.
pub open spec fn one_per_voter(s: Seq<(Seq<u8>, Seq<u8>, Seq<u8>)>) -> bool {
    forall|i: int, j: int|
        0 <= i < j < s.len() ==> (#[trigger] s[i].0, s[i].1) != (#[trigger] s[j].0, s[j].1)
}

/// Whether `voter` has a ballot for `digest`.
pub open spec fn has_ballot(s: Seq<(Seq<u8>, Seq<u8>, Seq<u8>)>, digest: Seq<u8>, voter: Seq<u8>) -> bool {
    exists|i: int| 0 <= i < s.len() && #[trigger] s[i].0 == digest && s[i].1 == voter
}

/// Whether the voters of `digest` hold more than two thirds of the voting
/// power of `validators`.
pub open spec fn quorum_reached(
    validators: Seq<(Seq<u8>, u64)>,
    s: Seq<(Seq<u8>, Seq<u8>, Seq<u8>)>,
    digest: Seq<u8>,
) -> bool {
    is_quorum(
        power_where(validators, |a: Seq<u8>| has_ballot(s, digest, a)),
        total_power(validators),
    )
}

/// The votes recorded for the blocks under way, checked against the
/// validator set of the block they endorse.
pub struct VoteStore {
    validators: ValidatorSet,
    ballots: Vec<Ballot>,
}

impl View for VoteStore {
    type V = Seq<(Seq<u8>, Seq<u8>, Seq<u8>)>;

    closed spec fn view(&self) -> Seq<(Seq<u8>, Seq<u8>, Seq<u8>)> {
        self.ballots@.map_values(|b: Ballot| b@)
    }
}

impl VoteStore {
    pub closed spec fn validators(&self) -> Seq<(Seq<u8>, u64)> {
        self.validators@
    }

    pub closed spec fn wf(&self) -> bool {
        &&& self.validators.wf()
        &&& one_per_voter(self@)
        &&& forall|i: int| 0 <= i < self@.len() ==> is_member(self.validators@, #[trigger] self@[i].1)
    }

    pub fn new(validators: ValidatorSet) -> (r: Self)
        requires
            validators.wf(),
        ensures
            r.wf(),
            r.validators() == validators@,
            r@ == Seq::<(Seq<u8>, Seq<u8>, Seq<u8>)>::empty(),
    {
        let r = VoteStore { validators, ballots: Vec::new() };
        assert(r@ =~= Seq::<(Seq<u8>, Seq<u8>, Seq<u8>)>::empty());
        r
    }

    fn find(&self, digest: &HashValue, voter: &AccountAddress) -> (r: Option<usize>)
        ensures
            match r {
                Some(i) => i < self@.len() && self@[i as int].0 == digest@ && self@[i as int].1
                    == voter@,
                None => !has_ballot(self@, digest@, voter@),
            },
    {
        let mut i: usize = 0;
        while i < self.ballots.len()
            invariant
                0 <= i <= self@.len(),
                forall|k: int|
                    0 <= k < i ==> !(#[trigger] self@[k].0 == digest@ && self@[k].1 == voter@),
            decreases self@.len() - i,
        {
            if self.ballots[i].digest.same(digest) && self.ballots[i].voter.same(voter) {
                return Some(i);
            }
            i = i + 1;
        }
        None
    }

    /// Records the vote of `voter` for `block_digest`. `signature_verified`
    /// is what checking `signature` over the digest for `voter` gave.
    /// An unknown voter is refused first, then an unverified signature, then
    /// a signature that differs from the one recorded for the same voter and
    /// digest. The same vote sent again changes nothing.
    pub fn record_vote(
        &mut self,
        block_digest: &HashValue,
        voter: AccountAddress,
        signature: Secp256k1Signature,
        signature_verified: bool,
    ) -> (r: Result<(), VoteError>)
        requires
            old(self).wf(),
        ensures
            final(self).wf(),
            final(self).validators() == old(self).validators(),
            !is_member(old(self).validators(), voter@) ==> r == Err::<(), VoteError>(
                VoteError::UnknownVoter,
            ) && final(self)@ == old(self)@,
            is_member(old(self).validators(), voter@) && !signature_verified ==> r == Err::<
                (),
                VoteError,
            >(VoteError::InvalidSignature) && final(self)@ == old(self)@,
            is_member(old(self).validators(), voter@) && signature_verified && has_ballot(
                old(self)@,
                block_digest@,
                voter@,
            ) && !old(self)@.contains((block_digest@, voter@, signature@)) ==> r == Err::<
                (),
                VoteError,
            >(VoteError::DuplicateVote) && final(self)@ == old(self)@,
            is_member(old(self).validators(), voter@) && signature_verified && old(
                self,
            )@.contains((block_digest@, voter@, signature@)) ==> r == Ok::<(), VoteError>(())
                && final(self)@ == old(self)@,
            is_member(old(self).validators(), voter@) && signature_verified && !has_ballot(
                old(self)@,
                block_digest@,
                voter@,
            ) ==> r == Ok::<(), VoteError>(()) && final(self)@ == old(self)@.push(
                (block_digest@, voter@, signature@),
            ),
    {
        if !self.validators.contains(&voter) {
            return Err(VoteError::UnknownVoter);
        }
        if !signature_verified {
            return Err(VoteError::InvalidSignature);
        }
        match self.find(block_digest, &voter) {
            Some(i) => {
                let ghost s = self@;
                if self.ballots[i].signature.same(&signature) {
                    assert(s[i as int] == (block_digest@, voter@, signature@));
                    Ok(())
                } else {
                    assert(!s.contains((block_digest@, voter@, signature@))) by {
                        if s.contains((block_digest@, voter@, signature@)) {
                            let k = choose|k: int|
                                0 <= k < s.len() && s[k] == (block_digest@, voter@, signature@);
                            if k < i {
                                assert((s[k].0, s[k].1) != (s[i as int].0, s[i as int].1));
                            } else if k > i {
                                assert((s[i as int].0, s[i as int].1) != (s[k].0, s[k].1));
                            }
                        }
                    }
                    Err(VoteError::DuplicateVote)
                }
            },
            None => {
                let ghost s = self@;
                assert(!s.contains((block_digest@, voter@, signature@))) by {
                    if s.contains((block_digest@, voter@, signature@)) {
                        let k = choose|k: int|
                            0 <= k < s.len() && s[k] == (block_digest@, voter@, signature@);
                        assert(s[k].0 == block_digest@ && s[k].1 == voter@);
                    }
                }
                let b = Ballot { digest: *block_digest, voter, signature };
                self.ballots.push(b);
                assert(self@ =~= s.push(b@));
                assert forall|i: int, j: int| 0 <= i < j < self@.len() implies (
                #[trigger] self@[i].0,
                self@[i].1,
            ) != (#[trigger] self@[j].0, self@[j].1) by {
                    if j == s.len() {
                        assert(self@[i] == s[i]);
                    }
                }
                Ok(())
            },
        }
    }

    /// Drops every vote for `block_digest`: the block was finalized, or its
    /// branch was abandoned.
    pub fn discard(&mut self, block_digest: &HashValue)
        requires
            old(self).wf(),
        ensures
            final(self).wf(),
            final(self).validators() == old(self).validators(),
            forall|b: (Seq<u8>, Seq<u8>, Seq<u8>)| #[trigger]
                final(self)@.contains(b) <==> old(self)@.contains(b) && b.0 != block_digest@,
    {
        let ghost s = self@;
        let mut kept: Vec<Ballot> = Vec::new();
        let ghost mut from: Seq<int> = Seq::empty();
        let mut i: usize = 0;
        while i < self.ballots.len()
            invariant
                0 <= i <= s.len(),
                self@ == s,
                one_per_voter(s),
                from.len() == kept@.len(),
                forall|k: int|
                    0 <= k < from.len() ==> 0 <= #[trigger] from[k] < i && s[from[k]]
                        == kept@[k]@ && s[from[k]].0 != block_digest@,
                forall|a: int, b: int| 0 <= a < b < from.len() ==> #[trigger] from[a] < #[trigger] from[b],
                forall|k: int|
                    0 <= k < i && s[k].0 != block_digest@ ==> exists|m: int|
                        0 <= m < from.len() && #[trigger] from[m] == k,
            decreases s.len() - i,
        {
            let ghost before = from;
            if !self.ballots[i].digest.same(block_digest) {
                kept.push(self.ballots[i]);
                proof {
                    from = from.push(i as int);
                    assert(from[from.len() - 1] == i as int);
                }
            }
            assert forall|k: int| 0 <= k < i + 1 && s[k].0 != block_digest@ implies exists|m: int|
                0 <= m < from.len() && #[trigger] from[m] == k by {
                if k < i {
                    let m = choose|m: int| 0 <= m < before.len() && #[trigger] before[m] == k;
                    assert(from[m] == k);
                } else {
                    assert(from[from.len() - 1] == k);
                }
            }
            i = i + 1;
        }
        self.ballots = kept;
        assert forall|a: int, b: int| 0 <= a < b < self@.len() implies (
        #[trigger] self@[a].0,
        self@[a].1,
    ) != (#[trigger] self@[b].0, self@[b].1) by {
            assert(from[a] < from[b]);
            assert(self@[a] == s[from[a]]);
            assert(self@[b] == s[from[b]]);
        }
        assert forall|a: int| 0 <= a < self@.len() implies is_member(
            self.validators@,
            #[trigger] self@[a].1,
        ) by {
            assert(self@[a] == s[from[a]]);
        }
        assert forall|b: (Seq<u8>, Seq<u8>, Seq<u8>)| #[trigger]
            self@.contains(b) <==> s.contains(b) && b.0 != block_digest@ by {
            if self@.contains(b) {
                let k = choose|k: int| 0 <= k < self@.len() && self@[k] == b;
                assert(s[from[k]] == b);
            }
            if s.contains(b) && b.0 != block_digest@ {
                let k = choose|k: int| 0 <= k < s.len() && s[k] == b;
                let m = choose|m: int| 0 <= m < from.len() && #[trigger] from[m] == k;
                assert(self@[m] == b);
            }
        }
    }

    /// The votes recorded for `block_digest`, in ascending order of identity.
    fn collect(&self, block_digest: &HashValue) -> (r: VoteMap)
        requires
            self.wf(),
        ensures
            r.wf(),
            forall|p: (Seq<u8>, Seq<u8>)| #[trigger]
                r@.contains(p) <==> self@.contains((block_digest@, p.0, p.1)),
    {
        let ghost s = self@;
        let mut m = VoteMap::new();
        let mut i: usize = 0;
        while i < self.ballots.len()
            invariant
                0 <= i <= s.len(),
                s == self@,
                one_per_voter(s),
                m.wf(),
                forall|p: (Seq<u8>, Seq<u8>)| #[trigger]
                    m@.contains(p) <==> s.take(i as int).contains((block_digest@, p.0, p.1)),
            decreases s.len() - i,
        {
            let ghost t = s.take(i as int + 1);
            assert(t =~= s.take(i as int).push(s[i as int]));
            if self.ballots[i].digest.same(block_digest) {
                let ghost old_m = m@;
                let b = self.ballots[i];
                m.insert(b.voter, b.signature);
                assert forall|p: (Seq<u8>, Seq<u8>)| #[trigger]
                    m@.contains(p) <==> t.contains((block_digest@, p.0, p.1)) by {
                    if old_m.contains(p) && p.0 == b.voter@ {
                        let k = choose|k: int|
                            0 <= k < i && s.take(i as int)[k] == (block_digest@, p.0, p.1);
                        assert((s[k].0, s[k].1) != (s[i as int].0, s[i as int].1));
                    }
                    if t.contains((block_digest@, p.0, p.1)) {
                        let k = choose|k: int|
                            0 <= k < t.len() && t[k] == (block_digest@, p.0, p.1);
                        if k < i {
                            assert(s.take(i as int)[k] == (block_digest@, p.0, p.1));
                            if p.0 == b.voter@ {
                                assert((s[k].0, s[k].1) != (s[i as int].0, s[i as int].1));
                            }
                        }
                    }
                    if s.take(i as int).contains((block_digest@, p.0, p.1)) {
                        let k = choose|k: int|
                            0 <= k < i && s.take(i as int)[k] == (block_digest@, p.0, p.1);
                        assert(t[k] == (block_digest@, p.0, p.1));
                    }
                    if p == (b.voter@, b.signature@) {
                        assert(t[i as int] == (block_digest@, p.0, p.1));
                    }
                }
            } else {
                assert forall|p: (Seq<u8>, Seq<u8>)| #[trigger]
                    m@.contains(p) <==> t.contains((block_digest@, p.0, p.1)) by {
                    if t.contains((block_digest@, p.0, p.1)) {
                        let k = choose|k: int|
                            0 <= k < t.len() && t[k] == (block_digest@, p.0, p.1);
                        assert(k != i);
                        assert(s.take(i as int)[k] == (block_digest@, p.0, p.1));
                    }
                    if s.take(i as int).contains((block_digest@, p.0, p.1)) {
                        let k = choose|k: int|
                            0 <= k < i && s.take(i as int)[k] == (block_digest@, p.0, p.1);
                        assert(t[k] == (block_digest@, p.0, p.1));
                    }
                }
            }
            i = i + 1;
        }
        assert(s.take(s.len() as int) =~= s);
        m
    }

    /// Hands out the votes for `block_digest` in ascending order of
    /// identity once their voters hold more than two thirds of the voting
    /// power, and drops them from the store. Before that the store is left
    /// as it is.
    pub fn finalize(&mut self, block_digest: &HashValue) -> (r: Result<VoteMap, VoteError>)
        requires
            old(self).wf(),
        ensures
            final(self).wf(),
            final(self).validators() == old(self).validators(),
            match r {
                Ok(m) => {
                    &&& quorum_reached(old(self).validators(), old(self)@, block_digest@)
                    &&& m.wf()
                    &&& forall|p: (Seq<u8>, Seq<u8>)| #[trigger]
                        m@.contains(p) <==> old(self)@.contains((block_digest@, p.0, p.1))
                    &&& forall|i: int|
                        0 <= i < m@.len() ==> is_member(old(self).validators(), #[trigger] m@[i].0)
                    &&& forall|b: (Seq<u8>, Seq<u8>, Seq<u8>)| #[trigger]
                        final(self)@.contains(b) <==> old(self)@.contains(b) && b.0
                            != block_digest@
                },
                Err(e) => {
                    &&& e == VoteError::QuorumNotReached
                    &&& !quorum_reached(old(self).validators(), old(self)@, block_digest@)
                    &&& final(self)@ == old(self)@
                },
            },
    {
        let m = self.collect(block_digest);
        assert forall|i: int| 0 <= i < m@.len() implies is_member(
            self.validators@,
            #[trigger] m@[i].0,
        ) by {
            assert(m@.contains(m@[i]));
            let k = choose|k: int| 0 <= k < self@.len() && self@[k] == (block_digest@, m@[i].0, m@[i].1);
            assert(is_member(self.validators@, self@[k].1));
        }
        let power = self.validators.voted_power(&m);
        let total = self.validators.total_voting_power();
        proof {
            let s = self@;
            let f = |a: Seq<u8>| has_voter(m@, a);
            let g = |a: Seq<u8>| has_ballot(s, block_digest@, a);
            assert forall|a: Seq<u8>| #[trigger] has_voter(m@, a) == has_ballot(s, block_digest@, a) by {
                if has_voter(m@, a) {
                    let i = choose|i: int| 0 <= i < m@.len() && #[trigger] m@[i].0 == a;
                    assert(m@.contains(m@[i]));
                    assert(s.contains((block_digest@, a, m@[i].1)));
                    let k = choose|k: int| 0 <= k < s.len() && s[k] == (block_digest@, a, m@[i].1);
                    assert(s[k].0 == block_digest@ && s[k].1 == a);
                }
                if has_ballot(s, block_digest@, a) {
                    let k = choose|k: int| 0 <= k < s.len() && #[trigger] s[k].0 == block_digest@ && s[k].1 == a;
                    assert(s.contains((block_digest@, a, s[k].2)));
                    assert(m@.contains((a, s[k].2)));
                    let i = choose|i: int| 0 <= i < m@.len() && m@[i] == (a, s[k].2);
                    assert(m@[i].0 == a);
                }
            }
            assert(f =~= g) by {
                assert forall|a: Seq<u8>| #[trigger] f(a) == g(a) by {
                    assert(has_voter(m@, a) == has_ballot(s, block_digest@, a));
                }
            }
        }
        if 3 * (power as u128) > 2 * (total as u128) {
            self.discard(block_digest);
            Ok(m)
        } else {
            Err(VoteError::QuorumNotReached)
        }
    }
}

/// Votes that arrive in either order leave the store holding the same
/// ballots.
pub proof fn lemma_arrival_order(
    s: Seq<(Seq<u8>, Seq<u8>, Seq<u8>)>,
    b1: (Seq<u8>, Seq<u8>, Seq<u8>),
    b2: (Seq<u8>, Seq<u8>, Seq<u8>),
)
    ensures
        forall|b: (Seq<u8>, Seq<u8>, Seq<u8>)|
            s.push(b1).push(b2).contains(b) <==> s.push(b2).push(b1).contains(b),
{
    let (x, y) = (s.push(b1).push(b2), s.push(b2).push(b1));
    assert forall|b: (Seq<u8>, Seq<u8>, Seq<u8>)| x.contains(b) <==> y.contains(b) by {
        if x.contains(b) {
            let k = choose|k: int| 0 <= k < x.len() && x[k] == b;
            if k < s.len() {
                assert(y[k] == b);
            } else if k == s.len() {
                assert(y[k + 1] == b);
            } else {
                assert(y[k - 1] == b);
            }
        }
        if y.contains(b) {
            let k = choose|k: int| 0 <= k < y.len() && y[k] == b;
            if k < s.len() {
                assert(x[k] == b);
            } else if k == s.len() {
                assert(x[k + 1] == b);
            } else {
                assert(x[k - 1] == b);
            }
        }
    }
}

/// Two stores that hold the same votes for `digest`, whatever order they
/// arrived in, finalize them into the same sequence, and metadata built on
/// either encodes to the same bytes.
pub proof fn lemma_finalize_deterministic(
    s1: Seq<(Seq<u8>, Seq<u8>, Seq<u8>)>,
    s2: Seq<(Seq<u8>, Seq<u8>, Seq<u8>)>,
    digest: Seq<u8>,
    m1: Seq<(Seq<u8>, Seq<u8>)>,
    m2: Seq<(Seq<u8>, Seq<u8>)>,
    id: Seq<u8>,
    timestamp_usec: u64,
    proposer: Seq<u8>,
)
    requires
        forall|b: (Seq<u8>, Seq<u8>, Seq<u8>)|
            b.0 == digest ==> (s1.contains(b) <==> s2.contains(b)),
        sorted_by_voter(m1),
        sorted_by_voter(m2),
        forall|p: (Seq<u8>, Seq<u8>)| m1.contains(p) <==> s1.contains((digest, p.0, p.1)),
        forall|p: (Seq<u8>, Seq<u8>)| m2.contains(p) <==> s2.contains((digest, p.0, p.1)),
    ensures
        m1 == m2,
        encoding((id, timestamp_usec, m1, proposer)) == encoding(
            (id, timestamp_usec, m2, proposer),
        ),
{
    assert forall|p: (Seq<u8>, Seq<u8>)| m1.contains(p) <==> m2.contains(p) by {
        assert(s1.contains((digest, p.0, p.1)) <==> s2.contains((digest, p.0, p.1)));
    }
    lemma_same_votes_same_order(m1, m2);
}

/// Once a vote of `voter` for `digest` is recorded, a different signature of
/// the same voter for that digest meets a recorded ballot that it does not
/// match (so `record_vote` refuses it as a duplicate), and the vote set
/// finalized from the store holds the first signature, not the second.
pub proof fn lemma_conflicting_vote(
    s: Seq<(Seq<u8>, Seq<u8>, Seq<u8>)>,
    digest: Seq<u8>,
    voter: Seq<u8>,
    first: Seq<u8>,
    second: Seq<u8>,
    m: Seq<(Seq<u8>, Seq<u8>)>,
)
    requires
        one_per_voter(s),
        !has_ballot(s, digest, voter),
        first != second,
        forall|p: (Seq<u8>, Seq<u8>)|
            m.contains(p) <==> s.push((digest, voter, first)).contains((digest, p.0, p.1)),
    ensures
        has_ballot(s.push((digest, voter, first)), digest, voter),
        !s.push((digest, voter, first)).contains((digest, voter, second)),
        m.contains((voter, first)),
        !m.contains((voter, second)),
{
    let t = s.push((digest, voter, first));
    assert(t[s.len() as int] == (digest, voter, first));
    assert(t[s.len() as int].0 == digest && t[s.len() as int].1 == voter);
    assert(t.contains((digest, voter, first)));
    if t.contains((digest, voter, second)) {
        let k = choose|k: int| 0 <= k < t.len() && t[k] == (digest, voter, second);
        if k < s.len() {
            assert(s[k] == t[k]);
            assert(s[k].0 == digest && s[k].1 == voter);
        }
    }
}

} // verus!
