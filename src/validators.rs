//! A snapshot of the validator set as of one block: identities with their
//! voting power.
use vstd::prelude::*;
use crate::types::AccountAddress;
use crate::vote_map::{has_voter, VoteMap};

verus! {

#[derive(Clone, Copy, Debug)]
pub struct ValidatorInfo {
    pub address: AccountAddress,
    pub voting_power: u64,
}

impl View for ValidatorInfo {
    type V = (Seq<u8>, u64);

    open spec fn view(&self) -> (Seq<u8>, u64) {
        (self.address@, self.voting_power)
    }
}

/// The validators active as of one block, each address once, with a total
/// voting power that fits in `u64`.
pub struct ValidatorSet {
    members: Vec<ValidatorInfo>,
}

pub open spec fn total_power(s: Seq<(Seq<u8>, u64)>) -> nat
    decreases s.len(),
{
    if s.len() == 0 {
        0
    } else {
        total_power(s.drop_last()) + s.last().1 as nat
    }
}

/// The voting power of the members whose address satisfies `voted`.
pub open spec fn power_where(s: Seq<(Seq<u8>, u64)>, voted: spec_fn(Seq<u8>) -> bool) -> nat
    decreases s.len(),
{
    if s.len() == 0 {
        0
    } else {
        power_where(s.drop_last(), voted) + if voted(s.last().0) {
            s.last().1 as nat
        } else {
            0
        }
    }
}

pub open spec fn distinct_addresses(s: Seq<(Seq<u8>, u64)>) -> bool {
    forall|i: int, j: int| 0 <= i < j < s.len() ==> #[trigger] s[i].0 != #[trigger] s[j].0
}

pub open spec fn is_member(s: Seq<(Seq<u8>, u64)>, a: Seq<u8>) -> bool {
    exists|i: int| 0 <= i < s.len() && #[trigger] s[i].0 == a
}

/// Strictly more than two thirds of the total voting power.
pub open spec fn is_quorum(power: nat, total: nat) -> bool {
    3 * power > 2 * total
}

pub proof fn lemma_power_bounded(s: Seq<(Seq<u8>, u64)>, voted: spec_fn(Seq<u8>) -> bool)
    ensures
        power_where(s, voted) <= total_power(s),
    decreases s.len(),
{
    if s.len() > 0 {
        lemma_power_bounded(s.drop_last(), voted);
    }
}

pub proof fn lemma_total_prefix(s: Seq<(Seq<u8>, u64)>, k: int)
    requires
        0 <= k <= s.len(),
    ensures
        total_power(s.take(k)) <= total_power(s),
    decreases s.len(),
{
    if k < s.len() {
        assert(s.drop_last().take(k) =~= s.take(k));
        lemma_total_prefix(s.drop_last(), k);
    } else {
        assert(s.take(k) =~= s);
    }
}

impl View for ValidatorSet {
    type V = Seq<(Seq<u8>, u64)>;

    closed spec fn view(&self) -> Seq<(Seq<u8>, u64)> {
        self.members@.map_values(|m: ValidatorInfo| m@)
    }
}

impl ValidatorSet {
    pub open spec fn wf(&self) -> bool {
        &&& distinct_addresses(self@)
        &&& total_power(self@) <= u64::MAX
    }

    /// The set of `members`, or `None` where an address occurs twice or the
    /// total voting power exceeds `u64`.
    pub fn new(members: Vec<ValidatorInfo>) -> (r: Option<Self>)
        ensures
            match r {
                Some(v) => v@ == members@.map_values(|m: ValidatorInfo| m@) && v.wf(),
                None => !distinct_addresses(members@.map_values(|m: ValidatorInfo| m@))
                    || total_power(members@.map_values(|m: ValidatorInfo| m@)) > u64::MAX,
            },
    {
        let ghost s = members@.map_values(|m: ValidatorInfo| m@);
        let mut total: u64 = 0;
        let mut i: usize = 0;
        while i < members.len()
            invariant
                0 <= i <= members@.len(),
                s == members@.map_values(|m: ValidatorInfo| m@),
                distinct_addresses(s.take(i as int)),
                total as nat == total_power(s.take(i as int)),
            decreases members@.len() - i,
        {
            let mut j: usize = 0;
            while j < i
                invariant
                    0 <= j <= i < members@.len(),
                    s == members@.map_values(|m: ValidatorInfo| m@),
                    forall|k: int| 0 <= k < j ==> s[k].0 != s[i as int].0,
                decreases i - j,
            {
                if members[j].address.same(&members[i].address) {
                    assert(s[j as int].0 == s[i as int].0);
                    return None;
                }
                j = j + 1;
            }
            let ghost t = s.take(i as int + 1);
            assert(t.drop_last() =~= s.take(i as int));
            assert(distinct_addresses(t)) by {
                assert forall|a: int, b: int| 0 <= a < b < t.len() implies #[trigger] t[a].0
                    != #[trigger] t[b].0 by {
                    if b < i {
                        assert(s.take(i as int)[a] == t[a]);
                        assert(s.take(i as int)[b] == t[b]);
                    }
                }
            }
            if members[i].voting_power > u64::MAX - total {
                proof {
                    lemma_total_prefix(s, i as int + 1);
                }
                return None;
            }
            total = total + members[i].voting_power;
            i = i + 1;
        }
        assert(s.take(members@.len() as int) =~= s);
        let r = ValidatorSet { members };
        Some(r)
    }

    pub fn len(&self) -> (r: usize)
        ensures
            r == self@.len(),
    {
        self.members.len()
    }

    /// Whether `address` is a member.
    pub fn contains(&self, address: &AccountAddress) -> (r: bool)
        ensures
            r == is_member(self@, address@),
    {
        let mut i: usize = 0;
        while i < self.members.len()
            invariant
                0 <= i <= self@.len(),
                forall|k: int| 0 <= k < i ==> #[trigger] self@[k].0 != address@,
            decreases self@.len() - i,
        {
            if self.members[i].address.same(address) {
                assert(self@[i as int].0 == address@);
                return true;
            }
            i = i + 1;
        }
        false
    }

    pub fn total_voting_power(&self) -> (r: u64)
        requires
            self.wf(),
        ensures
            r as nat == total_power(self@),
    {
        let mut total: u64 = 0;
        let mut i: usize = 0;
        while i < self.members.len()
            invariant
                0 <= i <= self@.len(),
                self.wf(),
                total as nat == total_power(self@.take(i as int)),
            decreases self@.len() - i,
        {
            proof {
                assert(self@.take(i as int + 1).drop_last() =~= self@.take(i as int));
                lemma_total_prefix(self@, i as int + 1);
            }
            total = total + self.members[i].voting_power;
            i = i + 1;
        }
        assert(self@.take(self@.len() as int) =~= self@);
        total
    }

    /// The voting power of the members that have an entry in `votes`.
    pub fn voted_power(&self, votes: &VoteMap) -> (r: u64)
        requires
            self.wf(),
        ensures
            r as nat == power_where(self@, |a: Seq<u8>| has_voter(votes@, a)),
    {
        let ghost f = |a: Seq<u8>| has_voter(votes@, a);
        let mut power: u64 = 0;
        let mut i: usize = 0;
        while i < self.members.len()
            invariant
                0 <= i <= self@.len(),
                self.wf(),
                f == (|a: Seq<u8>| has_voter(votes@, a)),
                power as nat == power_where(self@.take(i as int), f),
            decreases self@.len() - i,
        {
            proof {
                assert(self@.take(i as int + 1).drop_last() =~= self@.take(i as int));
                lemma_power_bounded(self@.take(i as int + 1), f);
                lemma_total_prefix(self@, i as int + 1);
            }
            if votes.contains_voter(&self.members[i].address) {
                power = power + self.members[i].voting_power;
            }
            i = i + 1;
        }
        assert(self@.take(self@.len() as int) =~= self@);
        power
    }
}

} // verus!
