//! The ordered map from validator identity to signature that a finalized
//! vote set is kept in.
use vstd::prelude::*;
use core::cmp::Ordering;
use crate::types::{
    lemma_lex_asymmetric, lemma_lex_transitive, lex_lt, AccountAddress, Secp256k1Signature,
    IDENTITY_LEN, SIGNATURE_LEN,
};

verus! {

/// One validator's endorsement of a block.
#[derive(Clone, Copy, Debug)]
pub struct VoteEntry {
    pub voter: AccountAddress,
    pub signature: Secp256k1Signature,
}

impl View for VoteEntry {
    type V = (Seq<u8>, Seq<u8>);

    open spec fn view(&self) -> (Seq<u8>, Seq<u8>) {
        (self.voter@, self.signature@)
    }
}

/// Pairs in strictly ascending order of their identity: the identities are
/// distinct, and the order is a function of them alone.
pub open spec fn sorted_by_voter(s: Seq<(Seq<u8>, Seq<u8>)>) -> bool {
    forall|i: int, j: int| 0 <= i < j < s.len() ==> lex_lt(#[trigger] s[i].0, #[trigger] s[j].0)
}

/// Whether some pair of `s` has the identity `voter`.
pub open spec fn has_voter(s: Seq<(Seq<u8>, Seq<u8>)>, voter: Seq<u8>) -> bool {
    exists|i: int| 0 <= i < s.len() && #[trigger] s[i].0 == voter
}

/// Identities of 32 bytes and signatures of 64 bytes.
pub open spec fn well_sized(s: Seq<(Seq<u8>, Seq<u8>)>) -> bool {
    forall|i: int|
        0 <= i < s.len() ==> (#[trigger] s[i]).0.len() == IDENTITY_LEN && s[i].1.len()
            == SIGNATURE_LEN
}

/// A map from identity to signature, its entries kept in ascending order of
/// identity.
pub struct VoteMap {
    entries: Vec<VoteEntry>,
}

impl View for VoteMap {
    type V = Seq<(Seq<u8>, Seq<u8>)>;

    closed spec fn view(&self) -> Seq<(Seq<u8>, Seq<u8>)> {
        self.entries@.map_values(|e: VoteEntry| e@)
    }
}

impl VoteMap {
    pub open spec fn wf(&self) -> bool {
        &&& sorted_by_voter(self@)
        &&& well_sized(self@)
    }

    pub fn new() -> (r: Self)
        ensures
            r.wf(),
            r@ == Seq::<(Seq<u8>, Seq<u8>)>::empty(),
    {
        let r = VoteMap { entries: Vec::new() };
        assert(r@ =~= Seq::<(Seq<u8>, Seq<u8>)>::empty());
        r
    }

    pub fn len(&self) -> (r: usize)
        ensures
            r == self@.len(),
    {
        self.entries.len()
    }

    /// The entries, in ascending order of identity.
    pub fn entries(&self) -> (r: &[VoteEntry])
        ensures
            r@.map_values(|e: VoteEntry| e@) == self@,
    {
        self.entries.as_slice()
    }

    /// Whether `voter` has an entry.
    pub fn contains_voter(&self, voter: &AccountAddress) -> (r: bool)
        ensures
            r == has_voter(self@, voter@),
    {
        let mut i: usize = 0;
        while i < self.entries.len()
            invariant
                0 <= i <= self@.len(),
                forall|k: int| 0 <= k < i ==> #[trigger] self@[k].0 != voter@,
            decreases self@.len() - i,
        {
            if self.entries[i].voter.same(voter) {
                assert(self@[i as int].0 == voter@);
                return true;
            }
            i = i + 1;
        }
        false
    }

    /// Sets the signature of `voter`, in place of any it had.
    pub fn insert(&mut self, voter: AccountAddress, signature: Secp256k1Signature)
        requires
            old(self).wf(),
        ensures
            final(self).wf(),
            forall|p: (Seq<u8>, Seq<u8>)| #[trigger]
                final(self)@.contains(p) <==> (old(self)@.contains(p) && p.0 != voter@) || p == (
                    voter@,
                    signature@,
                ),
    {
        let e = VoteEntry { voter, signature };
        let ghost s = self@;
        let n = self.entries.len();
        let mut i: usize = 0;
        while i < n && self.entries[i].voter.precedes(&voter)
            invariant
                0 <= i <= n,
                n == s.len(),
                self@ == s,
                forall|k: int| 0 <= k < i ==> lex_lt(#[trigger] s[k].0, voter@),
            decreases n - i,
        {
            i = i + 1;
        }
        let at_equal = i < n && self.entries[i].voter.same(&voter);
        if at_equal {
            self.entries.set(i, e);
            assert(self@ =~= s.update(i as int, e@));
            assert forall|k: int| 0 <= k < s.len() implies #[trigger] self@[k].0 == s[k].0 by {}
            assert(sorted_by_voter(self@));
            assert forall|p: (Seq<u8>, Seq<u8>)| #[trigger]
                self@.contains(p) <==> (s.contains(p) && p.0 != voter@) || p == (voter@, signature@) by {
                if self@.contains(p) {
                    let k = choose|k: int| 0 <= k < self@.len() && self@[k] == p;
                    if k != i {
                        if k < i {
                            lemma_lex_asymmetric(s[k].0, s[i as int].0);
                        } else {
                            lemma_lex_asymmetric(s[i as int].0, s[k].0);
                        }
                        assert(s[k] == p);
                    }
                }
                if s.contains(p) && p.0 != voter@ {
                    let k = choose|k: int| 0 <= k < s.len() && s[k] == p;
                    assert(self@[k] == p);
                }
                if p == (voter@, signature@) {
                    assert(self@[i as int] == p);
                }
            }
        } else {
            if i < n {
                let c = self.entries[i].voter.compare(&voter);
                assert(c == Ordering::Greater);
            }
            self.entries.insert(i, e);
            assert(self@ =~= s.insert(i as int, e@));
            assert forall|k: int| i < k < s.len() implies lex_lt(voter@, #[trigger] s[k].0) by {
                lemma_lex_transitive(voter@, s[i as int].0, s[k].0);
            }
            assert forall|a: int, b: int| 0 <= a < b < self@.len() implies lex_lt(
                #[trigger] self@[a].0,
                #[trigger] self@[b].0,
            ) by {
                if b < i {
                } else if b == i {
                } else if a < i {
                    lemma_lex_transitive(s[a].0, voter@, s[b - 1].0);
                } else if a == i {
                } else {
                    assert(self@[a] == s[a - 1]);
                }
            }
            assert forall|p: (Seq<u8>, Seq<u8>)| #[trigger]
                self@.contains(p) <==> (s.contains(p) && p.0 != voter@) || p == (voter@, signature@) by {
                if self@.contains(p) {
                    let k = choose|k: int| 0 <= k < self@.len() && self@[k] == p;
                    if k < i {
                        lemma_lex_asymmetric(s[k].0, voter@);
                        assert(s[k] == p);
                    } else if k > i {
                        lemma_lex_asymmetric(voter@, s[k - 1].0);
                        assert(s[k - 1] == p);
                    }
                }
                if s.contains(p) && p.0 != voter@ {
                    let k = choose|k: int| 0 <= k < s.len() && s[k] == p;
                    if k < i {
                        assert(self@[k] == p);
                    } else {
                        assert(self@[k + 1] == p);
                    }
                }
                if p == (voter@, signature@) {
                    assert(self@[i as int] == p);
                }
            }
        }
    }
}

/// Two vote sets in ascending order of identity that hold the same pairs are
/// the same sequence: the order of a finalized vote set depends on its
/// contents alone.
pub proof fn lemma_same_votes_same_order(s1: Seq<(Seq<u8>, Seq<u8>)>, s2: Seq<(Seq<u8>, Seq<u8>)>)
    requires
        sorted_by_voter(s1),
        sorted_by_voter(s2),
        forall|p: (Seq<u8>, Seq<u8>)| s1.contains(p) <==> s2.contains(p),
    ensures
        s1 == s2,
    decreases s1.len(),
{
    if s1.len() == 0 {
        if s2.len() > 0 {
            assert(s2.contains(s2[0]));
        }
        assert(s1 =~= s2);
    } else {
        assert(s1.contains(s1[0]));
        let j = choose|j: int| 0 <= j < s2.len() && s2[j] == s1[0];
        if j > 0 {
            assert(s2.contains(s2[0]));
            let k = choose|k: int| 0 <= k < s1.len() && s1[k] == s2[0];
            lemma_lex_asymmetric(s2[0].0, s2[j].0);
            if k > 0 {
                lemma_lex_asymmetric(s1[0].0, s1[k].0);
            }
        }
        let t1 = s1.drop_first();
        let t2 = s2.drop_first();
        assert forall|p: (Seq<u8>, Seq<u8>)| t1.contains(p) <==> t2.contains(p) by {
            if t1.contains(p) {
                let k = choose|k: int| 0 <= k < t1.len() && t1[k] == p;
                assert(s1[k + 1] == p);
                assert(s2.contains(p));
                let m = choose|m: int| 0 <= m < s2.len() && s2[m] == p;
                lemma_lex_asymmetric(s1[0].0, s1[k + 1].0);
                assert(m != 0);
                assert(t2[m - 1] == p);
            }
            if t2.contains(p) {
                let k = choose|k: int| 0 <= k < t2.len() && t2[k] == p;
                assert(s2[k + 1] == p);
                assert(s1.contains(p));
                let m = choose|m: int| 0 <= m < s1.len() && s1[m] == p;
                lemma_lex_asymmetric(s2[0].0, s2[k + 1].0);
                assert(m != 0);
                assert(t1[m - 1] == p);
            }
        }
        assert(sorted_by_voter(t1)) by {
            assert forall|a: int, b: int| 0 <= a < b < t1.len() implies lex_lt(
                #[trigger] t1[a].0,
                #[trigger] t1[b].0,
            ) by {
                assert(lex_lt(s1[a + 1].0, s1[b + 1].0));
            }
        }
        assert(sorted_by_voter(t2)) by {
            assert forall|a: int, b: int| 0 <= a < b < t2.len() implies lex_lt(
                #[trigger] t2[a].0,
                #[trigger] t2[b].0,
            ) by {
                assert(lex_lt(s2[a + 1].0, s2[b + 1].0));
            }
        }
        lemma_same_votes_same_order(t1, t2);
        assert(s1 =~= s2) by {
            assert(s1 =~= seq![s1[0]] + t1);
            assert(s2 =~= seq![s2[0]] + t2);
        }
    }
}

} // verus!
