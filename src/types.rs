//! Fixed-length values of the consensus layer: block digests, validator
//! identities and signatures, and the order of identities.
use vstd::prelude::*;
use core::cmp::Ordering;

verus! {

pub const DIGEST_LEN: usize = 32;

pub const IDENTITY_LEN: usize = 32;

pub const SIGNATURE_LEN: usize = 64;

/// A block digest.
#[derive(Clone, Copy, Debug)]
pub struct HashValue {
    pub bytes: [u8; DIGEST_LEN],
}

/// A validator identity.
#[derive(Clone, Copy, Debug)]
pub struct AccountAddress {
    pub bytes: [u8; IDENTITY_LEN],
}

/// A secp256k1 signature in its compact form.
#[derive(Clone, Copy, Debug)]
pub struct Secp256k1Signature {
    pub bytes: [u8; SIGNATURE_LEN],
}

impl View for HashValue {
    type V = Seq<u8>;

    open spec fn view(&self) -> Seq<u8> {
        self.bytes@
    }
}

impl View for AccountAddress {
    type V = Seq<u8>;

    open spec fn view(&self) -> Seq<u8> {
        self.bytes@
    }
}

impl View for Secp256k1Signature {
    type V = Seq<u8>;

    open spec fn view(&self) -> Seq<u8> {
        self.bytes@
    }
}

impl HashValue {
    pub fn new(bytes: [u8; DIGEST_LEN]) -> (r: Self)
        ensures
            r@ == bytes@,
    {
        HashValue { bytes }
    }

    pub fn to_vec(&self) -> (r: Vec<u8>)
        ensures
            r@ == self@,
    {
        let mut v: Vec<u8> = Vec::new();
        let mut i: usize = 0;
        while i < DIGEST_LEN
            invariant
                0 <= i <= DIGEST_LEN,
                v@ == self@.take(i as int),
            decreases DIGEST_LEN - i,
        {
            v.push(self.bytes[i]);
            assert(self@.take(i as int + 1) =~= self@.take(i as int).push(self@[i as int]));
            i = i + 1;
        }
        assert(self@.take(DIGEST_LEN as int) =~= self@);
        v
    }

    pub fn same(&self, other: &HashValue) -> (r: bool)
        ensures
            r == (self@ == other@),
    {
        bytes_equal(&self.bytes, &other.bytes)
    }
}

impl AccountAddress {
    pub fn new(bytes: [u8; IDENTITY_LEN]) -> (r: Self)
        ensures
            r@ == bytes@,
    {
        AccountAddress { bytes }
    }

    /// Compares two identities in their order.
    pub fn compare(&self, other: &AccountAddress) -> (r: Ordering)
        ensures
            r == Ordering::Less <==> lex_lt(self@, other@),
            r == Ordering::Equal <==> self@ == other@,
            r == Ordering::Greater <==> lex_lt(other@, self@),
    {
        compare_bytes(&self.bytes, &other.bytes)
    }

    /// Whether `self` comes before `other` in the order of identities.
    pub fn precedes(&self, other: &AccountAddress) -> (r: bool)
        ensures
            r == lex_lt(self@, other@),
    {
        match compare_bytes(&self.bytes, &other.bytes) {
            Ordering::Less => true,
            _ => false,
        }
    }

    pub fn same(&self, other: &AccountAddress) -> (r: bool)
        ensures
            r == (self@ == other@),
    {
        bytes_equal(&self.bytes, &other.bytes)
    }
}

impl Secp256k1Signature {
    pub fn new(bytes: [u8; SIGNATURE_LEN]) -> (r: Self)
        ensures
            r@ == bytes@,
    {
        Secp256k1Signature { bytes }
    }

    pub fn same(&self, other: &Secp256k1Signature) -> (r: bool)
        ensures
            r == (self@ == other@),
    {
        bytes_equal(&self.bytes, &other.bytes)
    }
}

/// Lexicographic order on byte strings of one length: at the first position
/// where they differ, `a` holds the smaller byte.
pub open spec fn lex_lt(a: Seq<u8>, b: Seq<u8>) -> bool {
    exists|i: int| lex_lt_at(a, b, i)
}

pub open spec fn lex_lt_at(a: Seq<u8>, b: Seq<u8>, i: int) -> bool {
    &&& 0 <= i < a.len()
    &&& i < b.len()
    &&& forall|k: int| 0 <= k < i ==> a[k] == b[k]
    &&& a[i] < b[i]
}

pub proof fn lemma_lex_transitive(a: Seq<u8>, b: Seq<u8>, c: Seq<u8>)
    requires
        lex_lt(a, b),
        lex_lt(b, c),
    ensures
        lex_lt(a, c),
{
    let i = choose|i: int| lex_lt_at(a, b, i);
    let j = choose|j: int| lex_lt_at(b, c, j);
    if i <= j {
        assert(lex_lt_at(a, c, i));
    } else {
        assert(lex_lt_at(a, c, j));
    }
}

pub proof fn lemma_lex_asymmetric(a: Seq<u8>, b: Seq<u8>)
    requires
        lex_lt(a, b),
    ensures
        !lex_lt(b, a),
        a != b,
{
    let i = choose|i: int| lex_lt_at(a, b, i);
    if lex_lt(b, a) {
        let j = choose|j: int| lex_lt_at(b, a, j);
        if i < j {
            assert(b[i] == a[i]);
        } else if j < i {
            assert(a[j] == b[j]);
        }
    }
}

fn compare_bytes<const N: usize>(a: &[u8; N], b: &[u8; N]) -> (r: Ordering)
    ensures
        r == Ordering::Less <==> lex_lt(a@, b@),
        r == Ordering::Equal <==> a@ == b@,
        r == Ordering::Greater <==> lex_lt(b@, a@),
{
    let mut i: usize = 0;
    while i < N
        invariant
            0 <= i <= N,
            a@.len() == N,
            b@.len() == N,
            forall|k: int| 0 <= k < i ==> a@[k] == b@[k],
        decreases N - i,
    {
        if a[i] < b[i] {
            assert(lex_lt_at(a@, b@, i as int));
            proof {
                lemma_lex_asymmetric(a@, b@);
            }
            return Ordering::Less;
        }
        if a[i] > b[i] {
            assert(lex_lt_at(b@, a@, i as int));
            proof {
                lemma_lex_asymmetric(b@, a@);
            }
            return Ordering::Greater;
        }
        i = i + 1;
    }
    assert(a@ =~= b@);
    assert(!lex_lt(a@, b@)) by {
        if lex_lt(a@, b@) {
            let j = choose|j: int| lex_lt_at(a@, b@, j);
        }
    }
    Ordering::Equal
}

fn bytes_equal<const N: usize>(a: &[u8; N], b: &[u8; N]) -> (r: bool)
    ensures
        r == (a@ == b@),
{
    match compare_bytes(a, b) {
        Ordering::Equal => true,
        _ => false,
    }
}

} // verus!
