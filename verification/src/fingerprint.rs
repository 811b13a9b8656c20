use vstd::prelude::*;

use sha2::Digest;

verus! {

/// The digest of a content string. Two calls on equal contents give equal
/// digests; which bytes they are is the hash function's business alone.
pub uninterp spec fn fingerprint_of(content: Seq<char>) -> Seq<u8>;

/// Relies on sha2::Sha256: the digest is 32 bytes and depends on the input alone.
#[verifier::external_body]
fn sha256_digest(content: &str) -> (r: Vec<u8>)
    ensures
        r@ == fingerprint_of(content@),
        r@.len() == 32,
{
    sha2::Sha256::digest(content.as_bytes()).to_vec()
}

/// Fixed-size digest of a pad's content, used for cheap change comparison.
pub struct Fingerprint {
    bytes: Vec<u8>,
}

impl View for Fingerprint {
    type V = Seq<u8>;

    closed spec fn view(&self) -> Seq<u8> {
        self.bytes@
    }
}

impl Clone for Fingerprint {
    fn clone(&self) -> (r: Self)
        ensures
            r@ == self@,
    {
        let mut bytes: Vec<u8> = Vec::new();
        let mut i: usize = 0;
        while i < self.bytes.len()
            invariant
                0 <= i <= self.bytes@.len(),
                bytes@ == self.bytes@.subrange(0, i as int),
            decreases self.bytes@.len() - i,
        {
            bytes.push(self.bytes[i]);
            i += 1;
        }
        proof {
            assert(bytes@ =~= self.bytes@);
        }
        Fingerprint { bytes }
    }
}

impl Fingerprint {
    /// The fingerprint of `content`.
    pub fn of(content: &str) -> (r: Self)
        ensures
            r@ == fingerprint_of(content@),
    {
        Fingerprint { bytes: sha256_digest(content) }
    }

    /// Whether two fingerprints hold the same bytes.
    pub fn same(&self, other: &Self) -> (r: bool)
        ensures
            r == (self@ == other@),
    {
        if self.bytes.len() != other.bytes.len() {
            return false;
        }
        let mut i: usize = 0;
        while i < self.bytes.len()
            invariant
                0 <= i <= self.bytes@.len(),
                self.bytes@.len() == other.bytes@.len(),
                forall|j: int| 0 <= j < i ==> self.bytes@[j] == other.bytes@[j],
            decreases self.bytes@.len() - i,
        {
            if self.bytes[i] != other.bytes[i] {
                return false;
            }
            i += 1;
        }
        proof {
            assert(self.bytes@ =~= other.bytes@);
        }
        true
    }

    /// The digest's bytes.
    pub fn bytes(&self) -> (r: &Vec<u8>)
        ensures
            r@ == self@,
    {
        &self.bytes
    }
}

/// The fingerprint is deterministic: equal contents always give equal digests.
/// (That distinct contents give distinct digests holds only with overwhelming
/// probability of the underlying hash, and is not a statement proof can carry.)
pub proof fn lemma_fingerprint_deterministic(a: Seq<char>, b: Seq<char>)
    requires
        a == b,
    ensures
        fingerprint_of(a) == fingerprint_of(b),
{
}

} // verus!
