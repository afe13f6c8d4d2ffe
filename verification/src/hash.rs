//! SHA-256.

use vstd::prelude::*;

use crate::digits::{hex, to_hex};

verus! {

/// A hasher that data is fed to piece by piece.
#[verifier::external_type_specification]
#[verifier::external_body]
pub struct ExSha256(sha2::Sha256);

/// What has been fed to a hasher so far.
pub uninterp spec fn fed(hasher: sha2::Sha256) -> Seq<u8>;

/// The SHA-256 digest of data, as `sha2::Sha256` computes it.
pub uninterp spec fn sha256(data: Seq<u8>) -> Seq<u8>;

/// `sha2::Digest::new`: a hasher that nothing has been fed to.
#[verifier::external_body]
pub(crate) fn new_hasher() -> (r: sha2::Sha256)
    ensures
        fed(r) == Seq::<u8>::empty(),
{
    sha2::Digest::new()
}

/// `sha2::Digest::update`: feeds data to a hasher, behind what it was fed before.
#[verifier::external_body]
pub(crate) fn feed_hasher(hasher: &mut sha2::Sha256, data: &[u8])
    ensures
        fed(*final(hasher)) == fed(*old(hasher)) + data@,
{
    sha2::Digest::update(hasher, data);
}

/// `sha2::Digest::finalize`: the digest of all that was fed to the hasher.
#[verifier::external_body]
pub(crate) fn finish_hasher(hasher: sha2::Sha256) -> (r: Vec<u8>)
    ensures
        r@ == sha256(fed(hasher)),
{
    sha2::Digest::finalize(hasher).to_vec()
}

/// A SHA-256 digest in the making, and how much data there is.
pub struct Checksum {
    hasher: sha2::Sha256,
    count: u64,
}

impl Checksum {
    /// The data so far.
    pub closed spec fn data(&self) -> Seq<u8> {
        fed(self.hasher)
    }

    #[verifier::type_invariant]
    spec fn counts_all(self) -> bool {
        self.count == fed(self.hasher).len()
    }

    /// The checksum of no data.
    pub fn new() -> (r: Self)
        ensures
            r.data() == Seq::<u8>::empty(),
    {
        Checksum { hasher: new_hasher(), count: 0 }
    }

    /// Adds data.
    pub fn feed(&mut self, data: &[u8])
        requires
            old(self).data().len() + data@.len() <= u64::MAX,
        ensures
            final(self).data() == old(self).data() + data@,
    {
        proof {
            use_type_invariant(&*self);
        }
        let mut before = Checksum::new();
        std::mem::swap(self, &mut before);
        let count: u64 = before.count + data.len() as u64;
        let mut hasher = before.hasher;
        feed_hasher(&mut hasher, data);
        *self = Checksum { hasher, count };
    }

    /// How many bytes were added.
    pub fn bytes(&self) -> (r: u64)
        ensures
            r == self.data().len(),
    {
        proof {
            use_type_invariant(self);
        }
        self.count
    }

    /// The digest of the data, in lower-case hexadecimal.
    pub fn finish(self) -> (r: String)
        ensures
            r@ == hex(sha256(self.data())),
    {
        let digest = finish_hasher(self.hasher);
        to_hex(&digest)
    }
}

/// The digest of data, in lower-case hexadecimal.
pub fn sha256_hex(data: &[u8]) -> (r: String)
    ensures
        r@ == hex(sha256(data@)),
{
    let mut hasher = new_hasher();
    feed_hasher(&mut hasher, data);
    assert(fed(hasher) =~= data@);
    let digest = finish_hasher(hasher);
    to_hex(&digest)
}

} // verus!
