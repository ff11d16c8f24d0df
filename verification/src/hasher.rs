//! The hashing capability a frame is signed with, and `Sip24`, the hasher that
//! runs SipHash-2-4 under the all-zero key.

use siphasher::sip::SipHasher24;
use std::hash::Hasher;
use vstd::prelude::*;

verus! {

/// An incremental 64-bit hash: bytes go in one after another, a digest comes out.
///
/// The digest depends on the bytes absorbed and on nothing else, however they
/// were split over calls of `update`. An implementation states what it has
/// absorbed and what its digest is, and is verified against the clauses below.
pub trait FrameHasher: Sized {
    /// Every byte absorbed since `init`, in order.
    spec fn absorbed(&self) -> Seq<u8>;

    /// The digest of a byte string.
    spec fn digest(input: Seq<u8>) -> u64;

    /// A hasher that has absorbed nothing.
    fn init() -> (h: Self)
        ensures
            h.absorbed() == Seq::<u8>::empty(),
    ;

    /// Absorbs `bytes` after what is already there.
    fn update(&mut self, bytes: &[u8])
        requires
            old(self).absorbed().len() + bytes@.len() <= usize::MAX,
        ensures
            final(self).absorbed() == old(self).absorbed() + bytes@,
    ;

    /// The digest of everything absorbed so far.
    fn finish(&self) -> (d: u64)
        ensures
            d == Self::digest(self.absorbed()),
    ;

    /// A second hasher that has absorbed the same bytes. A decoder judges the
    /// last byte of a frame without trailer on such a copy, so that a refused
    /// byte leaves its own hasher as it was.
    fn fork(&self) -> (copy: Self)
        ensures
            copy.absorbed() == self.absorbed(),
    ;
}

/// `siphasher::sip::SipHasher24`, carried as a value whose inside is not
/// looked at.
#[verifier::external_type_specification]
#[verifier::external_body]
pub struct ExSipHasher24(SipHasher24);

/// The bytes written to a SipHash-2-4 hasher since it was made.
pub uninterp spec fn sip24_written(h: SipHasher24) -> Seq<u8>;

/// The SipHash-2-4 digest of a byte string under the all-zero key.
pub uninterp spec fn sip24_digest(input: Seq<u8>) -> u64;

/// SipHash-2-4 under the all-zero key. The hasher inside is made by `init` and
/// by nothing else, so it is never keyed otherwise.
pub struct Sip24 {
    inner: SipHasher24,
}

/// `SipHasher24::new`: a hasher keyed with zeros, to which nothing has been written.
#[verifier::external_body]
fn sip24_new() -> (h: SipHasher24)
    ensures
        sip24_written(h) == Seq::<u8>::empty(),
{
    SipHasher24::new()
}

/// `Hasher::write` of `SipHasher24`: appends `bytes` to what has been written.
/// The hasher counts its input in a `usize`, so the total has to fit in one.
#[verifier::external_body]
fn sip24_write(h: &mut SipHasher24, bytes: &[u8])
    requires
        sip24_written(*old(h)).len() + bytes@.len() <= usize::MAX,
    ensures
        sip24_written(*final(h)) == sip24_written(*old(h)) + bytes@,
{
    Hasher::write(h, bytes)
}

/// `Hasher::finish` of `SipHasher24`, on a hasher keyed with zeros: the digest
/// of what has been written, which leaves the hasher as it was.
#[verifier::external_body]
fn sip24_finish(h: &SipHasher24) -> (d: u64)
    ensures
        d == sip24_digest(sip24_written(*h)),
{
    Hasher::finish(h)
}

/// `Clone::clone` of `SipHasher24`, which copies keys and state: the copy has
/// been written what the hasher has.
#[verifier::external_body]
fn sip24_clone(h: &SipHasher24) -> (copy: SipHasher24)
    ensures
        sip24_written(copy) == sip24_written(*h),
{
    h.clone()
}

impl FrameHasher for Sip24 {
    closed spec fn absorbed(&self) -> Seq<u8> {
        sip24_written(self.inner)
    }

    open spec fn digest(input: Seq<u8>) -> u64 {
        sip24_digest(input)
    }

    fn init() -> (h: Self) {
        Sip24 { inner: sip24_new() }
    }

    fn update(&mut self, bytes: &[u8]) {
        sip24_write(&mut self.inner, bytes)
    }

    fn finish(&self) -> (d: u64) {
        sip24_finish(&self.inner)
    }

    fn fork(&self) -> (copy: Self) {
        Sip24 { inner: sip24_clone(&self.inner) }
    }
}

} // verus!
