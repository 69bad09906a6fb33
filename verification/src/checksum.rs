//! Checksums: the first bytes of a BLAKE3 digest.
use vstd::prelude::*;

use crate::packet::CHECKSUM_SIZE;

verus! {

/// `blake3::Hasher`, which takes in bytes and gives their digest.
#[verifier::external_type_specification]
#[verifier::external_body]
pub struct ExHasher(blake3::Hasher);

/// The bytes that a hasher of the regular hash function has taken in; `None` for a hasher of
/// another function (keyed, or of a part of the input).
pub uninterp spec fn taken_in(hasher: blake3::Hasher) -> Option<Seq<u8>>;

/// The BLAKE3 digest of some bytes: what `blake3::Hasher::finalize` gives.
pub uninterp spec fn digest_of(input: Seq<u8>) -> Seq<u8>;

/// `blake3::Hasher::new` is a hasher of the regular hash function that has taken in nothing.
#[verifier::external_body]
pub(crate) fn new_hasher() -> (r: blake3::Hasher)
    ensures
        taken_in(r) == Some(Seq::<u8>::empty()),
{
    blake3::Hasher::new()
}

/// `blake3::Hasher::update` takes in more bytes, behind those it has.
#[verifier::external_body]
pub(crate) fn update_hasher(hasher: &mut blake3::Hasher, input: &[u8])
    requires
        taken_in(*old(hasher)) is Some,
    ensures
        taken_in(*final(hasher)) == Some(taken_in(*old(hasher))->Some_0 + input@),
{
    hasher.update(input);
}

/// `blake3::Hasher::finalize` gives the digest of the bytes taken in, 32 bytes long.
#[verifier::external_body]
pub(crate) fn finalize_hasher(hasher: &blake3::Hasher) -> (r: [u8; 32])
    requires
        taken_in(*hasher) is Some,
    ensures
        r@ == digest_of(taken_in(*hasher)->Some_0),
{
    *hasher.finalize().as_bytes()
}

/// The checksum of some bytes: the beginning of their digest.
pub open spec fn checksum_of(input: Seq<u8>) -> Seq<u8> {
    beginning_of(digest_of(input))
}

/// The beginning of a digest, as long as a checksum.
pub open spec fn beginning_of(digest: Seq<u8>) -> Seq<u8> {
    Seq::new(CHECKSUM_SIZE as nat, |i: int| digest[i])
}

/// The beginning of a digest, as long as a checksum.
pub fn first_bytes(digest: &[u8; 32]) -> (r: [u8; CHECKSUM_SIZE])
    ensures
        r@ == beginning_of(digest@),
{
    let mut r: [u8; CHECKSUM_SIZE] = [0; CHECKSUM_SIZE];
    let mut i: usize = 0;
    while i < CHECKSUM_SIZE
        invariant
            i <= CHECKSUM_SIZE,
            forall|j: int| 0 <= j < i ==> r@[j] == digest@[j],
        decreases CHECKSUM_SIZE - i,
    {
        r[i] = digest[i];
        i = i + 1;
    }
    assert(r@ =~= beginning_of(digest@));
    r
}

/// The checksum of the bytes that a hasher has taken in.
pub fn hasher_checksum(hasher: &blake3::Hasher) -> (r: [u8; CHECKSUM_SIZE])
    requires
        taken_in(*hasher) is Some,
    ensures
        r@ == checksum_of(taken_in(*hasher)->Some_0),
{
    first_bytes(&finalize_hasher(hasher))
}

/// The checksum of some bytes.
pub fn calculate_checksum(input: &[u8]) -> (r: [u8; CHECKSUM_SIZE])
    ensures
        r@ == checksum_of(input@),
{
    let mut hasher = new_hasher();
    update_hasher(&mut hasher, input);
    assert(Seq::<u8>::empty() + input@ =~= input@);
    hasher_checksum(&hasher)
}

/// A checksum that can arrive in pieces. It begins as zeroes.
#[derive(Debug, Clone, Copy)]
pub struct AtomicChecksum {
    data: [u8; CHECKSUM_SIZE],
}

impl View for AtomicChecksum {
    type V = Seq<u8>;

    closed spec fn view(&self) -> Seq<u8> {
        self.data@
    }
}

impl AtomicChecksum {
    /// A checksum of which nothing has arrived.
    pub fn new() -> (r: Self)
        ensures
            r@ == Seq::new(CHECKSUM_SIZE as nat, |i: int| 0u8),
    {
        let r = AtomicChecksum { data: [0; CHECKSUM_SIZE] };
        assert(r@ =~= Seq::new(CHECKSUM_SIZE as nat, |i: int| 0u8));
        r
    }

    /// Sets the whole checksum.
    pub fn update(&mut self, checksum: [u8; CHECKSUM_SIZE])
        ensures
            final(self)@ == checksum@,
    {
        self.data = checksum;
    }

    /// Sets the bytes of the checksum from `offset` on, and leaves the others.
    pub fn partial_update(&mut self, offset: usize, byts: &[u8])
        requires
            offset + byts@.len() <= CHECKSUM_SIZE,
        ensures
            final(self)@ == splice(old(self)@, offset as int, byts@),
    {
        let mut temp: [u8; CHECKSUM_SIZE] = self.bytes();
        let ghost before = temp@;
        let mut i: usize = 0;
        while i < byts.len()
            invariant
                i <= byts@.len(),
                offset + byts@.len() <= CHECKSUM_SIZE,
                temp@ =~= splice(before, offset as int, byts@.take(i as int)),
                before.len() == CHECKSUM_SIZE,
            decreases byts.len() - i,
        {
            temp[offset + i] = byts[i];
            i = i + 1;
        }
        assert(byts@.take(i as int) =~= byts@);
        self.update(temp);
    }

    /// The checksum so far.
    pub fn bytes(&self) -> (r: [u8; CHECKSUM_SIZE])
        ensures
            r@ == self@,
            self@.len() == CHECKSUM_SIZE,
    {
        self.data
    }
}

impl Default for AtomicChecksum {
    fn default() -> (r: Self)
        ensures
            r@ == Seq::new(CHECKSUM_SIZE as nat, |i: int| 0u8),
    {
        AtomicChecksum::new()
    }
}

/// `whole` with `part` in place of its bytes from `offset` on.
pub open spec fn splice(whole: Seq<u8>, offset: int, part: Seq<u8>) -> Seq<u8> {
    Seq::new(
        whole.len(),
        |i: int|
            if offset <= i < offset + part.len() {
                part[i - offset]
            } else {
                whole[i]
            },
    )
}

/// A checksum that arrives in two pieces, in either order, is whole once both are there.
pub proof fn law_checksum_pieces(before: Seq<u8>, sum: Seq<u8>, at: int)
    requires
        before.len() == sum.len(),
        0 <= at <= sum.len(),
    ensures
        splice(splice(before, 0, sum.take(at)), at, sum.skip(at)) == sum,
        splice(splice(before, at, sum.skip(at)), 0, sum.take(at)) == sum,
{
    assert(splice(splice(before, 0, sum.take(at)), at, sum.skip(at)) =~= sum);
    assert(splice(splice(before, at, sum.skip(at)), 0, sum.take(at)) =~= sum);
}

/// Bytes of a checksum that arrive are put in their place, and the others stay as they are.
pub proof fn law_pieces_go_to_their_places(whole: Seq<u8>, offset: int, part: Seq<u8>, i: int)
    requires
        0 <= offset,
        offset + part.len() <= whole.len(),
        0 <= i < whole.len(),
    ensures
        splice(whole, offset, part).len() == whole.len(),
        splice(whole, offset, part).subrange(offset, offset + part.len()) == part,
        i < offset || offset + part.len() <= i ==> splice(whole, offset, part)[i] == whole[i],
{
    assert(splice(whole, offset, part).subrange(offset, offset + part.len()) =~= part);
}

/// A checksum is the first sixteen bytes of the digest.
pub proof fn law_checksum_begins_the_digest(input: Seq<u8>)
    requires
        digest_of(input).len() == 32,
    ensures
        checksum_of(input) == digest_of(input).take(16),
{
    assert(checksum_of(input) =~= digest_of(input).take(16));
}

} // verus!
