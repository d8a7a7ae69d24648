//! The hash of the content of a file, taken piece by piece.

use vstd::prelude::*;
use xxhash_rust::xxh3::Xxh3;

verus! {

/// The streaming hasher of `xxhash_rust`.
#[verifier::external_type_specification]
#[verifier::external_body]
pub struct ExXxh3(xxhash_rust::xxh3::Xxh3);

/// The bytes that a hasher was given so far.
pub uninterp spec fn taken(h: xxhash_rust::xxh3::Xxh3) -> Seq<u8>;

/// The XXH3 hash, of 64 bits and with the default seed, of some bytes.
pub uninterp spec fn xxh3_of(bytes: Seq<u8>) -> u64;

/// `Xxh3::new`: a hasher with the default seed and secret, which was given nothing.
pub assume_specification[ xxhash_rust::xxh3::Xxh3::new ]() -> (h: xxhash_rust::xxh3::Xxh3)
    ensures
        taken(h) == Seq::<u8>::empty(),
;

/// `Xxh3::update`: the hasher takes the bytes after those that it was given
/// before.
pub assume_specification[ xxhash_rust::xxh3::Xxh3::update ](h: &mut xxhash_rust::xxh3::Xxh3, input: &[u8])
    ensures
        taken(*final(h)) == taken(*old(h)) + input@,
;

/// `Xxh3::digest`: the hash of all bytes that the hasher was given, whatever the
/// pieces that they came in.
pub assume_specification[ xxhash_rust::xxh3::Xxh3::digest ](h: &xxhash_rust::xxh3::Xxh3) -> (r: u64)
    ensures
        r == xxh3_of(taken(*h)),
;

/// Takes the content of a file piece by piece, and gives its hash.
pub struct ContentHasher {
    hasher: Xxh3,
}

impl ContentHasher {
    /// The content that was taken so far.
    pub closed spec fn content(&self) -> Seq<u8> {
        taken(self.hasher)
    }

    /// A hasher that was given nothing.
    pub fn new() -> (r: ContentHasher)
        ensures
            r.content() == Seq::<u8>::empty(),
    {
        ContentHasher { hasher: Xxh3::new() }
    }

    /// Takes the next `n` bytes, which a read left at the front of the buffer.
    /// Says whether there may be more: a read of no bytes is the end.
    pub fn take(&mut self, buf: &Vec<u8>, n: usize) -> (more: bool)
        requires
            n <= buf@.len(),
        ensures
            more == (n != 0),
            final(self).content() == old(self).content() + buf@.take(n as int),
    {
        if n == 0 {
            assert(self.content() + buf@.take(0) =~= self.content());
            return false;
        }
        let piece = vstd::slice::slice_subrange(buf.as_slice(), 0, n);
        assert(piece@ =~= buf@.take(n as int));
        self.hasher.update(piece);
        true
    }

    /// The hash of the content.
    pub fn finish(&self) -> (r: u64)
        ensures
            r == xxh3_of(self.content()),
    {
        self.hasher.digest()
    }
}

/// The hash of some bytes.
pub fn hash_bytes(bytes: &Vec<u8>) -> (r: u64)
    ensures
        r == xxh3_of(bytes@),
{
    let mut h = ContentHasher::new();
    let more = h.take(bytes, bytes.len());
    assert(bytes@.take(bytes@.len() as int) =~= bytes@);
    assert(h.content() =~= bytes@);
    h.finish()
}

} // verus!
