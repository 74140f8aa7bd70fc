//! Content digests: SHA-256 over the bytes of a file, taken in piece by piece.

use vstd::prelude::*;
use sha2::Digest;

verus! {

/// The SHA-256 digest of a byte sequence, written as lower-case hexadecimal.
pub uninterp spec fn sha256_hex(data: Seq<u8>) -> Seq<char>;

/// The bytes that a hasher state has taken in so far, in order.
pub uninterp spec fn absorbed(state: HashState) -> Seq<u8>;

/// The running state of `sha2::Sha256`. What it stands for is the sequence of
/// bytes it was fed.
#[verifier::external_body]
pub struct HashState {
    inner: sha2::Sha256,
}

/// Calls `sha2::Sha256::new`: a state that has taken in nothing.
#[verifier::external_body]
fn state_new() -> (state: HashState)
    ensures
        absorbed(state) == Seq::<u8>::empty(),
{
    HashState { inner: sha2::Sha256::new() }
}

/// Calls `sha2::Digest::update`: the state has taken in `data` after what it
/// held before.
#[verifier::external_body]
fn state_update(state: &mut HashState, data: &[u8])
    ensures
        absorbed(*final(state)) == absorbed(*old(state)) + data@,
{
    state.inner.update(data);
}

/// Calls `sha2::Digest::finalize` and writes the output in lower-case
/// hexadecimal: the digest of everything the state has taken in.
#[verifier::external_body]
fn state_finalize(state: HashState) -> (hex: String)
    ensures
        hex@ == sha256_hex(absorbed(state)),
{
    format!("{:x}", state.inner.finalize())
}

/// A content hasher that is fed a file in pieces of any size.
pub struct ContentHasher {
    state: HashState,
}

impl ContentHasher {
    /// The bytes fed so far.
    pub closed spec fn fed(&self) -> Seq<u8> {
        absorbed(self.state)
    }

    /// A hasher that was fed nothing yet.
    pub fn new() -> (hasher: Self)
        ensures
            hasher.fed() == Seq::<u8>::empty(),
    {
        ContentHasher { state: state_new() }
    }

    /// Feeds one more piece.
    pub fn update(&mut self, data: &[u8])
        ensures
            final(self).fed() == old(self).fed() + data@,
    {
        state_update(&mut self.state, data);
    }

    /// The digest of all that was fed, as lower-case hexadecimal.
    pub fn finalize(self) -> (hex: String)
        ensures
            hex@ == sha256_hex(self.fed()),
    {
        state_finalize(self.state)
    }
}

/// The pieces of a file, put together in order.
pub open spec fn joined(chunks: Seq<Vec<u8>>) -> Seq<u8>
    decreases chunks.len(),
{
    if chunks.len() == 0 {
        Seq::empty()
    } else {
        joined(chunks.drop_last()) + chunks.last()@
    }
}

/// The digest of a file that was read as the given pieces: the digest of its
/// whole content, however the content was cut.
pub fn calculate_file_hash(chunks: &Vec<Vec<u8>>) -> (hex: String)
    ensures
        hex@ == sha256_hex(joined(chunks@)),
{
    let mut hasher = ContentHasher::new();
    let mut i: usize = 0;
    while i < chunks.len()
        invariant
            i <= chunks.len(),
            hasher.fed() == joined(chunks@.take(i as int)),
        decreases chunks.len() - i,
    {
        hasher.update(chunks[i].as_slice());
        proof {
            assert(chunks@.take(i + 1).drop_last() =~= chunks@.take(i as int));
        }
        i = i + 1;
    }
    proof {
        assert(chunks@.take(i as int) =~= chunks@);
    }
    hasher.finalize()
}

} // verus!
