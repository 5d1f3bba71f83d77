//! The content digest of a track: a BLAKE3 hash fed, in order, with the
//! decoded audio buffers of the track's audio stream.
use vstd::prelude::*;

verus! {

/// A 256-bit content digest.
pub type Digest = [u8; 32];

#[verifier::external_type_specification]
#[verifier::external_body]
pub struct ExHasher(blake3::Hasher);

/// The bytes fed so far into a BLAKE3 hashing state.
pub uninterp spec fn fed_bytes(h: blake3::Hasher) -> Seq<u8>;

/// The 32-byte BLAKE3 digest of a byte sequence.
pub uninterp spec fn blake3_of(data: Seq<u8>) -> Seq<u8>;

/// Relies on blake3::Hasher::new: a fresh state that has been fed nothing.
#[verifier::external_body]
fn hasher_new() -> (r: blake3::Hasher)
    ensures
        fed_bytes(r) == Seq::<u8>::empty(),
{
    blake3::Hasher::new()
}

/// Relies on blake3::Hasher::update: appends the input to what the state has
/// been fed (a state made by `new` has no input offset, so it never panics).
#[verifier::external_body]
fn hasher_update(h: &mut blake3::Hasher, data: &[u8])
    ensures
        fed_bytes(*final(h)) == fed_bytes(*old(h)) + data@,
{
    h.update(data);
}

/// Relies on blake3::Hasher::finalize: the digest of all the bytes fed so
/// far, the same as hashing them in one piece.
#[verifier::external_body]
fn hasher_finalize(h: &blake3::Hasher) -> (r: Digest)
    ensures
        r@ == blake3_of(fed_bytes(*h)),
{
    *h.finalize().as_bytes()
}

/// The concatenation of a sequence of buffers.
pub open spec fn joined(frames: Seq<Seq<u8>>) -> Seq<u8>
    decreases frames.len(),
{
    if frames.len() == 0 {
        Seq::empty()
    } else {
        joined(frames.drop_last()) + frames.last()
    }
}

/// The views of a list of byte buffers.
pub open spec fn frames_view(frames: Seq<Vec<u8>>) -> Seq<Seq<u8>> {
    frames.map_values(|f: Vec<u8>| f@)
}

/// An incremental digest of one track's decoded audio.
///
/// Memory use does not grow with the input: each buffer is hashed as it
/// arrives and then dropped by the caller.
pub struct Fingerprinter {
    hasher: blake3::Hasher,
}

impl View for Fingerprinter {
    type V = Seq<u8>;

    /// The decoded bytes fed so far.
    closed spec fn view(&self) -> Seq<u8> {
        fed_bytes(self.hasher)
    }
}

impl Fingerprinter {
    /// A fingerprinter that has been fed nothing.
    pub fn new() -> (r: Fingerprinter)
        ensures
            r@ == Seq::<u8>::empty(),
    {
        Fingerprinter { hasher: hasher_new() }
    }

    /// Feeds one decoded buffer, after all those fed before.
    pub fn update(&mut self, frame: &[u8])
        ensures
            final(self)@ == old(self)@ + frame@,
    {
        hasher_update(&mut self.hasher, frame);
    }

    /// The digest of all the bytes fed so far.
    pub fn finalize(&self) -> (r: Digest)
        ensures
            r@ == blake3_of(self@),
    {
        hasher_finalize(&self.hasher)
    }
}

/// The digest of a track whose decoder produced `frames`, in this order.
pub fn digest_frames(frames: &Vec<Vec<u8>>) -> (r: Digest)
    ensures
        r@ == blake3_of(joined(frames_view(frames@))),
{
    let mut fp = Fingerprinter::new();
    let mut i: usize = 0;
    while i < frames.len()
        invariant
            i <= frames.len(),
            fp@ == joined(frames_view(frames@.take(i as int))),
        decreases frames.len() - i,
    {
        fp.update(frames[i].as_slice());
        proof {
            let next = frames_view(frames@.take(i + 1));
            assert(next.drop_last() =~= frames_view(frames@.take(i as int)));
        }
        i = i + 1;
    }
    assert(frames@.take(frames.len() as int) =~= frames@);
    fp.finalize()
}

/// Whether two digests are equal, byte for byte.
pub fn digest_eq(a: &Digest, b: &Digest) -> (r: bool)
    ensures
        r == (a@ == b@),
{
    let mut i: usize = 0;
    while i < 32
        invariant
            i <= 32,
            a@.len() == 32,
            b@.len() == 32,
            forall|k: int| 0 <= k < i ==> a@[k] == b@[k],
        decreases 32 - i,
    {
        if a[i] != b[i] {
            return false;
        }
        i = i + 1;
    }
    assert(a@ =~= b@);
    true
}

/// Digests depend on the decoded bytes alone: two runs over buffers whose
/// concatenations are equal give the same digest, however the bytes were cut
/// into buffers.
pub proof fn lemma_digest_deterministic(a: Seq<Seq<u8>>, b: Seq<Seq<u8>>)
    requires
        joined(a) == joined(b),
    ensures
        blake3_of(joined(a)) == blake3_of(joined(b)),
{
}

} // verus!
