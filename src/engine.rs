//! Turning the outcome of fingerprinting each candidate file into the list
//! of fingerprint pairs that resolution works on.
use vstd::prelude::*;
use crate::fingerprint::Digest;

verus! {

/// Why a file could not be fingerprinted. None of these stops the batch:
/// the file is left out of the pairs.
#[derive(Clone, Copy, Debug, PartialEq, Eq)]
pub enum FingerprintError {
    /// The file could not be parsed as a known container.
    ContainerOpenFailed,
    /// The container holds no audio stream.
    NoAudioStream,
    /// Decoding failed in the middle of the stream.
    DecodeFailed,
}

/// A file that was fingerprinted: its index in the candidate list, and the
/// digest of its decoded audio.
#[derive(Clone, Copy, Debug)]
pub struct Fingerprint {
    pub file: usize,
    pub digest: Digest,
}

/// The pairs made from per-file outcomes: one for each success, in the
/// order of the candidate list, each naming its file by index.
pub open spec fn pairs_of(outcomes: Seq<Result<Digest, FingerprintError>>) -> Seq<Fingerprint>
    decreases outcomes.len(),
{
    if outcomes.len() == 0 {
        Seq::empty()
    } else {
        let rest = pairs_of(outcomes.drop_last());
        match outcomes.last() {
            Ok(d) => rest.push(Fingerprint { file: (outcomes.len() - 1) as usize, digest: d }),
            Err(_) => rest,
        }
    }
}

proof fn lemma_pairs_of_files(outcomes: Seq<Result<Digest, FingerprintError>>)
    requires
        outcomes.len() <= usize::MAX,
    ensures
        forall|k: int| 0 <= k < pairs_of(outcomes).len() ==> {
            let f = #[trigger] pairs_of(outcomes)[k].file as int;
            &&& 0 <= f < outcomes.len()
            &&& outcomes[f] == Ok::<Digest, FingerprintError>(pairs_of(outcomes)[k].digest)
        },
        forall|a: int, b: int| 0 <= a < b < pairs_of(outcomes).len()
            ==> pairs_of(outcomes)[a].file < pairs_of(outcomes)[b].file,
        forall|i: int| 0 <= i < outcomes.len() && outcomes[i] is Ok ==>
            exists|k: int| 0 <= k < pairs_of(outcomes).len() && #[trigger] pairs_of(outcomes)[k].file == i,
    decreases outcomes.len(),
{
    if outcomes.len() > 0 {
        let init = outcomes.drop_last();
        lemma_pairs_of_files(init);
        let rest = pairs_of(init);
        assert forall|i: int| 0 <= i < outcomes.len() && outcomes[i] is Ok implies
            exists|k: int| 0 <= k < pairs_of(outcomes).len() && #[trigger] pairs_of(outcomes)[k].file == i by {
            if i < init.len() {
                assert(init[i] == outcomes[i]);
                let k = choose|k: int| 0 <= k < rest.len() && #[trigger] rest[k].file == i;
                assert(pairs_of(outcomes)[k] == rest[k]);
            } else {
                assert(pairs_of(outcomes)[rest.len() as int].file == i);
            }
        }
    }
}

/// The fingerprint pairs of a batch, from the outcome for each candidate
/// file in order. Failed files are dropped, never an error of the batch.
pub fn collect_fingerprints(outcomes: &Vec<Result<Digest, FingerprintError>>) -> (r: Vec<Fingerprint>)
    ensures
        r@ == pairs_of(outcomes@),
        forall|k: int| 0 <= k < r.len() ==> {
            let f = #[trigger] r@[k].file as int;
            &&& 0 <= f < outcomes.len()
            &&& outcomes@[f] == Ok::<Digest, FingerprintError>(r@[k].digest)
        },
        forall|a: int, b: int| 0 <= a < b < r.len() ==> r@[a].file < r@[b].file,
        forall|i: int| 0 <= i < outcomes.len() && outcomes@[i] is Ok ==>
            exists|k: int| 0 <= k < r.len() && #[trigger] r@[k].file == i,
        forall|i: int, k: int| 0 <= i < outcomes.len() && outcomes@[i] is Err && 0 <= k < r.len()
            ==> r@[k].file != i,
{
    let mut r: Vec<Fingerprint> = Vec::new();
    let mut i: usize = 0;
    while i < outcomes.len()
        invariant
            i <= outcomes.len(),
            r@ == pairs_of(outcomes@.take(i as int)),
        decreases outcomes.len() - i,
    {
        proof {
            assert(outcomes@.take(i + 1).drop_last() =~= outcomes@.take(i as int));
        }
        match &outcomes[i] {
            Ok(d) => {
                r.push(Fingerprint { file: i, digest: *d });
            },
            Err(_) => {},
        }
        i = i + 1;
    }
    proof {
        assert(outcomes@.take(outcomes.len() as int) =~= outcomes@);
        lemma_pairs_of_files(outcomes@);
    }
    r
}

} // verus!
