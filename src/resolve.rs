//! Duplicate resolution: grouping fingerprint pairs by equal digest, and
//! choosing in each group the newest copy as the one to keep.
use vstd::prelude::*;
use crate::engine::Fingerprint;
use crate::fingerprint::digest_eq;
use itertools::Itertools;

verus! {

/// Positions `i` and `j` of the pair list carry equal digests.
pub open spec fn same_digest(pairs: Seq<Fingerprint>, i: int, j: int) -> bool {
    pairs[i].digest@ == pairs[j].digest@
}

/// The digest at position `i` occurs at some other position too.
pub open spec fn is_duplicated(pairs: Seq<Fingerprint>, i: int) -> bool {
    exists|j: int| 0 <= j < pairs.len() && j != i && #[trigger] same_digest(pairs, i, j)
}

/// Position `i` is the first occurrence of its digest.
pub open spec fn is_first(pairs: Seq<Fingerprint>, i: int) -> bool {
    forall|j: int| 0 <= j < i ==> !#[trigger] same_digest(pairs, j, i)
}

/// Some group holds position `k`.
pub open spec fn in_some_group(groups: Seq<Vec<usize>>, k: int) -> bool {
    exists|g: int| 0 <= g < groups.len() && #[trigger] groups[g]@.contains(k as usize)
}

/// `groups` is the partition of the duplicated positions of `pairs` by
/// digest: each group holds, in increasing order, every position that
/// carries its digest, at least two of them; no two groups share a digest;
/// and a position lies in some group exactly when its digest is duplicated.
pub open spec fn is_grouping(pairs: Seq<Fingerprint>, groups: Seq<Vec<usize>>) -> bool {
    &&& forall|g: int| 0 <= g < groups.len() ==> #[trigger] groups[g]@.len() >= 2
    &&& forall|g: int, a: int| 0 <= g < groups.len() && 0 <= a < groups[g]@.len() ==> {
            &&& #[trigger] groups[g]@[a] < pairs.len()
            &&& same_digest(pairs, groups[g]@[a] as int, groups[g]@[0] as int)
        }
    &&& forall|g: int, a: int, b: int| 0 <= g < groups.len() && 0 <= a < b < groups[g]@.len()
            ==> #[trigger] groups[g]@[a] < #[trigger] groups[g]@[b]
    &&& forall|g: int, k: int| 0 <= g < groups.len() && 0 <= k < pairs.len()
            && #[trigger] same_digest(pairs, k, groups[g]@[0] as int)
            ==> groups[g]@.contains(k as usize)
    &&& forall|g: int, h: int| 0 <= g < h < groups.len()
            ==> !#[trigger] same_digest(pairs, groups[g]@[0] as int, groups[h]@[0] as int)
    &&& forall|k: int| 0 <= k < pairs.len() ==> (#[trigger] is_duplicated(pairs, k) <==> in_some_group(groups, k))
}

/// The positions from `i` on that carry the digest at `i`, in order.
fn positions_like(pairs: &Vec<Fingerprint>, i: usize) -> (r: Vec<usize>)
    requires
        i < pairs.len(),
    ensures
        r@.len() >= 1,
        r@[0] == i,
        forall|a: int| 0 <= a < r@.len() ==> i <= #[trigger] r@[a] < pairs.len()
            && same_digest(pairs@, r@[a] as int, i as int),
        forall|a: int, b: int| 0 <= a < b < r@.len() ==> #[trigger] r@[a] < #[trigger] r@[b],
        forall|k: int| i <= k < pairs.len() && #[trigger] same_digest(pairs@, k, i as int)
            ==> r@.contains(k as usize),
{
    let mut r: Vec<usize> = Vec::new();
    r.push(i);
    assert(r@[0] == i);
    let mut j: usize = i + 1;
    while j < pairs.len()
        invariant
            i < j <= pairs.len(),
            r@.len() >= 1,
            r@[0] == i,
            forall|a: int| 0 <= a < r@.len() ==> i <= #[trigger] r@[a] < j
                && same_digest(pairs@, r@[a] as int, i as int),
            forall|a: int, b: int| 0 <= a < b < r@.len() ==> #[trigger] r@[a] < #[trigger] r@[b],
            forall|k: int| i <= k < j && #[trigger] same_digest(pairs@, k, i as int)
                ==> r@.contains(k as usize),
        decreases pairs.len() - j,
    {
        let ghost old_r = r@;
        if digest_eq(&pairs[j].digest, &pairs[i].digest) {
            r.push(j);
            assert(r@[r@.len() - 1] == j);
        }
        proof {
            assert forall|k: int| i <= k < j + 1 && #[trigger] same_digest(pairs@, k, i as int)
                implies r@.contains(k as usize) by {
                if k == j {
                    assert(r@[r@.len() - 1] == j);
                } else {
                    let a = choose|a: int| 0 <= a < old_r.len() && old_r[a] == k as usize;
                    assert(r@[a] == old_r[a]);
                }
            }
        }
        j = j + 1;
    }
    assert(r@[0] == i);
    r
}

/// Position `i` is the second occurrence of its digest: exactly one
/// position before it carries the same digest.
pub open spec fn is_second(pairs: Seq<Fingerprint>, i: int) -> bool {
    &&& !is_first(pairs, i)
    &&& forall|j1: int, j2: int| 0 <= j1 < i && 0 <= j2 < i && #[trigger] same_digest(pairs, j1, i)
            && #[trigger] same_digest(pairs, j2, i) ==> j1 == j2
}

/// Relies on itertools::Itertools::duplicates_by, keyed by digest: in the
/// order of the list, each item whose key occurs more than once, exactly
/// once, at the key's second occurrence.
#[verifier::external_body]
fn second_occurrences(pairs: &Vec<Fingerprint>) -> (r: Vec<usize>)
    ensures
        forall|a: int| 0 <= a < r@.len() ==> #[trigger] r@[a] < pairs@.len(),
        forall|a: int, b: int| 0 <= a < b < r@.len() ==> #[trigger] r@[a] < #[trigger] r@[b],
        forall|i: int| 0 <= i < pairs@.len() ==> (r@.contains(i as usize) <==> #[trigger] is_second(pairs@, i)),
{
    pairs.iter().enumerate().duplicates_by(|(_, p)| p.digest).map(|(i, _)| i).collect()
}

/// The first position that carries the digest at `i`.
fn first_like(pairs: &Vec<Fingerprint>, i: usize) -> (f: usize)
    requires
        i < pairs.len(),
    ensures
        f <= i,
        same_digest(pairs@, f as int, i as int),
        is_first(pairs@, f as int),
{
    let mut f: usize = 0;
    while !digest_eq(&pairs[f].digest, &pairs[i].digest)
        invariant
            i < pairs.len(),
            f <= i,
            forall|j: int| 0 <= j < f ==> !#[trigger] same_digest(pairs@, j, i as int),
        decreases i - f,
    {
        assert(f != i);
        f = f + 1;
    }
    assert forall|j: int| 0 <= j < f implies !#[trigger] same_digest(pairs@, j, f as int) by {
        assert(!same_digest(pairs@, j, i as int));
    }
    f
}

/// The least position in `lo..m` that carries the digest at `k`, where there
/// is one.
proof fn lemma_least(pairs: Seq<Fingerprint>, k: int, lo: int, m: int, w: int)
    requires
        lo <= w < m,
        same_digest(pairs, w, k),
    ensures
        exists|f: int| lo <= f <= w && #[trigger] same_digest(pairs, f, k)
            && forall|j: int| lo <= j < f ==> !#[trigger] same_digest(pairs, j, k),
    decreases w - lo,
{
    if !(forall|j: int| lo <= j < w ==> !#[trigger] same_digest(pairs, j, k)) {
        let v = choose|j: int| lo <= j < w && #[trigger] same_digest(pairs, j, k);
        lemma_least(pairs, k, lo, m, v);
    }
}

/// A duplicated digest has a second occurrence.
proof fn lemma_second_exists(pairs: Seq<Fingerprint>, k: int)
    requires
        0 <= k < pairs.len(),
        is_duplicated(pairs, k),
    ensures
        exists|s: int| 0 <= s < pairs.len() && is_second(pairs, s) && #[trigger] same_digest(pairs, s, k),
{
    let n = pairs.len() as int;
    let w = choose|j: int| 0 <= j < n && j != k && #[trigger] same_digest(pairs, k, j);
    assert(same_digest(pairs, k, k));
    lemma_least(pairs, k, 0, n, k);
    let f = choose|f: int| 0 <= f <= k && #[trigger] same_digest(pairs, f, k)
        && forall|j: int| 0 <= j < f ==> !#[trigger] same_digest(pairs, j, k);
    let w2: int = if w > f { w } else { k };
    assert(w2 > f) by {
        if w <= f {
            assert(w == f || !same_digest(pairs, w, k));
        }
    }
    assert(same_digest(pairs, w2, k));
    lemma_least(pairs, k, f + 1, n, w2);
    let s = choose|s: int| f + 1 <= s <= w2 && #[trigger] same_digest(pairs, s, k)
        && forall|j: int| f + 1 <= j < s ==> !#[trigger] same_digest(pairs, j, k);
    assert(same_digest(pairs, f, s));
    assert forall|j1: int, j2: int| 0 <= j1 < s && 0 <= j2 < s && #[trigger] same_digest(pairs, j1, s)
        && #[trigger] same_digest(pairs, j2, s) implies j1 == j2 by {
        assert(same_digest(pairs, j1, k));
        assert(same_digest(pairs, j2, k));
        assert(j1 == f);
        assert(j2 == f);
    }
    assert(is_second(pairs, s));
}

/// The duplicate groups of a pair list: the positions of each digest that
/// occurs more than once, the groups in the order in which their digests
/// occur for the second time.
pub fn group_duplicates(pairs: &Vec<Fingerprint>) -> (r: Vec<Vec<usize>>)
    ensures
        is_grouping(pairs@, r@),
{
    let n = pairs.len();
    let seconds = second_occurrences(pairs);
    let mut groups: Vec<Vec<usize>> = Vec::new();
    let mut t: usize = 0;
    while t < seconds.len()
        invariant
            n == pairs.len(),
            t <= seconds@.len(),
            groups@.len() == t,
            forall|a: int| 0 <= a < seconds@.len() ==> #[trigger] seconds@[a] < n,
            forall|a: int, b: int| 0 <= a < b < seconds@.len() ==> #[trigger] seconds@[a] < #[trigger] seconds@[b],
            forall|i: int| 0 <= i < n ==> (seconds@.contains(i as usize) <==> #[trigger] is_second(pairs@, i)),
            forall|g: int| 0 <= g < t ==> #[trigger] groups@[g]@.len() >= 2,
            forall|g: int, a: int| 0 <= g < t && 0 <= a < groups@[g]@.len() ==> {
                &&& #[trigger] groups@[g]@[a] < n
                &&& same_digest(pairs@, groups@[g]@[a] as int, groups@[g]@[0] as int)
            },
            forall|g: int, a: int, b: int| 0 <= g < t && 0 <= a < b < groups@[g]@.len()
                ==> #[trigger] groups@[g]@[a] < #[trigger] groups@[g]@[b],
            forall|g: int, k: int| 0 <= g < t && 0 <= k < n
                && #[trigger] same_digest(pairs@, k, groups@[g]@[0] as int)
                ==> groups@[g]@.contains(k as usize),
            forall|g: int| 0 <= g < t ==> {
                &&& is_first(pairs@, #[trigger] groups@[g]@[0] as int)
                &&& groups@[g]@[0] < seconds@[g]
                &&& same_digest(pairs@, groups@[g]@[0] as int, seconds@[g] as int)
            },
        decreases seconds.len() - t,
    {
        let i = seconds[t];
        proof {
            assert(seconds@.contains(i));
            assert(is_second(pairs@, i as int));
        }
        let f = first_like(pairs, i);
        let g = positions_like(pairs, f);
        proof {
            assert(f != i);
            assert(same_digest(pairs@, i as int, f as int));
            assert(g@.contains(i));
            let a = choose|a: int| 0 <= a < g@.len() && g@[a] == i;
            assert(a != 0);
            assert forall|k: int| 0 <= k < n && #[trigger] same_digest(pairs@, k, f as int)
                implies g@.contains(k as usize) by {
                if k < f {
                    assert(!same_digest(pairs@, k, f as int));
                }
            }
        }
        groups.push(g);
        t = t + 1;
    }
    proof {
        let gs = groups@;
        assert forall|g: int, h: int| 0 <= g < h < gs.len()
            implies !#[trigger] same_digest(pairs@, gs[g]@[0] as int, gs[h]@[0] as int) by {
            if same_digest(pairs@, gs[g]@[0] as int, gs[h]@[0] as int) {
                let sg = seconds@[g] as int;
                let sh = seconds@[h] as int;
                let fh = gs[h]@[0] as int;
                assert(seconds@.contains(seconds@[h]));
                assert(is_second(pairs@, sh));
                assert(same_digest(pairs@, sg, sh));
                assert(same_digest(pairs@, fh, sh));
                assert(sg < sh);
                assert(is_first(pairs@, gs[g]@[0] as int));
                assert(!is_first(pairs@, sg)) by {
                    assert(same_digest(pairs@, gs[g]@[0] as int, sg));
                }
                assert(sg != fh) by {
                    assert(is_first(pairs@, fh));
                }
            }
        }
        assert forall|k: int| 0 <= k < n implies (#[trigger] is_duplicated(pairs@, k) <==> in_some_group(gs, k)) by {
            if is_duplicated(pairs@, k) {
                lemma_second_exists(pairs@, k);
                let s = choose|s: int| 0 <= s < n && is_second(pairs@, s) && #[trigger] same_digest(pairs@, s, k);
                assert(seconds@.contains(s as usize));
                let g = choose|g: int| 0 <= g < seconds@.len() && seconds@[g] == s as usize;
                assert(same_digest(pairs@, k, gs[g]@[0] as int));
                assert(gs[g]@.contains(k as usize));
            }
            if in_some_group(gs, k) {
                let g = choose|g: int| 0 <= g < gs.len() && #[trigger] gs[g]@.contains(k as usize);
                let a = choose|a: int| 0 <= a < gs[g]@.len() && gs[g]@[a] == k as usize;
                let b: int = if a == 0 { 1 } else { 0 };
                assert(same_digest(pairs@, gs[g]@[b] as int, gs[g]@[0] as int));
                assert(same_digest(pairs@, gs[g]@[a] as int, gs[g]@[0] as int));
                assert(gs[g]@[a] != gs[g]@[b]);
                assert(same_digest(pairs@, k, gs[g]@[b] as int));
            }
        }
    }
    groups
}

/// A modification time, in nanoseconds since the Unix epoch (negative
/// before it).
pub type Timestamp = i128;

/// Why duplicates could not be resolved.
#[derive(Clone, Copy, Debug, PartialEq, Eq)]
pub enum ResolveError {
    /// The modification time of a duplicated file could not be read, so no
    /// survivor can be chosen safely. `file` names the file as the pair does.
    MetadataReadFailed { file: usize },
}

/// Of two positions with readable modification times, `i` is kept in
/// preference to `j`: it is newer, or as new with the lesser tie key.
pub open spec fn keeps_before(modified: Seq<Option<Timestamp>>, tie: Seq<u64>, i: int, j: int) -> bool {
    let a = modified[i]->Some_0;
    let b = modified[j]->Some_0;
    a > b || (a == b && tie[i] < tie[j])
}

/// No two positions share a tie key.
pub open spec fn distinct_keys(tie: Seq<u64>) -> bool {
    forall|i: int, j: int| 0 <= i < tie.len() && 0 <= j < tie.len() && i != j ==> tie[i] != tie[j]
}

/// Position `k` is kept in preference to every other position with its digest.
pub open spec fn is_survivor(pairs: Seq<Fingerprint>, modified: Seq<Option<Timestamp>>, tie: Seq<u64>, k: int) -> bool {
    forall|j: int| 0 <= j < pairs.len() && j != k && #[trigger] same_digest(pairs, k, j)
        ==> keeps_before(modified, tie, k, j)
}

/// Position `k` is a duplicate that is not its group's survivor.
pub open spec fn is_deletable(pairs: Seq<Fingerprint>, modified: Seq<Option<Timestamp>>, tie: Seq<u64>, k: int) -> bool {
    is_duplicated(pairs, k) && !is_survivor(pairs, modified, tie, k)
}

/// Every duplicated position has a readable modification time.
pub open spec fn metadata_complete(pairs: Seq<Fingerprint>, modified: Seq<Option<Timestamp>>) -> bool {
    forall|k: int| 0 <= k < pairs.len() && #[trigger] is_duplicated(pairs, k) ==> modified[k] is Some
}

/// `r` is a deletion set for `pairs`: each deletable position exactly once,
/// nothing else, and the positions of one group in increasing order.
pub open spec fn is_resolution(pairs: Seq<Fingerprint>, modified: Seq<Option<Timestamp>>, tie: Seq<u64>, r: Seq<usize>) -> bool {
    &&& r.no_duplicates()
    &&& forall|a: int| 0 <= a < r.len() ==> #[trigger] r[a] < pairs.len()
    &&& forall|k: int| 0 <= k < pairs.len() ==> (r.contains(k as usize) <==> #[trigger] is_deletable(pairs, modified, tie, k))
    &&& forall|a: int, b: int| 0 <= a < b < r.len() && same_digest(pairs, #[trigger] r[a] as int, #[trigger] r[b] as int)
            ==> r[a] < r[b]
}

/// The index in `group` of the first member whose time is unreadable.
fn first_unreadable(modified: &Vec<Option<Timestamp>>, group: &Vec<usize>) -> (r: Option<usize>)
    requires
        forall|a: int| 0 <= a < group@.len() ==> #[trigger] group@[a] < modified@.len(),
    ensures
        r matches Some(a) ==> a < group@.len() && modified@[group@[a as int] as int] is None,
        r is None ==> forall|a: int| 0 <= a < group@.len() ==> modified@[#[trigger] group@[a] as int] is Some,
{
    let mut a: usize = 0;
    while a < group.len()
        invariant
            a <= group@.len(),
            forall|a: int| 0 <= a < group@.len() ==> #[trigger] group@[a] < modified@.len(),
            forall|b: int| 0 <= b < a ==> modified@[#[trigger] group@[b] as int] is Some,
        decreases group.len() - a,
    {
        if modified[group[a]].is_none() {
            return Some(a);
        }
        a = a + 1;
    }
    None
}

/// The index in `group` of the member kept in preference to all others.
fn newest(modified: &Vec<Option<Timestamp>>, tie: &Vec<u64>, group: &Vec<usize>) -> (s: usize)
    requires
        group@.len() >= 1,
        tie@.len() == modified@.len(),
        distinct_keys(tie@),
        forall|a: int| 0 <= a < group@.len() ==> #[trigger] group@[a] < modified@.len()
            && modified@[group@[a] as int] is Some,
        forall|a: int, b: int| 0 <= a < b < group@.len() ==> #[trigger] group@[a] < #[trigger] group@[b],
    ensures
        s < group@.len(),
        forall|a: int| 0 <= a < group@.len() && a != s
            ==> keeps_before(modified@, tie@, group@[s as int] as int, #[trigger] group@[a] as int),
{
    let mut s: usize = 0;
    let mut a: usize = 1;
    while a < group.len()
        invariant
            1 <= a <= group@.len(),
            s < a,
            tie@.len() == modified@.len(),
            distinct_keys(tie@),
            forall|a: int| 0 <= a < group@.len() ==> #[trigger] group@[a] < modified@.len()
                && modified@[group@[a] as int] is Some,
            forall|a: int, b: int| 0 <= a < b < group@.len() ==> #[trigger] group@[a] < #[trigger] group@[b],
            forall|b: int| 0 <= b < a && b != s
                ==> keeps_before(modified@, tie@, group@[s as int] as int, #[trigger] group@[b] as int),
        decreases group.len() - a,
    {
        let ts = modified[group[s]].unwrap();
        let ta = modified[group[a]].unwrap();
        if ta > ts || (ta == ts && tie[group[a]] < tie[group[s]]) {
            s = a;
        } else {
            assert(tie@[group@[a as int] as int] != tie@[group@[s as int] as int]);
        }
        a = a + 1;
    }
    s
}

/// Appends the members of `group` other than the one at index `s`, in order.
fn push_all_but(group: &Vec<usize>, s: usize, out: &mut Vec<usize>)
    requires
        s < group@.len(),
    ensures
        final(out)@ == old(out)@ + group@.remove(s as int),
{
    let mut a: usize = 0;
    while a < group.len()
        invariant
            s < group@.len(),
            a <= group@.len(),
            out@ == old(out)@ + (if a <= s { group@.take(a as int) } else { group@.remove(s as int).take(a - 1) }),
        decreases group.len() - a,
    {
        if a != s {
            out.push(group[a]);
        }
        proof {
            if a < s {
                assert(group@.take(a + 1) =~= group@.take(a as int).push(group@[a as int]));
            } else if a == s {
                assert(group@.remove(s as int).take(a as int) =~= group@.take(a as int));
            } else {
                assert(group@.remove(s as int).take(a as int)
                    =~= group@.remove(s as int).take(a - 1).push(group@[a as int]));
            }
        }
        a = a + 1;
    }
    proof {
        assert(group@.remove(s as int).take(group@.len() - 1) =~= group@.remove(s as int));
    }
}

/// Some group before index `gi` holds position `k`.
pub open spec fn in_group_before(groups: Seq<Vec<usize>>, gi: int, k: int) -> bool {
    exists|g: int| 0 <= g < gi && #[trigger] groups[g]@.contains(k as usize)
}

/// The positions of `pairs` whose files can be deleted: in every group of
/// equal digests, all members but the newest (among equally new ones, the one
/// with the least tie key). `modified` gives, position by position, the
/// file's modification time, or `None` where it could not be read; `tie`
/// gives each position a key of its file (such as the rank of its path)
/// that no other position shares. Which files are deleted does not depend
/// on the order of the pairs.
///
/// Fails when a duplicated file's time is unreadable; times of files that
/// have no duplicate are never looked at.
pub fn find_deletable(
    pairs: &Vec<Fingerprint>,
    modified: &Vec<Option<Timestamp>>,
    tie: &Vec<u64>,
) -> (r: Result<Vec<usize>, ResolveError>)
    requires
        modified@.len() == pairs@.len(),
        tie@.len() == pairs@.len(),
        distinct_keys(tie@),
    ensures
        r is Ok <==> metadata_complete(pairs@, modified@),
        r matches Ok(v) ==> is_resolution(pairs@, modified@, tie@, v@),
        r matches Err(ResolveError::MetadataReadFailed { file }) ==> exists|k: int| 0 <= k < pairs@.len()
            && #[trigger] is_duplicated(pairs@, k) && modified@[k] is None && pairs@[k].file == file,
{
    let n = pairs.len();
    let groups = group_duplicates(pairs);
    let mut out: Vec<usize> = Vec::new();
    let mut gi: usize = 0;
    while gi < groups.len()
        invariant
            n == pairs@.len(),
            modified@.len() == pairs@.len(),
            tie@.len() == pairs@.len(),
            distinct_keys(tie@),
            is_grouping(pairs@, groups@),
            gi <= groups@.len(),
            forall|g: int, a: int| 0 <= g < gi && 0 <= a < groups@[g]@.len()
                ==> modified@[#[trigger] groups@[g]@[a] as int] is Some,
            out@.no_duplicates(),
            forall|a: int| 0 <= a < out@.len() ==> #[trigger] out@[a] < pairs@.len()
                && is_deletable(pairs@, modified@, tie@, out@[a] as int),
            forall|a: int, h: int| 0 <= a < out@.len() && gi <= h < groups@.len()
                ==> !same_digest(pairs@, #[trigger] out@[a] as int, #[trigger] groups@[h]@[0] as int),
            forall|k: int| 0 <= k < pairs@.len() && is_deletable(pairs@, modified@, tie@, k)
                && #[trigger] in_group_before(groups@, gi as int, k) ==> out@.contains(k as usize),
            forall|a: int, b: int| 0 <= a < b < out@.len()
                && same_digest(pairs@, #[trigger] out@[a] as int, #[trigger] out@[b] as int) ==> out@[a] < out@[b],
        decreases groups.len() - gi,
    {
        let group = &groups[gi];
        let ghost grp = group@;
        let ghost head = grp[0] as int;
        assert(grp.len() >= 2);
        match first_unreadable(modified, group) {
            Some(a) => {
                proof {
                    let b: int = if a == 0 { 1 } else { 0 };
                    assert(same_digest(pairs@, grp[b] as int, head));
                    assert(same_digest(pairs@, grp[a as int] as int, head));
                    assert(grp[a as int] != grp[b]);
                    assert(same_digest(pairs@, grp[a as int] as int, grp[b] as int));
                    assert(is_duplicated(pairs@, grp[a as int] as int));
                }
                return Err(ResolveError::MetadataReadFailed { file: pairs[group[a]].file });
            },
            None => {},
        }
        let s = newest(modified, tie, group);
        let ghost sv = grp[s as int] as int;
        let ghost old_out = out@;
        let ghost rest = grp.remove(s as int);
        push_all_but(group, s, &mut out);
        proof {
            assert forall|i: int| 0 <= i < rest.len() implies
                #[trigger] rest[i] == (if i < s { grp[i] } else { grp[i + 1] }) by {}
            assert(rest.len() == grp.len() - 1);
            // the survivor is kept in preference to every other member
            assert forall|j: int| 0 <= j < pairs@.len() && j != sv && #[trigger] same_digest(pairs@, sv, j)
                implies keeps_before(modified@, tie@, sv, j) by {
                assert(same_digest(pairs@, j, head));
                assert(grp.contains(j as usize));
                let a = choose|a: int| 0 <= a < grp.len() && grp[a] == j as usize;
                assert(a != s);
                assert(keeps_before(modified@, tie@, sv, grp[a] as int));
            }
            assert(is_survivor(pairs@, modified@, tie@, sv));
            // every other member is deletable
            assert forall|i: int| 0 <= i < rest.len() implies
                #[trigger] is_deletable(pairs@, modified@, tie@, rest[i] as int)
                && same_digest(pairs@, rest[i] as int, head) && rest[i] < pairs@.len() by {
                let a: int = if i < s { i } else { i + 1 };
                assert(rest[i] == grp[a]);
                assert(a != s);
                assert(keeps_before(modified@, tie@, sv, grp[a] as int));
                assert(grp[a] < pairs@.len());
                assert(same_digest(pairs@, grp[a] as int, head));
                assert(same_digest(pairs@, sv, head));
                assert(same_digest(pairs@, grp[a] as int, sv));
                assert(is_duplicated(pairs@, grp[a] as int));
                assert(!keeps_before(modified@, tie@, grp[a] as int, sv));
            }
            assert forall|i: int, j: int| 0 <= i < j < rest.len() implies
                #[trigger] rest[i] < #[trigger] rest[j] by {
                let a: int = if i < s { i } else { i + 1 };
                let b: int = if j < s { j } else { j + 1 };
                assert(grp[a] < grp[b]);
            }
            assert(rest.no_duplicates()) by {
                assert forall|i: int, j: int| 0 <= i < rest.len() && 0 <= j < rest.len() && i != j
                    implies rest[i] != rest[j] by {
                    if i < j {
                        assert(rest[i] < rest[j]);
                    } else {
                        assert(rest[j] < rest[i]);
                    }
                }
            }
            assert forall|i: int, j: int| 0 <= i < old_out.len() && 0 <= j < rest.len()
                implies old_out[i] != rest[j] by {
                assert(!same_digest(pairs@, old_out[i] as int, groups@[gi as int]@[0] as int));
                assert(same_digest(pairs@, rest[j] as int, head));
            }
            vstd::seq_lib::lemma_no_dup_in_concat(old_out, rest);
            assert(out@ == old_out + rest);
            assert forall|i: int| 0 <= i < out@.len() implies #[trigger] out@[i] == (if i < old_out.len() {
                old_out[i]
            } else {
                rest[i - old_out.len()]
            }) by {}
            assert forall|a: int| 0 <= a < out@.len() implies #[trigger] out@[a] < pairs@.len()
                && is_deletable(pairs@, modified@, tie@, out@[a] as int) by {
                if a >= old_out.len() {
                    assert(is_deletable(pairs@, modified@, tie@, rest[a - old_out.len()] as int));
                }
            }
            assert forall|a: int, h: int| 0 <= a < out@.len() && gi + 1 <= h < groups@.len()
                implies !same_digest(pairs@, #[trigger] out@[a] as int, #[trigger] groups@[h]@[0] as int) by {
                if a < old_out.len() {
                    assert(!same_digest(pairs@, old_out[a] as int, groups@[h]@[0] as int));
                } else {
                    assert(same_digest(pairs@, rest[a - old_out.len()] as int, head));
                    assert(!same_digest(pairs@, groups@[gi as int]@[0] as int, groups@[h]@[0] as int));
                }
            }
            assert forall|k: int| 0 <= k < pairs@.len() && is_deletable(pairs@, modified@, tie@, k)
                && #[trigger] in_group_before(groups@, gi + 1, k) implies out@.contains(k as usize) by {
                let g = choose|g: int| 0 <= g < gi + 1 && #[trigger] groups@[g]@.contains(k as usize);
                if g < gi {
                    assert(in_group_before(groups@, gi as int, k));
                    assert(old_out.contains(k as usize));
                    let a = choose|a: int| 0 <= a < old_out.len() && old_out[a] == k as usize;
                    assert(out@[a] == k);
                } else {
                    let a = choose|a: int| 0 <= a < grp.len() && grp[a] == k as usize;
                    if a == s {
                        assert(is_survivor(pairs@, modified@, tie@, k));
                    } else {
                        let i: int = if a < s { a } else { a - 1 };
                        assert(rest[i] == k);
                        assert(out@[old_out.len() + i] == k);
                    }
                }
            }
            assert forall|a: int, b: int| 0 <= a < b < out@.len()
                && same_digest(pairs@, #[trigger] out@[a] as int, #[trigger] out@[b] as int)
                implies out@[a] < out@[b] by {
                if b < old_out.len() {
                    assert(old_out[a] < old_out[b]);
                } else if a < old_out.len() {
                    assert(!same_digest(pairs@, old_out[a] as int, groups@[gi as int]@[0] as int));
                    assert(same_digest(pairs@, rest[b - old_out.len()] as int, head));
                } else {
                    assert(rest[a - old_out.len()] < rest[b - old_out.len()]);
                }
            }
        }
        gi = gi + 1;
    }
    proof {
        assert forall|k: int| 0 <= k < pairs@.len() && #[trigger] is_duplicated(pairs@, k)
            implies modified@[k] is Some by {
            assert(in_some_group(groups@, k));
            let g = choose|g: int| 0 <= g < groups@.len() && #[trigger] groups@[g]@.contains(k as usize);
            let a = choose|a: int| 0 <= a < groups@[g]@.len() && groups@[g]@[a] == k as usize;
            assert(modified@[groups@[g]@[a] as int] is Some);
        }
        assert forall|k: int| 0 <= k < pairs@.len() implies
            (out@.contains(k as usize) <==> #[trigger] is_deletable(pairs@, modified@, tie@, k)) by {
            if is_deletable(pairs@, modified@, tie@, k) {
                assert(in_some_group(groups@, k));
                let g = choose|g: int| 0 <= g < groups@.len() && #[trigger] groups@[g]@.contains(k as usize);
                assert(in_group_before(groups@, gi as int, k));
            }
            if out@.contains(k as usize) {
                let a = choose|a: int| 0 <= a < out@.len() && out@[a] == k as usize;
                assert(is_deletable(pairs@, modified@, tie@, out@[a] as int));
            }
        }
    }
    Ok(out)
}

/// The files named by the pairs at `positions`, in the same order.
pub fn files_of(pairs: &Vec<Fingerprint>, positions: &Vec<usize>) -> (r: Vec<usize>)
    requires
        forall|a: int| 0 <= a < positions@.len() ==> #[trigger] positions@[a] < pairs@.len(),
    ensures
        r@.len() == positions@.len(),
        forall|a: int| 0 <= a < r@.len() ==> #[trigger] r@[a] == pairs@[positions@[a] as int].file,
{
    let mut r: Vec<usize> = Vec::new();
    let mut a: usize = 0;
    while a < positions.len()
        invariant
            a <= positions@.len(),
            forall|a: int| 0 <= a < positions@.len() ==> #[trigger] positions@[a] < pairs@.len(),
            r@.len() == a,
            forall|b: int| 0 <= b < a ==> #[trigger] r@[b] == pairs@[positions@[b] as int].file,
        decreases positions.len() - a,
    {
        r.push(pairs[positions[a]].file);
        a = a + 1;
    }
    r
}

/// A position whose digest occurs nowhere else lies in no duplicate group,
/// and every group has at least two members.
pub proof fn lemma_unique_digest_never_grouped(pairs: Seq<Fingerprint>, groups: Seq<Vec<usize>>, k: int)
    requires
        is_grouping(pairs, groups),
        0 <= k < pairs.len(),
        !is_duplicated(pairs, k),
    ensures
        forall|g: int| 0 <= g < groups.len() ==> !(#[trigger] groups[g]@).contains(k as usize),
        forall|g: int| 0 <= g < groups.len() ==> (#[trigger] groups[g]@).len() >= 2,
{
    assert(!in_some_group(groups, k));
}

/// The member of a duplicate group that a resolution keeps is at least as
/// new as every other member of the group.
pub proof fn lemma_survivor_is_newest(
    pairs: Seq<Fingerprint>,
    modified: Seq<Option<Timestamp>>,
    tie: Seq<u64>,
    r: Seq<usize>,
    k: int,
)
    requires
        is_resolution(pairs, modified, tie, r),
        metadata_complete(pairs, modified),
        0 <= k < pairs.len(),
        is_duplicated(pairs, k),
        !r.contains(k as usize),
    ensures
        forall|j: int| 0 <= j < pairs.len() && #[trigger] same_digest(pairs, k, j)
            ==> modified[k]->Some_0 >= modified[j]->Some_0,
{
    assert(!is_deletable(pairs, modified, tie, k));
    assert forall|j: int| 0 <= j < pairs.len() && #[trigger] same_digest(pairs, k, j)
        implies modified[k]->Some_0 >= modified[j]->Some_0 by {
        if j != k {
            assert(keeps_before(modified, tie, k, j));
        }
    }
}

/// The positions that carry the digest at `k`.
pub open spec fn group_of(pairs: Seq<Fingerprint>, k: int) -> Set<int> {
    Set::new(|j: int| 0 <= j < pairs.len() && same_digest(pairs, j, k))
}

/// The positions of `r` that carry the digest at `k`.
pub open spec fn deleted_of(pairs: Seq<Fingerprint>, r: Seq<usize>, k: int) -> Set<int> {
    Set::new(|j: int| 0 <= j < pairs.len() && same_digest(pairs, j, k) && r.contains(j as usize))
}

/// Among the positions before `m` that carry the digest at `k`, the one kept
/// in preference to the others; -1 where there is none.
pub open spec fn best_before(pairs: Seq<Fingerprint>, modified: Seq<Option<Timestamp>>, tie: Seq<u64>, k: int, m: int) -> int
    decreases m,
{
    if m <= 0 {
        -1
    } else {
        let b = best_before(pairs, modified, tie, k, m - 1);
        if !same_digest(pairs, m - 1, k) {
            b
        } else if b < 0 || keeps_before(modified, tie, m - 1, b) {
            m - 1
        } else {
            b
        }
    }
}

proof fn lemma_best_before(pairs: Seq<Fingerprint>, modified: Seq<Option<Timestamp>>, tie: Seq<u64>, k: int, m: int)
    requires
        0 <= m <= pairs.len(),
        tie.len() == pairs.len(),
        distinct_keys(tie),
    ensures
        best_before(pairs, modified, tie, k, m) < m,
        best_before(pairs, modified, tie, k, m) >= 0 ==> same_digest(pairs, best_before(pairs, modified, tie, k, m), k),
        forall|j: int| 0 <= j < m && #[trigger] same_digest(pairs, j, k) ==> best_before(pairs, modified, tie, k, m) >= 0,
        forall|j: int| 0 <= j < m && j != best_before(pairs, modified, tie, k, m) && #[trigger] same_digest(pairs, j, k)
            ==> keeps_before(modified, tie, best_before(pairs, modified, tie, k, m), j),
    decreases m,
{
    if m > 0 {
        lemma_best_before(pairs, modified, tie, k, m - 1);
        let b = best_before(pairs, modified, tie, k, m - 1);
        let c = best_before(pairs, modified, tie, k, m);
        assert forall|j: int| 0 <= j < m && j != c && #[trigger] same_digest(pairs, j, k)
            implies keeps_before(modified, tie, c, j) by {
            if j < m - 1 {
                assert(b >= 0);
                if j != b {
                    assert(keeps_before(modified, tie, b, j));
                }
            }
        }
    }
}

/// A resolution deletes all members of a duplicate group but one.
pub proof fn lemma_one_survivor_per_group(
    pairs: Seq<Fingerprint>,
    modified: Seq<Option<Timestamp>>,
    tie: Seq<u64>,
    r: Seq<usize>,
    k: int,
)
    requires
        pairs.len() <= usize::MAX,
        tie.len() == pairs.len(),
        distinct_keys(tie),
        is_resolution(pairs, modified, tie, r),
        metadata_complete(pairs, modified),
        0 <= k < pairs.len(),
        is_duplicated(pairs, k),
    ensures
        group_of(pairs, k).finite(),
        deleted_of(pairs, r, k).len() + 1 == group_of(pairs, k).len(),
{
    let n = pairs.len() as int;
    lemma_best_before(pairs, modified, tie, k, n);
    let s = best_before(pairs, modified, tie, k, n);
    assert(same_digest(pairs, k, k));
    assert forall|j: int| 0 <= j < n && #[trigger] same_digest(pairs, j, k) implies is_duplicated(pairs, j) by {
        if j != k {
            assert(same_digest(pairs, j, k));
        } else {
            let w = choose|w: int| 0 <= w < n && w != k && #[trigger] same_digest(pairs, k, w);
            assert(same_digest(pairs, j, w));
        }
    }
    assert(is_survivor(pairs, modified, tie, s)) by {
        assert forall|j: int| 0 <= j < n && j != s && #[trigger] same_digest(pairs, s, j)
            implies keeps_before(modified, tie, s, j) by {
            assert(same_digest(pairs, j, k));
        }
    }
    assert(!is_deletable(pairs, modified, tie, s));
    assert(!r.contains(s as usize));
    assert forall|j: int| 0 <= j < n && j != s && #[trigger] same_digest(pairs, j, k)
        implies r.contains(j as usize) by {
        assert(keeps_before(modified, tie, s, j));
        assert(same_digest(pairs, j, s));
        assert(!keeps_before(modified, tie, j, s));
        assert(!is_survivor(pairs, modified, tie, j));
        assert(is_deletable(pairs, modified, tie, j));
    }
    assert(deleted_of(pairs, r, k) =~= group_of(pairs, k).remove(s));
    vstd::set_lib::lemma_int_range(0, n);
    vstd::set_lib::lemma_len_subset(group_of(pairs, k), vstd::set_lib::set_int_range(0, n));
    assert(group_of(pairs, k).contains(s));
}

/// Two resolutions of the same pairs and times delete the same files: the
/// same positions, as many of them, whatever the order of the groups.
pub proof fn lemma_resolution_unique(
    pairs: Seq<Fingerprint>,
    modified: Seq<Option<Timestamp>>,
    tie: Seq<u64>,
    r1: Seq<usize>,
    r2: Seq<usize>,
)
    requires
        is_resolution(pairs, modified, tie, r1),
        is_resolution(pairs, modified, tie, r2),
    ensures
        r1.to_set() == r2.to_set(),
        r1.len() == r2.len(),
{
    assert forall|x: usize| r1.to_set().contains(x) <==> r2.to_set().contains(x) by {
        if r1.contains(x) {
            let a = choose|a: int| 0 <= a < r1.len() && r1[a] == x;
            assert(r1[a] < pairs.len());
            assert(is_deletable(pairs, modified, tie, x as int));
        }
        if r2.contains(x) {
            let a = choose|a: int| 0 <= a < r2.len() && r2[a] == x;
            assert(r2[a] < pairs.len());
            assert(is_deletable(pairs, modified, tie, x as int));
        }
    }
    assert(r1.to_set() =~= r2.to_set());
    r1.unique_seq_to_set();
    r2.unique_seq_to_set();
}

/// `p` and `q` are mutually inverse permutations of `0..n`.
pub open spec fn is_permutation(p: Seq<int>, q: Seq<int>, n: int) -> bool {
    &&& p.len() == n
    &&& q.len() == n
    &&& forall|i: int| 0 <= i < n ==> 0 <= #[trigger] p[i] < n && q[p[i]] == i
    &&& forall|i: int| 0 <= i < n ==> 0 <= #[trigger] q[i] < n && p[q[i]] == i
}

/// The second list is the first one reordered: position `i` of the second
/// holds what position `p[i]` of the first holds.
pub open spec fn is_reordering(
    pairs1: Seq<Fingerprint>,
    modified1: Seq<Option<Timestamp>>,
    tie1: Seq<u64>,
    pairs2: Seq<Fingerprint>,
    modified2: Seq<Option<Timestamp>>,
    tie2: Seq<u64>,
    p: Seq<int>,
    q: Seq<int>,
) -> bool {
    &&& is_permutation(p, q, pairs1.len() as int)
    &&& pairs2.len() == pairs1.len()
    &&& modified1.len() == pairs1.len()
    &&& modified2.len() == pairs1.len()
    &&& tie1.len() == pairs1.len()
    &&& tie2.len() == pairs1.len()
    &&& forall|i: int| 0 <= i < pairs1.len() ==> {
            &&& #[trigger] pairs2[i] == pairs1[p[i]]
            &&& modified2[i] == modified1[p[i]]
            &&& tie2[i] == tie1[p[i]]
        }
}

/// The files named by the positions in `r`.
pub open spec fn deleted_files(pairs: Seq<Fingerprint>, r: Seq<usize>) -> Set<usize> {
    Set::new(|f: usize| exists|a: int| 0 <= a < r.len() && #[trigger] pairs[r[a] as int].file == f)
}

proof fn lemma_reordered_deletable(
    pairs1: Seq<Fingerprint>,
    modified1: Seq<Option<Timestamp>>,
    tie1: Seq<u64>,
    pairs2: Seq<Fingerprint>,
    modified2: Seq<Option<Timestamp>>,
    tie2: Seq<u64>,
    p: Seq<int>,
    q: Seq<int>,
    i: int,
)
    requires
        is_reordering(pairs1, modified1, tie1, pairs2, modified2, tie2, p, q),
        0 <= i < pairs1.len(),
    ensures
        is_deletable(pairs2, modified2, tie2, i) == is_deletable(pairs1, modified1, tie1, p[i]),
{
    let n = pairs1.len() as int;
    let pi = p[i];
    assert(pairs2[i] == pairs1[pi]);
    if is_duplicated(pairs2, i) {
        let j = choose|j: int| 0 <= j < n && j != i && #[trigger] same_digest(pairs2, i, j);
        assert(pairs2[j] == pairs1[p[j]]);
        assert(q[p[j]] == j);
        assert(same_digest(pairs1, pi, p[j]));
    }
    if is_duplicated(pairs1, pi) {
        let j = choose|j: int| 0 <= j < n && j != pi && #[trigger] same_digest(pairs1, pi, j);
        assert(pairs2[q[j]] == pairs1[p[q[j]]]);
        assert(same_digest(pairs2, i, q[j]));
    }
    if is_survivor(pairs2, modified2, tie2, i) {
        assert forall|j: int| 0 <= j < n && j != pi && #[trigger] same_digest(pairs1, pi, j)
            implies keeps_before(modified1, tie1, pi, j) by {
            let qj = q[j];
            assert(pairs2[qj] == pairs1[p[qj]]);
            assert(same_digest(pairs2, i, qj));
            assert(keeps_before(modified2, tie2, i, qj));
        }
    }
    if is_survivor(pairs1, modified1, tie1, pi) {
        assert forall|j: int| 0 <= j < n && j != i && #[trigger] same_digest(pairs2, i, j)
            implies keeps_before(modified2, tie2, i, j) by {
            assert(pairs2[j] == pairs1[p[j]]);
            assert(q[p[j]] == j);
            assert(same_digest(pairs1, pi, p[j]));
            assert(keeps_before(modified1, tie1, pi, p[j]));
        }
    }
}

/// The files to delete do not depend on the order of the pairs: resolving
/// a reordering of the same pairs, times and tie keys deletes the same files.
pub proof fn lemma_order_independent(
    pairs1: Seq<Fingerprint>,
    modified1: Seq<Option<Timestamp>>,
    tie1: Seq<u64>,
    r1: Seq<usize>,
    pairs2: Seq<Fingerprint>,
    modified2: Seq<Option<Timestamp>>,
    tie2: Seq<u64>,
    r2: Seq<usize>,
    p: Seq<int>,
    q: Seq<int>,
)
    requires
        pairs1.len() <= usize::MAX,
        is_reordering(pairs1, modified1, tie1, pairs2, modified2, tie2, p, q),
        is_resolution(pairs1, modified1, tie1, r1),
        is_resolution(pairs2, modified2, tie2, r2),
    ensures
        deleted_files(pairs1, r1) == deleted_files(pairs2, r2),
{
    let n = pairs1.len() as int;
    assert forall|f: usize| deleted_files(pairs1, r1).contains(f) implies deleted_files(pairs2, r2).contains(f) by {
        let a = choose|a: int| 0 <= a < r1.len() && #[trigger] pairs1[r1[a] as int].file == f;
        let k = r1[a] as int;
        assert(r1.contains(k as usize));
        assert(is_deletable(pairs1, modified1, tie1, k));
        let i = q[k];
        lemma_reordered_deletable(pairs1, modified1, tie1, pairs2, modified2, tie2, p, q, i);
        assert(is_deletable(pairs2, modified2, tie2, i));
        assert(r2.contains(i as usize));
        let b = choose|b: int| 0 <= b < r2.len() && r2[b] == i as usize;
        assert(pairs2[i] == pairs1[p[i]]);
        assert(pairs2[r2[b] as int].file == f);
    }
    assert forall|f: usize| deleted_files(pairs2, r2).contains(f) implies deleted_files(pairs1, r1).contains(f) by {
        let b = choose|b: int| 0 <= b < r2.len() && #[trigger] pairs2[r2[b] as int].file == f;
        let i = r2[b] as int;
        assert(r2.contains(i as usize));
        assert(is_deletable(pairs2, modified2, tie2, i));
        lemma_reordered_deletable(pairs1, modified1, tie1, pairs2, modified2, tie2, p, q, i);
        let k = p[i];
        assert(r1.contains(k as usize));
        let a = choose|a: int| 0 <= a < r1.len() && r1[a] == k as usize;
        assert(pairs2[i] == pairs1[k]);
        assert(pairs1[r1[a] as int].file == f);
    }
    assert(deleted_files(pairs1, r1) =~= deleted_files(pairs2, r2));
}

/// The positions at which a digest occurs first: one for each distinct digest.
pub open spec fn first_positions(pairs: Seq<Fingerprint>) -> Set<int> {
    Set::new(|k: int| 0 <= k < pairs.len() && is_first(pairs, k))
}

/// The first position that carries the digest at `k`.
pub open spec fn first_of(pairs: Seq<Fingerprint>, k: int) -> int {
    choose|f: int| 0 <= f < pairs.len() && is_first(pairs, f) && #[trigger] same_digest(pairs, f, k)
}

proof fn lemma_first_of(pairs: Seq<Fingerprint>, k: int)
    requires
        0 <= k < pairs.len(),
    ensures
        0 <= first_of(pairs, k) < pairs.len(),
        is_first(pairs, first_of(pairs, k)),
        same_digest(pairs, first_of(pairs, k), k),
        forall|f: int| 0 <= f < pairs.len() && is_first(pairs, f) && #[trigger] same_digest(pairs, f, k)
            ==> f == first_of(pairs, k),
{
    let n = pairs.len() as int;
    assert(same_digest(pairs, k, k));
    lemma_least(pairs, k, 0, n, k);
    let f = choose|f: int| 0 <= f <= k && #[trigger] same_digest(pairs, f, k)
        && forall|j: int| 0 <= j < f ==> !#[trigger] same_digest(pairs, j, k);
    assert forall|j: int| 0 <= j < f implies !#[trigger] same_digest(pairs, j, f) by {
        assert(!same_digest(pairs, j, k));
    }
    assert(is_first(pairs, f));
    let g = first_of(pairs, k);
    assert forall|h: int| 0 <= h < n && is_first(pairs, h) && #[trigger] same_digest(pairs, h, k)
        implies h == g by {
        if h < g {
            assert(same_digest(pairs, h, g));
        } else if g < h {
            assert(same_digest(pairs, g, h));
        }
    }
}

/// Every digest has a position kept in preference to all others with it.
proof fn lemma_survivor_exists(pairs: Seq<Fingerprint>, modified: Seq<Option<Timestamp>>, tie: Seq<u64>, k: int)
    requires
        tie.len() == pairs.len(),
        distinct_keys(tie),
        0 <= k < pairs.len(),
    ensures
        exists|s: int| 0 <= s < pairs.len() && #[trigger] same_digest(pairs, s, k)
            && is_survivor(pairs, modified, tie, s),
{
    let n = pairs.len() as int;
    assert(same_digest(pairs, k, k));
    lemma_best_before(pairs, modified, tie, k, n);
    let s = best_before(pairs, modified, tie, k, n);
    assert forall|j: int| 0 <= j < n && j != s && #[trigger] same_digest(pairs, s, j)
        implies keeps_before(modified, tie, s, j) by {
        assert(same_digest(pairs, j, k));
    }
    assert(same_digest(pairs, s, k));
}

/// The number of deletions is the number of pairs less the number of
/// distinct digests.
pub proof fn lemma_deletion_count(
    pairs: Seq<Fingerprint>,
    modified: Seq<Option<Timestamp>>,
    tie: Seq<u64>,
    r: Seq<usize>,
)
    requires
        pairs.len() <= usize::MAX,
        tie.len() == pairs.len(),
        distinct_keys(tie),
        is_resolution(pairs, modified, tie, r),
    ensures
        first_positions(pairs).finite(),
        r.len() + first_positions(pairs).len() == pairs.len(),
{
    let n = pairs.len() as int;
    let del = Set::new(|k: int| 0 <= k < n && is_deletable(pairs, modified, tie, k));
    let kept = Set::new(|k: int| 0 <= k < n && !is_deletable(pairs, modified, tie, k));
    let firsts = first_positions(pairs);
    let range = vstd::set_lib::set_int_range(0, n);
    vstd::set_lib::lemma_int_range(0, n);
    vstd::set_lib::lemma_len_subset(del, range);
    vstd::set_lib::lemma_len_subset(kept, range);
    vstd::set_lib::lemma_len_subset(firsts, range);
    assert(del + kept =~= range);
    assert(del.disjoint(kept));
    vstd::set_lib::lemma_set_disjoint_lens(del, kept);
    // the deletions, as a set of positions
    r.unique_seq_to_set();
    let to_int = |x: usize| x as int;
    assert(r.to_set().map(to_int) =~= del) by {
        assert forall|k: int| del.contains(k) implies r.to_set().map(to_int).contains(k) by {
            assert(r.contains(k as usize));
            assert(r.to_set().contains(k as usize));
            assert(to_int(k as usize) == k);
        }
        assert forall|k: int| r.to_set().map(to_int).contains(k) implies del.contains(k) by {
            let x = choose|x: usize| r.to_set().contains(x) && to_int(x) == k;
            let a = choose|a: int| 0 <= a < r.len() && r[a] == x;
            assert(r[a] < n);
            assert(r.contains((k as usize)));
        }
    }
    assert(vstd::relations::injective_on(to_int, r.to_set()));
    vstd::set_lib::lemma_map_size(r.to_set(), del, to_int);
    // the kept positions, one for each distinct digest
    let to_first = |k: int| first_of(pairs, k);
    assert(kept.map(to_first) =~= firsts) by {
        assert forall|f: int| kept.contains(f) implies firsts.contains(#[trigger] to_first(f)) by {
            lemma_first_of(pairs, f);
        }
        assert forall|f: int| firsts.contains(f) implies kept.map(to_first).contains(f) by {
            lemma_survivor_exists(pairs, modified, tie, f);
            let s = choose|s: int| 0 <= s < n && #[trigger] same_digest(pairs, s, f)
                && is_survivor(pairs, modified, tie, s);
            lemma_first_of(pairs, s);
            assert(same_digest(pairs, f, s));
            assert(f == first_of(pairs, s));
            assert(kept.contains(s));
            assert(to_first(s) == f);
        }
        assert forall|f: int| kept.map(to_first).contains(f) implies firsts.contains(f) by {
            let k = choose|k: int| kept.contains(k) && to_first(k) == f;
            lemma_first_of(pairs, k);
        }
    }
    assert(vstd::relations::injective_on(to_first, kept)) by {
        assert forall|a: int, b: int| kept.contains(a) && kept.contains(b) && #[trigger] to_first(a) == #[trigger] to_first(b)
            implies a == b by {
            lemma_first_of(pairs, a);
            lemma_first_of(pairs, b);
            if a != b {
                assert(same_digest(pairs, a, b));
                assert(same_digest(pairs, b, a));
                assert(is_duplicated(pairs, a));
                assert(is_duplicated(pairs, b));
                assert(keeps_before(modified, tie, a, b));
                assert(keeps_before(modified, tie, b, a));
                assert(tie[a] != tie[b]);
            }
        }
    }
    vstd::set_lib::lemma_map_size(kept, firsts, to_first);
}

} // verus!
