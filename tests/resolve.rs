use music_deduper::{
    collect_fingerprints, digest_frames, files_of, find_deletable, group_duplicates, Fingerprint,
    ResolveError,
};

fn ranks(n: usize) -> Vec<u64> {
    (0..n as u64).collect()
}

fn pair(file: usize, tag: u8) -> Fingerprint {
    Fingerprint { file, digest: [tag; 32] }
}

#[test]
fn newer_copy_survives() {
    // A.mp3, B.flac, C.mp3: B and C decode alike, C modified after B
    let a = digest_frames(&vec![b"first song".to_vec()]);
    let bc = digest_frames(&vec![b"second".to_vec(), b" song".to_vec()]);
    let pairs = collect_fingerprints(&vec![Ok(a), Ok(bc), Ok(bc)]);
    let modified = vec![Some(100), Some(200), Some(300)];
    let positions = find_deletable(&pairs, &modified, &ranks(pairs.len())).unwrap();
    assert_eq!(files_of(&pairs, &positions), vec![1]);
}

#[test]
fn tie_keeps_the_least_key() {
    let pairs = vec![pair(4, 1), pair(7, 1)];
    let modified = vec![Some(50), Some(50)];
    let positions = find_deletable(&pairs, &modified, &vec![9, 3]).unwrap();
    assert_eq!(positions, vec![0]);
    assert_eq!(files_of(&pairs, &positions), vec![4]);
}

#[test]
fn tie_does_not_depend_on_list_order() {
    let forward = vec![pair(4, 1), pair(7, 1)];
    let backward = vec![pair(7, 1), pair(4, 1)];
    let modified = vec![Some(50), Some(50)];
    let a = find_deletable(&forward, &modified, &vec![9, 3]).unwrap();
    let b = find_deletable(&backward, &modified, &vec![3, 9]).unwrap();
    assert_eq!(files_of(&forward, &a), vec![4]);
    assert_eq!(files_of(&backward, &b), vec![4]);
}

#[test]
fn permuted_list_deletes_the_same_files() {
    let pairs = vec![pair(0, 8), pair(1, 8), pair(2, 9), pair(3, 9), pair(4, 8)];
    let modified = vec![Some(3), Some(3), Some(1), Some(2), Some(2)];
    let tie = vec![10, 20, 30, 40, 50];
    let order = [4usize, 2, 0, 3, 1];
    let p: Vec<Fingerprint> = order.iter().map(|&i| pairs[i]).collect();
    let m: Vec<Option<i128>> = order.iter().map(|&i| modified[i]).collect();
    let t: Vec<u64> = order.iter().map(|&i| tie[i]).collect();
    let mut a = files_of(&pairs, &find_deletable(&pairs, &modified, &tie).unwrap());
    let mut b = files_of(&p, &find_deletable(&p, &m, &t).unwrap());
    a.sort();
    b.sort();
    assert_eq!(a, vec![1, 2, 4]);
    assert_eq!(a, b);
}

#[test]
fn deletions_total_pairs_minus_distinct_digests() {
    let pairs = vec![pair(0, 1), pair(1, 2), pair(2, 1), pair(3, 3), pair(4, 2), pair(5, 1)];
    let modified = vec![Some(1), Some(2), Some(3), Some(4), Some(5), Some(6)];
    let positions = find_deletable(&pairs, &modified, &ranks(pairs.len())).unwrap();
    assert_eq!(positions.len(), 6 - 3);
}

#[test]
fn empty_candidate_list() {
    let pairs = collect_fingerprints(&vec![]);
    assert_eq!(find_deletable(&pairs, &vec![], &vec![]), Ok(vec![]));
    assert!(group_duplicates(&pairs).is_empty());
}

#[test]
fn unique_files_are_never_deleted() {
    let pairs = vec![pair(0, 1), pair(1, 2), pair(2, 3)];
    let modified = vec![Some(1), Some(2), Some(3)];
    assert_eq!(find_deletable(&pairs, &modified, &ranks(pairs.len())), Ok(vec![]));
    assert!(group_duplicates(&pairs).is_empty());
}

#[test]
fn group_of_three_deletes_two_oldest_in_order() {
    let pairs = vec![pair(0, 5), pair(1, 6), pair(2, 5), pair(3, 5)];
    let modified = vec![Some(10), Some(99), Some(30), Some(-20)];
    assert_eq!(find_deletable(&pairs, &modified, &ranks(pairs.len())), Ok(vec![0, 3]));
}

#[test]
fn groups_hold_every_position_of_their_digest() {
    let pairs = vec![pair(0, 2), pair(1, 1), pair(2, 2), pair(3, 3), pair(4, 1), pair(5, 2)];
    assert_eq!(group_duplicates(&pairs), vec![vec![0, 2, 5], vec![1, 4]]);
}

#[test]
fn groups_follow_second_occurrence() {
    let pairs = vec![pair(0, 1), pair(1, 2), pair(2, 2), pair(3, 1), pair(4, 1)];
    assert_eq!(group_duplicates(&pairs), vec![vec![1, 2], vec![0, 3, 4]]);
}

#[test]
fn several_groups_resolved_independently() {
    let pairs = vec![pair(0, 2), pair(1, 1), pair(2, 2), pair(3, 3), pair(4, 1), pair(5, 2)];
    let modified = vec![Some(5), Some(1), Some(9), Some(0), Some(1), Some(7)];
    let positions = find_deletable(&pairs, &modified, &ranks(pairs.len())).unwrap();
    assert_eq!(positions, vec![0, 5, 4]);
}

#[test]
fn unreadable_time_of_a_duplicate_fails() {
    let pairs = vec![pair(10, 1), pair(11, 2), pair(12, 1)];
    let modified = vec![Some(1), Some(2), None];
    assert_eq!(
        find_deletable(&pairs, &modified, &ranks(pairs.len())),
        Err(ResolveError::MetadataReadFailed { file: 12 })
    );
}

#[test]
fn unreadable_time_of_a_unique_file_is_not_read() {
    let pairs = vec![pair(0, 1), pair(1, 2), pair(2, 1)];
    let modified = vec![Some(1), None, Some(3)];
    assert_eq!(find_deletable(&pairs, &modified, &ranks(pairs.len())), Ok(vec![0]));
}

#[test]
fn resolution_is_repeatable() {
    let pairs = vec![pair(0, 8), pair(1, 8), pair(2, 9), pair(3, 9), pair(4, 8)];
    let modified = vec![Some(3), Some(3), Some(1), Some(2), Some(2)];
    let first = find_deletable(&pairs, &modified, &ranks(pairs.len()));
    let second = find_deletable(&pairs, &modified, &ranks(pairs.len()));
    assert_eq!(first, second);
    assert_eq!(first, Ok(vec![1, 4, 2]));
}

#[test]
fn survivor_is_newest_and_group_loses_size_minus_one() {
    let pairs = vec![pair(0, 4), pair(1, 4), pair(2, 4), pair(3, 4)];
    let modified = vec![Some(7), Some(40), Some(13), Some(40)];
    let positions = find_deletable(&pairs, &modified, &ranks(pairs.len())).unwrap();
    assert_eq!(positions.len(), 3);
    assert!(!positions.contains(&1));
    assert_eq!(positions, vec![0, 2, 3]);
}
