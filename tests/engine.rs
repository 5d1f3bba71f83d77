use music_deduper::{collect_fingerprints, find_deletable, FingerprintError};

#[test]
fn failed_files_are_dropped() {
    let outcomes = vec![
        Err(FingerprintError::ContainerOpenFailed),
        Ok([1u8; 32]),
        Err(FingerprintError::NoAudioStream),
        Ok([2u8; 32]),
        Err(FingerprintError::DecodeFailed),
    ];
    let pairs = collect_fingerprints(&outcomes);
    assert_eq!(pairs.len(), 2);
    assert_eq!(pairs[0].file, 1);
    assert_eq!(pairs[0].digest, [1u8; 32]);
    assert_eq!(pairs[1].file, 3);
    assert_eq!(pairs[1].digest, [2u8; 32]);
}

#[test]
fn file_without_audio_stream_gives_nothing() {
    let pairs = collect_fingerprints(&vec![Err(FingerprintError::NoAudioStream)]);
    assert!(pairs.is_empty());
    assert_eq!(find_deletable(&pairs, &vec![], &vec![]), Ok(vec![]));
}

#[test]
fn every_success_is_kept_in_order() {
    let outcomes = vec![Ok([9u8; 32]), Ok([9u8; 32]), Ok([0u8; 32])];
    let pairs = collect_fingerprints(&outcomes);
    let files: Vec<usize> = pairs.iter().map(|p| p.file).collect();
    assert_eq!(files, vec![0, 1, 2]);
}

#[test]
fn all_failures_give_empty_pairs() {
    let outcomes = vec![
        Err(FingerprintError::DecodeFailed),
        Err(FingerprintError::ContainerOpenFailed),
    ];
    assert!(collect_fingerprints(&outcomes).is_empty());
}
