use music_deduper::{digest_eq, digest_frames, Digest, Fingerprinter};

fn hex(d: &Digest) -> String {
    d.iter().map(|b| format!("{:02x}", b)).collect()
}

#[test]
fn digest_of_empty_input() {
    let d = digest_frames(&vec![]);
    assert_eq!(hex(&d), "af1349b9f5f9a1a6a0404dea36dcc9499bcb25c9adc112b7cc9a93cae41f3262");
}

#[test]
fn digest_of_abc() {
    let d = digest_frames(&vec![b"abc".to_vec()]);
    assert_eq!(hex(&d), "6437b3ac38465133ffb63b75273a8db548c558465d79db03fd359c6cd5bd9d85");
}

#[test]
fn digest_is_deterministic() {
    let frames = vec![vec![1u8, 2, 3], vec![4, 5], vec![]];
    assert_eq!(digest_frames(&frames), digest_frames(&frames));
}

#[test]
fn digest_ignores_frame_boundaries() {
    let a = digest_frames(&vec![b"ab".to_vec(), b"c".to_vec()]);
    let b = digest_frames(&vec![b"a".to_vec(), b"bc".to_vec()]);
    let c = digest_frames(&vec![b"abc".to_vec()]);
    assert_eq!(a, b);
    assert_eq!(a, c);
}

#[test]
fn digest_differs_on_one_byte() {
    let a = digest_frames(&vec![vec![0u8; 4096], vec![7, 8, 9]]);
    let b = digest_frames(&vec![vec![0u8; 4096], vec![7, 8, 10]]);
    assert_ne!(a, b);
    assert!(!digest_eq(&a, &b));
}

#[test]
fn fingerprinter_matches_digest_frames() {
    let mut fp = Fingerprinter::new();
    fp.update(&[1, 2, 3]);
    fp.update(&[]);
    fp.update(&[4]);
    assert_eq!(fp.finalize(), digest_frames(&vec![vec![1, 2, 3, 4]]));
    // finalizing does not end the input
    fp.update(&[5]);
    assert_eq!(fp.finalize(), digest_frames(&vec![vec![1, 2, 3, 4, 5]]));
}

#[test]
fn digest_eq_compares_every_byte() {
    let a = [3u8; 32];
    let mut b = a;
    assert!(digest_eq(&a, &b));
    b[31] = 4;
    assert!(!digest_eq(&a, &b));
    b[31] = 3;
    b[0] = 0;
    assert!(!digest_eq(&a, &b));
}
