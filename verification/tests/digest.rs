use deduplicator::digest::{compute_digest, fast_digest, strict_digest};
use deduplicator::fileinfo::FileInfo;

fn patterned_bytes(len: usize, mut state: u64) -> Vec<u8> {
    let mut out = Vec::with_capacity(len);
    for _ in 0..len {
        state ^= state << 13;
        state ^= state >> 7;
        state ^= state << 17;
        out.push((state & 0xff) as u8);
    }
    out
}

#[test]
fn hash_differentiates_between_a_file_of_null_bytes_vs_an_empty_file() {
    let seed: i64 = 246910456374;
    let empty_file = FileInfo::new(String::from("/t/empty_file.bin"), 0, 0);
    let null_file = FileInfo::new(String::from("/t/file_with_null_bytes.bin"), 1000 * 4096, 0);
    let empty_content: Vec<u8> = Vec::new();
    let null_content: Vec<u8> = vec![0u8; 1000 * 4096];

    assert_ne!(
        empty_file.hash(&empty_content, seed),
        null_file.hash(&null_content, seed)
    );
}

#[test]
fn empty_content_strict_digest_is_zero() {
    let empty: Vec<u8> = Vec::new();
    assert_eq!(strict_digest(&empty, 12345), 0);
    assert_eq!(strict_digest(&empty, -7), 0);
}

#[test]
fn strict_digest_reads_every_byte() {
    let a = patterned_bytes(282624, 11);
    let mut b = a.clone();
    let last = b.len() - 1;
    b[last] ^= 0x01;
    assert_eq!(strict_digest(&a, 300), strict_digest(&a.clone(), 300));
    assert_ne!(strict_digest(&a, 300), strict_digest(&b, 300));
}

#[test]
fn fast_digest_reads_only_the_initial_pages() {
    let prefix = patterned_bytes(16384, 21);
    let mut a = prefix.clone();
    let mut b = prefix.clone();
    a.extend(patterned_bytes(1720320, 31));
    b.extend(patterned_bytes(1720320, 41));

    let file_a = FileInfo::new(String::from("/t/a"), a.len() as u64, 0);
    let file_b = FileInfo::new(String::from("/t/b"), b.len() as u64, 0);
    assert_eq!(
        file_a.initpages_hash(&a, 300),
        file_b.initpages_hash(&b, 300)
    );
    assert_ne!(file_a.hash(&a, 300), file_b.hash(&b, 300));
}

#[test]
fn fast_digest_sees_prefix_differences() {
    let a = patterned_bytes(20000, 51);
    let mut b = a.clone();
    b[100] ^= 0xff;
    assert_ne!(fast_digest(&a, 300), fast_digest(&b, 300));
}

#[test]
fn digest_grouping_does_not_depend_on_the_seed() {
    let a = patterned_bytes(40960, 61);
    let b = a.clone();
    let c = patterned_bytes(40960, 71);

    for strict in [false, true] {
        let (s1, s2): (i64, i64) = (300, -123456789);
        let a1 = compute_digest(&a, strict, s1);
        let b1 = compute_digest(&b, strict, s1);
        let c1 = compute_digest(&c, strict, s1);
        let a2 = compute_digest(&a, strict, s2);
        let b2 = compute_digest(&b, strict, s2);
        let c2 = compute_digest(&c, strict, s2);
        assert_eq!(a1 == b1, a2 == b2);
        assert_eq!(a1 == c1, a2 == c2);
        assert_eq!(a1, b1);
        assert_ne!(a1, c1);
    }
}

#[test]
fn digests_differ_across_seeds() {
    let a = patterned_bytes(8192, 81);
    assert_ne!(strict_digest(&a, 1), strict_digest(&a, 2));
    assert_ne!(fast_digest(&a, 1), fast_digest(&a, 2));
}
