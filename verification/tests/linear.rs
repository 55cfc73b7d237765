use nudb::linear::{bucket_index, compute_level_next, power};

#[test]
fn level_next_computation() {
    assert_eq!(compute_level_next(1), (0, 0));
    assert_eq!(compute_level_next(2), (1, 0));
    assert_eq!(compute_level_next(3), (1, 1));
    assert_eq!(compute_level_next(4), (2, 0));
    assert_eq!(compute_level_next(5), (2, 1));
    assert_eq!(compute_level_next(8), (3, 0));
}

#[test]
fn level_next_at_the_limits() {
    assert_eq!(compute_level_next(0), (0, 0));
    assert_eq!(compute_level_next(7), (2, 3));
    assert_eq!(compute_level_next(0x7fff_ffff_ffff_ffff), (62, 0x3fff_ffff_ffff_ffff));
    assert_eq!(compute_level_next(0x8000_0000_0000_0000), (63, 0));
}

#[test]
fn hashes_fall_in_split_buckets() {
    // Six buckets: the first two of four have been split.
    assert_eq!(bucket_index(2, 2, 0), 0);
    assert_eq!(bucket_index(2, 2, 4), 4);
    assert_eq!(bucket_index(2, 2, 5), 5);
    assert_eq!(bucket_index(2, 2, 9), 1);
    assert_eq!(bucket_index(2, 2, 6), 2);
    assert_eq!(bucket_index(2, 2, 7), 3);
    assert_eq!(bucket_index(0, 0, u64::MAX), 0);
}

#[test]
fn every_hash_stays_or_moves_to_the_new_bucket() {
    for buckets in 1..40u64 {
        let (level, next) = compute_level_next(buckets);
        let (new_level, new_next) = compute_level_next(buckets + 1);
        for hash in 0..500u64 {
            let before = bucket_index(level, next, hash);
            let after = bucket_index(new_level, new_next, hash);
            assert!(before < buckets);
            assert!(after == before || before == next && after == buckets);
        }
    }
}

#[test]
fn powers_of_two() {
    assert_eq!(power(0), 1);
    assert_eq!(power(10), 1024);
    assert_eq!(power(63), 0x8000_0000_0000_0000);
}
