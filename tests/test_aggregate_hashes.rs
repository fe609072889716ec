use hash_aggregator::aggregator;
use hash_aggregator::digest::{Digest, HASH_LENGTH_U64};
use hash_aggregator::shards::{self, THREAD_COUNT};

/// A deterministic pseudo-random sequence of limbs (xorshift64).
fn next_limb(state: &mut u64) -> u64 {
    let mut x = *state;
    x ^= x << 13;
    x ^= x >> 7;
    x ^= x << 17;
    *state = x;
    x
}

/// Digests with pseudo-random limbs, and their sum modulo 2^(64 * 63)
/// computed column by column in 128-bit arithmetic.
fn generate_data_point() -> (Vec<Digest>, Digest) {
    let mut state: u64 = 0x9E37_79B9_7F4A_7C15;
    let mut hashes: Vec<Digest> = Vec::new();
    for _ in 0..100 {
        let mut h = [0u64; HASH_LENGTH_U64];
        for limb in h.iter_mut() {
            *limb = next_limb(&mut state);
        }
        hashes.push(h);
    }
    let mut expected = [0u64; HASH_LENGTH_U64];
    let mut carry: u128 = 0;
    for i in 0..HASH_LENGTH_U64 {
        let mut column: u128 = carry;
        for h in &hashes {
            column += h[i] as u128;
        }
        expected[i] = column as u64;
        carry = column >> 64;
    }
    (hashes, expected)
}

fn digest_with(limbs: &[(usize, u64)]) -> Digest {
    let mut d = [0u64; HASH_LENGTH_U64];
    for &(i, v) in limbs {
        d[i] = v;
    }
    d
}

fn all_strategies(hashes: &[Digest]) -> Digest {
    let sequential = aggregator::aggregate_hashes(hashes);
    assert_eq!(sequential, aggregator::aggregate_hashes_by_parts(hashes));
    assert_eq!(sequential, shards::aggregate_hashes_by_shards(hashes, THREAD_COUNT));
    sequential
}

#[test]
fn test_aggregate_hashes_returns_correct_hash_sum() {
    let (hashes, expected) = generate_data_point();
    let res = aggregator::aggregate_hashes(&hashes);

    assert_eq!(
        res, expected,
        "Aggregating multiple hashes should return a correct hash sum"
    );
}

#[test]
fn test_aggregate_by_parts_returns_correct_hash_sum() {
    let (hashes, expected) = generate_data_point();
    let res = aggregator::aggregate_hashes_by_parts(&hashes);

    assert_eq!(
        res, expected,
        "Aggregating multiple hashes should return a correct hash sum"
    );
}

#[test]
fn test_parallel_aggregate_by_parts_returns_correct_hash_sum() {
    let (hashes, expected) = generate_data_point();
    let res = shards::aggregate_hashes_by_shards(&hashes, THREAD_COUNT);

    assert_eq!(
        res, expected,
        "Aggregating multiple hashes should return a correct hash sum"
    );
}

#[test]
fn strategies_agree_for_every_shard_count() {
    let (hashes, expected) = generate_data_point();
    for thread_count in [1usize, 2, 3, 4, 7, 62, 63, 64, 100] {
        assert_eq!(shards::aggregate_hashes_by_shards(&hashes, thread_count), expected);
    }
    assert_eq!(all_strategies(&hashes), expected);
}

#[test]
fn empty_collection_gives_zero_digest() {
    let hashes: Vec<Digest> = Vec::new();
    assert_eq!(all_strategies(&hashes), [0u64; HASH_LENGTH_U64]);
}

#[test]
fn single_digest_is_returned_unchanged() {
    let (hashes, _) = generate_data_point();
    let single = vec![hashes[0]];
    assert_eq!(all_strategies(&single), hashes[0]);
}

#[test]
fn order_of_digests_does_not_matter() {
    let (hashes, expected) = generate_data_point();
    let mut reordered = hashes.clone();
    reordered.reverse();
    reordered.swap(3, 40);
    assert_eq!(all_strategies(&reordered), expected);
}

#[test]
fn copies_of_small_digest_multiply() {
    let d = digest_with(&[(0, 2)]);
    let hashes = vec![d, d, d];
    assert_eq!(all_strategies(&hashes), digest_with(&[(0, 6)]));
}

#[test]
fn copies_of_large_digest_carry_into_limb_one() {
    let d = digest_with(&[(0, u64::MAX)]);
    let hashes = vec![d, d, d];
    assert_eq!(all_strategies(&hashes), digest_with(&[(0, u64::MAX - 2), (1, 2)]));
}

#[test]
fn single_limb_overflow_propagates() {
    let hashes = vec![digest_with(&[(0, u64::MAX)]), digest_with(&[(0, 1)])];
    assert_eq!(all_strategies(&hashes), digest_with(&[(1, 1)]));
}

#[test]
fn carry_crosses_shard_boundary() {
    let last_of_first_shard = HASH_LENGTH_U64 / THREAD_COUNT - 1;
    let hashes = vec![
        digest_with(&[(last_of_first_shard, u64::MAX)]),
        digest_with(&[(last_of_first_shard, 1)]),
    ];
    let expected = digest_with(&[(last_of_first_shard + 1, 1)]);
    assert_eq!(all_strategies(&hashes), expected);
}

#[test]
fn carry_ripples_through_every_limb() {
    let hashes = vec![[u64::MAX; HASH_LENGTH_U64], digest_with(&[(0, 1)])];
    assert_eq!(all_strategies(&hashes), [0u64; HASH_LENGTH_U64]);
}

#[test]
fn most_significant_overflow_is_discarded() {
    let top = HASH_LENGTH_U64 - 1;
    let hashes = vec![
        digest_with(&[(top, u64::MAX), (0, 5)]),
        digest_with(&[(top, 2)]),
    ];
    assert_eq!(all_strategies(&hashes), digest_with(&[(top, 1), (0, 5)]));
}

#[test]
fn column_fold_counts_wraparounds() {
    let hashes = vec![
        digest_with(&[(4, u64::MAX)]),
        digest_with(&[(4, u64::MAX)]),
        digest_with(&[(4, 3)]),
    ];
    assert_eq!(aggregator::append_hashes_by_parts(&hashes, 4, 0), (1, 2));
    assert_eq!(aggregator::append_hashes_by_parts(&hashes, 4, 7), (8, 2));
    assert_eq!(aggregator::append_hashes_by_parts(&hashes, 5, 9), (9, 0));
    let none: Vec<Digest> = Vec::new();
    assert_eq!(aggregator::append_hashes_by_parts(&none, 0, 11), (11, 0));
}

#[test]
fn shard_bounds_partition_the_limbs() {
    assert_eq!(shards::shard_bounds(3, 0), (0, 21));
    assert_eq!(shards::shard_bounds(3, 1), (21, 42));
    assert_eq!(shards::shard_bounds(3, 2), (42, 63));
    assert_eq!(shards::shard_bounds(5, 3), (36, 48));
    assert_eq!(shards::shard_bounds(5, 4), (48, 63));
    assert_eq!(shards::shard_bounds(1, 0), (0, 63));
    assert_eq!(shards::shard_bounds(100, 50), (0, 0));
    assert_eq!(shards::shard_bounds(100, 99), (0, 63));
}

#[test]
fn shard_fold_starts_each_limb_without_carry() {
    let hashes = vec![
        digest_with(&[(21, u64::MAX), (22, 4)]),
        digest_with(&[(21, 2), (22, 5)]),
    ];
    let (sums, carries) = shards::aggregate_shard(&hashes, 21, 24);
    assert_eq!(sums, vec![1, 9, 0]);
    assert_eq!(carries, vec![1, 0, 0]);
}

#[test]
fn ripple_adds_carries_and_extra_overflow() {
    let mut sums = vec![0u64; HASH_LENGTH_U64];
    let mut carries = vec![0u64; HASH_LENGTH_U64];
    sums[0] = 10;
    carries[0] = 3;
    sums[1] = u64::MAX - 1;
    carries[1] = 5;
    let res = shards::ripple_carries(&sums, &carries).unwrap();
    assert_eq!(res, digest_with(&[(0, 10), (1, 1), (2, 6)]));
}

#[test]
fn ripple_fails_when_a_carry_exhausts_its_counter() {
    let mut sums = vec![0u64; HASH_LENGTH_U64];
    let mut carries = vec![0u64; HASH_LENGTH_U64];
    sums[0] = 1;
    carries[0] = u64::MAX;
    sums[1] = u64::MAX;
    carries[1] = u64::MAX;
    assert_eq!(shards::ripple_carries(&sums, &carries), None);
}

#[test]
fn ripple_discards_carry_out_of_top_limb() {
    let top = HASH_LENGTH_U64 - 1;
    let mut sums = vec![0u64; HASH_LENGTH_U64];
    let mut carries = vec![0u64; HASH_LENGTH_U64];
    carries[top - 1] = 1;
    sums[top] = u64::MAX;
    carries[top] = u64::MAX;
    assert_eq!(shards::ripple_carries(&sums, &carries), Some([0u64; HASH_LENGTH_U64]));
}
