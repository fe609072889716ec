//! The sharded column strategy: limb positions are split into contiguous
//! shards, each shard is folded with no incoming carry, and a single ordered
//! pass then ripples the true carries across all limb positions.
use crate::aggregator::append_hashes_by_parts;
use crate::digest::{
    aggregate_of, column_sum, lemma_column_sum_bounds, digest_modulus, lemma_limbs_of_value, lemma_low_limbs_full, lemma_low_limbs_none,
    lemma_low_limbs_step, lemma_mod_from_carry, lemma_take_full, lemma_value_bounds,
    lemma_value_take_step, limb_base, limbs_of, limbs_value, low_limbs_total, total_value, Digest,
    HASH_LENGTH_U64,
};
use vstd::arithmetic::div_mod::{
    lemma_fundamental_div_mod, lemma_fundamental_div_mod_converse, lemma_mod_pos_bound,
};
use vstd::arithmetic::power::*;
use vstd::prelude::*;

verus! {

/// Number of shards, and of workers, used by default.
pub const THREAD_COUNT: usize = 3;

/// Number of limb positions in every shard but the last.
pub open spec fn shard_size(thread_count: int) -> int {
    HASH_LENGTH_U64 as int / thread_count
}

/// First limb position of shard `i` among `thread_count`.
pub open spec fn shard_start(thread_count: int, i: int) -> int {
    shard_size(thread_count) * i
}

/// One past the last limb position of shard `i`; the last shard takes the
/// remainder of the division.
pub open spec fn shard_end(thread_count: int, i: int) -> int {
    if i == thread_count - 1 {
        HASH_LENGTH_U64 as int
    } else {
        shard_size(thread_count) * (i + 1)
    }
}

/// The carry that flows into limb position `i` when the per-position sums
/// `sums[j] + carries[j] * 2^64` are rippled from position 0 upward.
pub open spec fn carry_into(sums: Seq<u64>, carries: Seq<u64>, i: int) -> int
    decreases i,
{
    if i <= 0 {
        0
    } else {
        (sums[i - 1] + carry_into(sums, carries, i - 1)) / limb_base() + carries[i - 1] as int
    }
}

/// Every carry that rippling feeds into a limb position fits in 64 bits.
pub open spec fn carries_fit(sums: Seq<u64>, carries: Seq<u64>) -> bool {
    forall|i: int|
        1 <= i < HASH_LENGTH_U64 ==> #[trigger] carry_into(sums, carries, i) <= u64::MAX
}

/// The shards split `[0, HASH_LENGTH_U64)` into ordered, contiguous, disjoint
/// ranges that cover it exactly.
pub proof fn lemma_shards_partition(thread_count: int)
    requires
        thread_count >= 1,
    ensures
        shard_start(thread_count, 0) == 0,
        shard_end(thread_count, thread_count - 1) == HASH_LENGTH_U64,
        forall|i: int|
            0 <= i < thread_count - 1 ==> #[trigger] shard_end(thread_count, i) == shard_start(
                thread_count,
                i + 1,
            ),
        forall|i: int|
            0 <= i < thread_count ==> 0 <= #[trigger] shard_start(thread_count, i) <= shard_end(
                thread_count,
                i,
            ) <= HASH_LENGTH_U64,
{
    assert forall|i: int| 0 <= i < thread_count implies 0 <= #[trigger] shard_start(
        thread_count,
        i,
    ) <= shard_end(thread_count, i) <= HASH_LENGTH_U64 by {
        lemma_shard_bounds(thread_count, i);
    }
}

/// Every shard lies within the limb positions, its start before its end.
proof fn lemma_shard_bounds(thread_count: int, i: int)
    requires
        thread_count >= 1,
        0 <= i < thread_count,
    ensures
        0 <= shard_start(thread_count, i) <= shard_end(thread_count, i) <= HASH_LENGTH_U64,
{
    let q = shard_size(thread_count);
    lemma_shard_size_bound(thread_count);
    assert(0 <= q * i <= q * (i + 1) <= HASH_LENGTH_U64) by (nonlinear_arith)
        requires
            q >= 0,
            q * thread_count <= HASH_LENGTH_U64,
            0 <= i < thread_count,
    ;
}

/// All shards but the last together hold no more than all limb positions.
proof fn lemma_shard_size_bound(thread_count: int)
    requires
        thread_count >= 1,
    ensures
        shard_size(thread_count) >= 0,
        shard_size(thread_count) * thread_count <= HASH_LENGTH_U64,
{
    let w = HASH_LENGTH_U64 as int;
    assert(shard_size(thread_count) * thread_count <= w) by (nonlinear_arith)
        requires
            thread_count >= 1,
            shard_size(thread_count) == w / thread_count,
            w >= 0,
    ;
}

/// The limb range `[start, end)` of shard `i` among `thread_count`.
pub fn shard_bounds(thread_count: usize, i: usize) -> (r: (usize, usize))
    requires
        thread_count >= 1,
        i < thread_count,
    ensures
        r.0 == shard_start(thread_count as int, i as int),
        r.1 == shard_end(thread_count as int, i as int),
        r.0 <= r.1 <= HASH_LENGTH_U64,
{
    proof {
        lemma_shard_bounds(thread_count as int, i as int);
    }
    let size_per_thread = HASH_LENGTH_U64 / thread_count;
    let start = size_per_thread * i;
    let end = if i == thread_count - 1 {
        HASH_LENGTH_U64
    } else {
        start + size_per_thread
    };
    proof {
        assert(size_per_thread * (i + 1) == start + size_per_thread) by (nonlinear_arith)
            requires
                start == size_per_thread * i,
        ;
    }
    (start, end)
}

/// Folds each limb position of `[start, end)` over all digests with no
/// incoming carry. Entry `j` of the two results is the wrapped sum and the
/// overflow count of position `start + j`.
pub fn aggregate_shard(hashes: &[Digest], start: usize, end: usize) -> (r: (Vec<u64>, Vec<u64>))
    requires
        start <= end <= HASH_LENGTH_U64,
    ensures
        r.0@.len() == end - start,
        r.1@.len() == end - start,
        forall|j: int|
            0 <= j < end - start ==> #[trigger] r.0@[j] + r.1@[j] * limb_base() == column_sum(
                hashes@,
                start + j,
            ),
        forall|j: int| 0 <= j < end - start ==> #[trigger] r.1@[j] <= hashes@.len(),
{
    let mut sums: Vec<u64> = Vec::new();
    let mut carries: Vec<u64> = Vec::new();
    let mut index: usize = start;
    while index < end
        invariant
            start <= index <= end <= HASH_LENGTH_U64,
            sums@.len() == index - start,
            carries@.len() == index - start,
            forall|j: int|
                0 <= j < index - start ==> #[trigger] sums@[j] + carries@[j] * limb_base()
                    == column_sum(hashes@, start + j),
            forall|j: int| 0 <= j < index - start ==> #[trigger] carries@[j] <= hashes@.len(),
        decreases end - index,
    {
        let (sum, carry_out) = append_hashes_by_parts(hashes, index, 0);
        sums.push(sum);
        carries.push(carry_out);
        index += 1;
    }
    (sums, carries)
}

/// Sums all digests by splitting the limb positions into `thread_count`
/// shards, folding every shard with no incoming carry, and rippling the
/// carries afterwards; the shards are folded one after another. The result
/// equals that of [`crate::aggregator::aggregate_hashes`].
pub fn aggregate_hashes_by_shards(hashes: &[Digest], thread_count: usize) -> (res: Digest)
    requires
        thread_count >= 1,
    ensures
        res@ == aggregate_of(hashes@),
{
    let mut sums: Vec<u64> = Vec::new();
    let mut carries: Vec<u64> = Vec::new();
    proof {
        lemma_shards_partition(thread_count as int);
    }
    let mut i: usize = 0;
    while i < thread_count
        invariant
            thread_count >= 1,
            0 <= i <= thread_count,
            sums@.len() == carries@.len(),
            sums@.len() == (if i == 0 {
                0
            } else {
                shard_end(thread_count as int, i - 1)
            }),
            forall|j: int|
                0 <= j < sums@.len() ==> #[trigger] sums@[j] + carries@[j] * limb_base()
                    == column_sum(hashes@, j),
        decreases thread_count - i,
    {
        let (start, end) = shard_bounds(thread_count, i);
        proof {
            lemma_shards_partition(thread_count as int);
            if i > 0 {
                assert(shard_end(thread_count as int, i - 1) == shard_start(
                    thread_count as int,
                    i as int,
                ));
            }
        }
        let (part_sums, part_carries) = aggregate_shard(hashes, start, end);
        let mut j: usize = 0;
        while j < part_sums.len()
            invariant
                part_sums@.len() == end - start,
                part_carries@.len() == end - start,
                0 <= j <= end - start,
                sums@.len() == start + j,
                carries@.len() == start + j,
                forall|m: int|
                    0 <= m < end - start ==> #[trigger] part_sums@[m] + part_carries@[m]
                        * limb_base() == column_sum(hashes@, start + m),
                forall|m: int|
                    0 <= m < sums@.len() ==> #[trigger] sums@[m] + carries@[m] * limb_base()
                        == column_sum(hashes@, m),
            decreases end - start - j,
        {
            sums.push(part_sums[j]);
            carries.push(part_carries[j]);
            proof {
                assert(sums@[start + j] + carries@[start + j] * limb_base() == column_sum(
                    hashes@,
                    start + j,
                ));
            }
            j += 1;
        }
        i += 1;
    }
    proof {
        assert(hashes.len() == hashes@.len());
        lemma_ripple_gives_aggregate(hashes@, sums@, carries@);
    }
    match ripple_carries(&sums, &carries) {
        Some(d) => d,
        None => {
            proof {
                assert(false);
            }
            [0u64; HASH_LENGTH_U64]
        },
    }
}

/// Partial sums that make up the column sum of every limb position, as those of
/// [`aggregate_shard`] do, ripple into the aggregate of the digests, and no
/// carry along the way overflows 64 bits.
pub proof fn lemma_ripple_gives_aggregate(hs: Seq<Digest>, sums: Seq<u64>, carries: Seq<u64>)
    requires
        hs.len() <= u64::MAX,
        sums.len() == HASH_LENGTH_U64,
        carries.len() == HASH_LENGTH_U64,
        forall|i: int|
            0 <= i < HASH_LENGTH_U64 ==> #[trigger] sums[i] + carries[i] * limb_base()
                == column_sum(hs, i),
    ensures
        carries_fit(sums, carries),
        limbs_of(
            (limbs_value(sums) + limb_base() * limbs_value(carries)) % digest_modulus(),
            HASH_LENGTH_U64 as nat,
        ) == aggregate_of(hs),
{
    assert forall|i: int| 1 <= i < HASH_LENGTH_U64 implies #[trigger] carry_into(
        sums,
        carries,
        i,
    ) <= u64::MAX by {
        lemma_carry_into_bound(hs, sums, carries, i);
    }
    lemma_partial_sums_value(hs, sums, carries, HASH_LENGTH_U64 as int);
    lemma_take_full(sums);
    lemma_take_full(carries);
    lemma_low_limbs_full(hs);
}

/// The carry into any limb position is at most the number of digests.
proof fn lemma_carry_into_bound(hs: Seq<Digest>, sums: Seq<u64>, carries: Seq<u64>, i: int)
    requires
        sums.len() == HASH_LENGTH_U64,
        carries.len() == HASH_LENGTH_U64,
        0 <= i <= HASH_LENGTH_U64,
        forall|j: int|
            0 <= j < HASH_LENGTH_U64 ==> #[trigger] sums[j] + carries[j] * limb_base()
                == column_sum(hs, j),
    ensures
        0 <= carry_into(sums, carries, i) <= hs.len(),
    decreases i,
{
    if i > 0 {
        lemma_carry_into_bound(hs, sums, carries, i - 1);
        let k = carry_into(sums, carries, i - 1);
        let x = sums[i - 1] + k;
        let b = limb_base();
        lemma_fundamental_div_mod(x, b);
        lemma_mod_pos_bound(x, b);
        lemma_column_sum_bounds(hs, i - 1);
        let q = x / b;
        let r = x % b;
        let c = carries[i - 1] as int;
        let n = hs.len() as int;
        assert(0 <= q + c <= n) by (nonlinear_arith)
            requires
                x == b * q + r,
                0 <= r < b,
                0 <= x,
                0 <= c,
                b > 1,
                0 <= k <= n,
                x == sums[i - 1] + k,
                sums[i - 1] + c * b <= n * (b - 1),
        ;
    }
}

/// The partial sums of the `i` low positions stand for the `i` low limbs of
/// every digest, summed.
proof fn lemma_partial_sums_value(hs: Seq<Digest>, sums: Seq<u64>, carries: Seq<u64>, i: int)
    requires
        sums.len() == HASH_LENGTH_U64,
        carries.len() == HASH_LENGTH_U64,
        0 <= i <= HASH_LENGTH_U64,
        forall|j: int|
            0 <= j < HASH_LENGTH_U64 ==> #[trigger] sums[j] + carries[j] * limb_base()
                == column_sum(hs, j),
    ensures
        limbs_value(sums.take(i)) + limb_base() * limbs_value(carries.take(i))
            == low_limbs_total(hs, i),
    decreases i,
{
    if i == 0 {
        assert(sums.take(0) =~= Seq::<u64>::empty());
        assert(carries.take(0) =~= Seq::<u64>::empty());
        lemma_low_limbs_none(hs);
    } else {
        lemma_partial_sums_value(hs, sums, carries, i - 1);
        lemma_value_take_step(sums, i - 1);
        lemma_value_take_step(carries, i - 1);
        lemma_low_limbs_step(hs, i - 1);
        let p = pow(limb_base(), (i - 1) as nat);
        reveal_with_fuel(pow, 2);
        let vs = limbs_value(sums.take(i - 1));
        let vc = limbs_value(carries.take(i - 1));
        let s = sums[i - 1] as int;
        let c = carries[i - 1] as int;
        assert(vs + s * p + limb_base() * (vc + c * p) == vs + limb_base() * vc + (s + c
            * limb_base()) * p) by (nonlinear_arith);
    }
}

/// Ripples the carries across per-position partial sums, from position 0
/// upward: position `i` gets `sums[i]` plus the carry flowing in, wrapped, and
/// passes on `carries[i]` plus one if that addition wrapped. The carry out of
/// the most significant position is discarded. Returns `None` exactly when a
/// carry that must flow into a position does not fit in 64 bits.
pub fn ripple_carries(sums: &[u64], carries: &[u64]) -> (r: Option<Digest>)
    requires
        sums@.len() == HASH_LENGTH_U64,
        carries@.len() == HASH_LENGTH_U64,
    ensures
        r is Some <==> carries_fit(sums@, carries@),
        r matches Some(d) ==> d@ == limbs_of(
            (limbs_value(sums@) + limb_base() * limbs_value(carries@)) % digest_modulus(),
            HASH_LENGTH_U64 as nat,
        ),
{
    let mut res: Digest = [0u64; HASH_LENGTH_U64];
    let mut carry: u64 = 0;
    let ghost mut next: int = 0;
    proof {
        assert(res@.take(0) =~= Seq::<u64>::empty());
        assert(sums@.take(0) =~= Seq::<u64>::empty());
        assert(carries@.take(0) =~= Seq::<u64>::empty());
    }
    let mut index: usize = 0;
    while index < HASH_LENGTH_U64
        invariant
            sums@.len() == HASH_LENGTH_U64,
            carries@.len() == HASH_LENGTH_U64,
            0 <= index <= HASH_LENGTH_U64,
            next == carry_into(sums@, carries@, index as int),
            index < HASH_LENGTH_U64 ==> next == carry as int,
            forall|j: int|
                1 <= j <= index && j < HASH_LENGTH_U64 ==> #[trigger] carry_into(
                    sums@,
                    carries@,
                    j,
                ) <= u64::MAX,
            limbs_value(res@.take(index as int)) + next * pow(limb_base(), index as nat)
                == limbs_value(sums@.take(index as int)) + limb_base() * limbs_value(
                carries@.take(index as int),
            ),
        decreases HASH_LENGTH_U64 - index,
    {
        let ghost before = res@;
        let ghost carry_in = carry;
        let s = sums[index];
        let c = carries[index];
        let sum = s.wrapping_add(carry);
        let overflow: u64 = if sum < s {
            1
        } else {
            0
        };
        res[index] = sum;
        proof {
            let ii = index as int;
            assert(sum + overflow * limb_base() == s + carry_in);
            lemma_fundamental_div_mod_converse(
                s + carry_in,
                limb_base(),
                overflow as int,
                sum as int,
            );
            assert(res@.take(ii) =~= before.take(ii));
            lemma_value_take_step(res@, ii);
            lemma_value_take_step(sums@, ii);
            lemma_value_take_step(carries@, ii);
            let p = pow(limb_base(), index as nat);
            reveal_with_fuel(pow, 2);
            assert(pow(limb_base(), (index + 1) as nat) == limb_base() * p);
            let vr = limbs_value(before.take(ii));
            let vs = limbs_value(sums@.take(ii));
            let vc = limbs_value(carries@.take(ii));
            assert(res@[ii] == sum);
            assert(vr + sum * p + (c + overflow) * (limb_base() * p) == vs + s * p + limb_base()
                * (vc + c * p)) by (nonlinear_arith)
                requires
                    sum + overflow * limb_base() == s + carry_in,
                    vr + carry_in * p == vs + limb_base() * vc,
            ;
            next = c + overflow;
        }
        if index + 1 < HASH_LENGTH_U64 {
            match c.checked_add(overflow) {
                Some(v) => {
                    carry = v;
                },
                None => {
                    proof {
                        assert(!carries_fit(sums@, carries@)) by {
                            assert(carry_into(sums@, carries@, index + 1) > u64::MAX);
                        }
                    }
                    return None;
                },
            }
        }
        index += 1;
    }
    proof {
        lemma_take_full(res@);
        lemma_take_full(sums@);
        lemma_take_full(carries@);
        lemma_value_bounds(res@);
        lemma_mod_from_carry(
            limbs_value(sums@) + limb_base() * limbs_value(carries@),
            limbs_value(res@),
            next,
            digest_modulus(),
        );
        lemma_limbs_of_value(res@);
    }
    Some(res)
}

} // verus!
