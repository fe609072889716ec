//! The aggregation strategies.
use crate::digest::{
    aggregate_of, column_sum, digest_modulus, lemma_column_take_step, lemma_limbs_of_value,
    lemma_low_limbs_full, lemma_low_limbs_none, lemma_low_limbs_step, lemma_mod_add_reduced,
    lemma_mod_from_carry, lemma_take_full, lemma_total_take_step, lemma_value_bounds,
    lemma_value_take_step, lemma_zero_value, limb_base, limbs_value, low_limbs_total, total_value,
    Digest, HASH_LENGTH_U64,
};
use vstd::arithmetic::power::*;
use vstd::prelude::*;

verus! {

/// Sums all digests, one digest at a time, modulo 2^(64 * HASH_LENGTH_U64).
/// An empty collection gives the all-zero digest.
pub fn aggregate_hashes(hashes: &[Digest]) -> (res: Digest)
    ensures
        res@ == aggregate_of(hashes@),
{
    let mut res: Digest = [0u64; HASH_LENGTH_U64];
    proof {
        assert(res@ =~= Seq::new(HASH_LENGTH_U64 as nat, |j: int| 0u64));
        lemma_zero_value(res@);
        assert(hashes@.take(0) =~= Seq::<Digest>::empty());
        lemma_pow_positive(limb_base(), HASH_LENGTH_U64 as nat);
    }
    let mut k: usize = 0;
    while k < hashes.len()
        invariant
            0 <= k <= hashes.len(),
            limbs_value(res@) == total_value(hashes@.take(k as int)) % digest_modulus(),
        decreases hashes.len() - k,
    {
        append_hash(&mut res, &hashes[k]);
        proof {
            lemma_total_take_step(hashes@, k as int);
            lemma_value_bounds(hashes@[k as int]@);
            lemma_mod_add_reduced(
                total_value(hashes@.take(k as int)),
                limbs_value(hashes@[k as int]@),
                digest_modulus(),
            );
        }
        k += 1;
    }
    proof {
        assert(hashes@.take(hashes@.len() as int) =~= hashes@);
        lemma_limbs_of_value(res@);
    }
    res
}

/// Sums all digests limb position by limb position, lowest first, feeding the
/// overflow count of each position into the next; the result equals that of
/// [`aggregate_hashes`].
pub fn aggregate_hashes_by_parts(hashes: &[Digest]) -> (res: Digest)
    ensures
        res@ == aggregate_of(hashes@),
{
    let mut res: Digest = [0u64; HASH_LENGTH_U64];
    let mut carry: u64 = 0;
    proof {
        lemma_low_limbs_none(hashes@);
        assert(res@.take(0) =~= Seq::<u64>::empty());
    }
    let mut index: usize = 0;
    while index < HASH_LENGTH_U64
        invariant
            0 <= index <= HASH_LENGTH_U64,
            limbs_value(res@.take(index as int)) + carry * pow(limb_base(), index as nat)
                == low_limbs_total(hashes@, index as int),
        decreases HASH_LENGTH_U64 - index,
    {
        let ghost before = res@;
        let ghost carry_in = carry;
        let (sum, carry_out) = append_hashes_by_parts(hashes, index, carry);
        res[index] = sum;
        carry = carry_out;
        proof {
            let ii = index as int;
            assert(res@.take(ii) =~= before.take(ii));
            lemma_value_take_step(res@, ii);
            lemma_low_limbs_step(hashes@, ii);
            let p = pow(limb_base(), index as nat);
            reveal_with_fuel(pow, 2);
            assert(pow(limb_base(), (index + 1) as nat) == limb_base() * p);
            let vb = limbs_value(before.take(ii));
            let col = column_sum(hashes@, ii);
            let low = low_limbs_total(hashes@, ii);
            assert(res@[ii] == sum);
            assert(vb + sum * p + carry * (limb_base() * p) == low + col * p)
                by (nonlinear_arith)
                requires
                    sum + carry * limb_base() == carry_in + col,
                    vb + carry_in * p == low,
            ;
        }
        index += 1;
    }
    proof {
        lemma_take_full(res@);
        lemma_low_limbs_full(hashes@);
        lemma_value_bounds(res@);
        lemma_mod_from_carry(
            total_value(hashes@),
            limbs_value(res@),
            carry as int,
            digest_modulus(),
        );
        lemma_limbs_of_value(res@);
    }
    res
}

/// Folds limb `idx` of every digest onto `carry_sum`, with wrapping addition.
/// Returns the final limb value and the number of wraparounds, which together
/// make up the exact sum. The count never exceeds the number of digests, so it
/// always fits in 64 bits and the fold cannot fail.
pub fn append_hashes_by_parts(hashes: &[Digest], idx: usize, carry_sum: u64) -> (r: (u64, u64))
    requires
        idx < HASH_LENGTH_U64,
    ensures
        r.0 + r.1 * limb_base() == carry_sum + column_sum(hashes@, idx as int),
        r.1 <= hashes@.len(),
{
    let mut sum: u64 = carry_sum;
    let mut carry: u64 = 0;
    let mut k: usize = 0;
    proof {
        assert(hashes@.take(0) =~= Seq::<Digest>::empty());
    }
    while k < hashes.len()
        invariant
            idx < HASH_LENGTH_U64,
            0 <= k <= hashes.len(),
            carry <= k,
            sum + carry * limb_base() == carry_sum + column_sum(
                hashes@.take(k as int),
                idx as int,
            ),
        decreases hashes.len() - k,
    {
        let limb = hashes[k][idx];
        let next = sum.wrapping_add(limb);
        if next < sum {
            // The count of wraparounds never exceeds the number of digests
            // folded, so it cannot run out.
            carry = carry + 1;
        }
        sum = next;
        proof {
            lemma_column_take_step(hashes@, k as int, idx as int);
        }
        k += 1;
    }
    proof {
        assert(hashes@.take(hashes@.len() as int) =~= hashes@);
    }
    (sum, carry)
}

/// Adds `hash` into `base` with a full-width ripple carry; the carry out of the
/// most significant limb is discarded.
fn append_hash(base: &mut Digest, hash: &Digest)
    ensures
        limbs_value(final(base)@) == (limbs_value(old(base)@) + limbs_value(hash@))
            % digest_modulus(),
{
    let mut carry: u64 = 0;
    let mut i: usize = 0;
    while i < HASH_LENGTH_U64
        invariant
            0 <= i <= HASH_LENGTH_U64,
            carry <= 1,
            forall|j: int| i <= j < HASH_LENGTH_U64 ==> base[j] == old(base)[j],
            limbs_value(base@.take(i as int)) + carry * pow(limb_base(), i as nat) == limbs_value(
                old(base)@.take(i as int),
            ) + limbs_value(hash@.take(i as int)),
        decreases HASH_LENGTH_U64 - i,
    {
        let ghost before = base@;
        let ghost carry_in = carry;
        let b = base[i];
        let h = hash[i];
        let sum = b.wrapping_add(h);
        let overflow = sum < b;
        let sum_with_carry = sum.wrapping_add(carry);
        let carry_overflow = sum_with_carry < sum;
        base[i] = sum_with_carry;
        carry = if overflow || carry_overflow {
            1
        } else {
            0
        };
        proof {
            let ii = i as int;
            assert(sum_with_carry + carry * limb_base() == b + h + carry_in);
            assert(base@.take(ii) =~= before.take(ii));
            lemma_value_take_step(base@, ii);
            lemma_value_take_step(old(base)@, ii);
            lemma_value_take_step(hash@, ii);
            let p = pow(limb_base(), i as nat);
            reveal_with_fuel(pow, 2);
            assert(pow(limb_base(), (i + 1) as nat) == limb_base() * p);
            assert(base@[ii] == sum_with_carry);
            assert(old(base)@[ii] == b);
            let vb = limbs_value(before.take(ii));
            let vo = limbs_value(old(base)@.take(ii));
            let vh = limbs_value(hash@.take(ii));
            assert(vb + sum_with_carry * p + carry * (limb_base() * p) == vo + b * p + vh + h * p)
                by (nonlinear_arith)
                requires
                    sum_with_carry + carry * limb_base() == b + h + carry_in,
                    vb + carry_in * p == vo + vh,
            ;
        }
        i += 1;
    }
    proof {
        lemma_take_full(base@);
        lemma_take_full(old(base)@);
        lemma_take_full(hash@);
        lemma_value_bounds(base@);
        lemma_mod_from_carry(
            limbs_value(old(base)@) + limbs_value(hash@),
            limbs_value(base@),
            carry as int,
            digest_modulus(),
        );
    }
}

} // verus!
