//! Algebraic laws of the aggregate.
use crate::digest::{
    aggregate_of, digest_modulus, lemma_limbs_of_value, lemma_value_bounds, lemma_zero_value,
    limb_base, limbs_of, limbs_value, total_value, Digest, HASH_LENGTH_U64,
};
use vstd::arithmetic::div_mod::{lemma_div_pos_is_pos, lemma_small_mod};
use vstd::arithmetic::power::*;
use vstd::prelude::*;

verus! {

/// The aggregate of no digests is the all-zero digest, and the aggregate of a
/// single digest is that digest.
pub proof fn lemma_aggregate_identity(d: Digest)
    ensures
        aggregate_of(Seq::<Digest>::empty()) == Seq::new(HASH_LENGTH_U64 as nat, |j: int| 0u64),
        aggregate_of(seq![d]) == d@,
{
    let zeros = Seq::new(HASH_LENGTH_U64 as nat, |j: int| 0u64);
    lemma_zero_value(zeros);
    lemma_limbs_of_value(zeros);
    lemma_pow_positive(limb_base(), HASH_LENGTH_U64 as nat);
    assert(seq![d].drop_last() =~= Seq::<Digest>::empty());
    lemma_value_bounds(d@);
    lemma_small_mod(limbs_value(d@) as nat, digest_modulus() as nat);
    lemma_limbs_of_value(d@);
}

/// Aggregating the same digests in any order gives the same digest.
pub proof fn lemma_aggregate_permutation(a: Seq<Digest>, b: Seq<Digest>)
    requires
        a.to_multiset() == b.to_multiset(),
    ensures
        aggregate_of(a) == aggregate_of(b),
{
    lemma_total_permutation(a, b);
}

proof fn lemma_total_permutation(a: Seq<Digest>, b: Seq<Digest>)
    requires
        a.to_multiset() == b.to_multiset(),
    ensures
        total_value(a) == total_value(b),
    decreases b.len(),
{
    broadcast use vstd::seq_lib::group_to_multiset_ensures;

    if b.len() == 0 {
        a.to_multiset_ensures();
        b.to_multiset_ensures();
    } else {
        let x = b.last();
        let rest = b.drop_last();
        assert(rest.push(x) =~= b);
        assert(b.to_multiset().count(x) > 0);
        assert(a.contains(x));
        let i = choose|i: int| 0 <= i < a.len() && a[i] == x;
        assert(a.remove(i).to_multiset() =~= rest.to_multiset());
        lemma_total_permutation(a.remove(i), rest);
        lemma_total_remove(a, i);
    }
}

/// Taking one digest out of a collection takes its value out of the total.
proof fn lemma_total_remove(a: Seq<Digest>, i: int)
    requires
        0 <= i < a.len(),
    ensures
        total_value(a) == total_value(a.remove(i)) + limbs_value(a[i]@),
    decreases a.len(),
{
    if i == a.len() - 1 {
        assert(a.remove(i) =~= a.drop_last());
    } else {
        lemma_total_remove(a.drop_last(), i);
        assert(a.remove(i).drop_last() =~= a.drop_last().remove(i));
    }
}

/// Aggregating `n` copies of a digest whose only non-zero limb is limb 0,
/// holding `v`, gives `n v` spread over limbs 0 and 1: limb 0 holds
/// `n v mod 2^64`, limb 1 the carry `n v / 2^64`, every other limb zero.
pub proof fn lemma_aggregate_scalar(hs: Seq<Digest>, d: Digest)
    requires
        hs.len() <= u64::MAX,
        forall|k: int| 0 <= k < hs.len() ==> #[trigger] hs[k] == d,
        forall|j: int| 1 <= j < HASH_LENGTH_U64 ==> #[trigger] d[j] == 0,
    ensures
        aggregate_of(hs)[0] == (hs.len() * d[0]) % limb_base(),
        aggregate_of(hs)[1] == (hs.len() * d[0]) / limb_base(),
        forall|j: int| 2 <= j < HASH_LENGTH_U64 ==> #[trigger] aggregate_of(hs)[j] == 0,
{
    let b = limb_base();
    let v = d[0] as int;
    let n = hs.len() as int;
    assert(limbs_value(d@) == v) by {
        lemma_zero_value(d@.drop_first());
    }
    lemma_total_copies(hs, d);
    let x = n * v;
    assert(0 <= x < b * b) by (nonlinear_arith)
        requires
            0 <= n < b,
            0 <= v < b,
            x == n * v,
    ;
    reveal_with_fuel(pow, 3);
    lemma_pow_increases(b as nat, 2, HASH_LENGTH_U64 as nat);
    lemma_small_mod(x as nat, digest_modulus() as nat);
    let q = x / b;
    lemma_div_pos_is_pos(x, b);
    assert(q < b) by (nonlinear_arith)
        requires
            0 <= x < b * b,
            q == x / b,
            b > 0,
    ;
    lemma_small_mod(q as nat, b as nat);
    assert(q / b == 0);
    let w = (HASH_LENGTH_U64 - 2) as nat;
    lemma_limbs_of_zero(w);
    let agg = limbs_of(x, HASH_LENGTH_U64 as nat);
    let high = limbs_of(q, (HASH_LENGTH_U64 - 1) as nat);
    assert(agg == seq![(x % b) as u64] + high);
    assert(high == seq![(q % b) as u64] + limbs_of(0, w));
    assert forall|j: int| 2 <= j < HASH_LENGTH_U64 implies #[trigger] agg[j] == 0 by {
        assert(agg[j] == high[j - 1]);
        assert(high[j - 1] == limbs_of(0, w)[j - 2]);
    }
}

/// The limbs of zero are all zero.
proof fn lemma_limbs_of_zero(n: nat)
    ensures
        forall|j: int| 0 <= j < n ==> #[trigger] limbs_of(0, n)[j] == 0,
        limbs_of(0, n).len() == n,
    decreases n,
{
    if n > 0 {
        lemma_limbs_of_zero((n - 1) as nat);
    }
}

/// `n` copies of a digest of value `v` total `n v`.
proof fn lemma_total_copies(hs: Seq<Digest>, d: Digest)
    requires
        forall|k: int| 0 <= k < hs.len() ==> #[trigger] hs[k] == d,
    ensures
        total_value(hs) == hs.len() * limbs_value(d@),
    decreases hs.len(),
{
    if hs.len() > 0 {
        lemma_total_copies(hs.drop_last(), d);
        let v = limbs_value(d@);
        assert((hs.len() - 1) * v + v == hs.len() * v) by (nonlinear_arith);
    }
}

} // verus!
