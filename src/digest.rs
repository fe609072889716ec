//! The digest model: a digest is a little-endian sequence of 64-bit limbs
//! standing for one non-negative integer.
use vstd::arithmetic::div_mod::*;
use vstd::arithmetic::power::*;
use vstd::prelude::*;

verus! {

/// Number of 64-bit limbs in one digest.
pub const HASH_LENGTH_U64: usize = 63;

/// A digest: limb 0 is the least significant.
pub type Digest = [u64; HASH_LENGTH_U64];

/// The radix of one limb, 2^64.
pub open spec fn limb_base() -> int {
    0x1_0000_0000_0000_0000
}

/// 2^(64 * HASH_LENGTH_U64): aggregates are taken modulo this.
pub open spec fn digest_modulus() -> int {
    pow(limb_base(), HASH_LENGTH_U64 as nat)
}

/// The integer that a little-endian sequence of limbs stands for.
pub open spec fn limbs_value(s: Seq<u64>) -> int
    decreases s.len(),
{
    if s.len() == 0 {
        0
    } else {
        s[0] as int + limb_base() * limbs_value(s.drop_first())
    }
}

/// The `n` least significant limbs of a non-negative integer `v`.
pub open spec fn limbs_of(v: int, n: nat) -> Seq<u64>
    decreases n,
{
    if n == 0 {
        seq![]
    } else {
        seq![(v % limb_base()) as u64] + limbs_of(v / limb_base(), (n - 1) as nat)
    }
}

/// The sum, as an integer, of the values of all digests.
pub open spec fn total_value(hs: Seq<Digest>) -> int
    decreases hs.len(),
{
    if hs.len() == 0 {
        0
    } else {
        total_value(hs.drop_last()) + limbs_value(hs.last()@)
    }
}

/// The aggregate of a collection of digests: their sum modulo 2^(64 * HASH_LENGTH_U64),
/// as a digest.
pub open spec fn aggregate_of(hs: Seq<Digest>) -> Seq<u64> {
    limbs_of(total_value(hs) % digest_modulus(), HASH_LENGTH_U64 as nat)
}

/// The sum, as an integer, of limb `i` of every digest.
pub open spec fn column_sum(hs: Seq<Digest>, i: int) -> int
    decreases hs.len(),
{
    if hs.len() == 0 {
        0
    } else {
        column_sum(hs.drop_last(), i) + hs.last()[i] as int
    }
}

/// The sum, as an integer, of the values of the `i` low limbs of every digest.
pub open spec fn low_limbs_total(hs: Seq<Digest>, i: int) -> int
    decreases hs.len(),
{
    if hs.len() == 0 {
        0
    } else {
        low_limbs_total(hs.drop_last(), i) + limbs_value(hs.last()@.take(i))
    }
}

/// A column sum lies between zero and the number of digests times the largest limb.
pub proof fn lemma_column_sum_bounds(hs: Seq<Digest>, i: int)
    ensures
        0 <= column_sum(hs, i) <= hs.len() * (limb_base() - 1),
    decreases hs.len(),
{
    if hs.len() > 0 {
        lemma_column_sum_bounds(hs.drop_last(), i);
        assert((hs.len() - 1) * (limb_base() - 1) + (limb_base() - 1) == hs.len() * (limb_base()
            - 1)) by (nonlinear_arith);
    }
}

/// A sequence of zero limbs stands for zero.
pub proof fn lemma_zero_value(s: Seq<u64>)
    requires
        forall|j: int| 0 <= j < s.len() ==> s[j] == 0,
    ensures
        limbs_value(s) == 0,
    decreases s.len(),
{
    if s.len() > 0 {
        lemma_zero_value(s.drop_first());
    }
}

/// Extending a prefix of limbs by one limb adds that limb at its weight.
pub proof fn lemma_value_take_step(s: Seq<u64>, i: int)
    requires
        0 <= i < s.len(),
    ensures
        limbs_value(s.take(i + 1)) == limbs_value(s.take(i)) + s[i] * pow(limb_base(), i as nat),
    decreases i,
{
    reveal_with_fuel(pow, 2);
    if i == 0 {
        assert(s.take(1).drop_first() =~= seq![]);
        assert(s.take(0) =~= seq![]);
    } else {
        let t = s.drop_first();
        lemma_value_take_step(t, i - 1);
        assert(s.take(i + 1).drop_first() =~= t.take(i));
        assert(s.take(i).drop_first() =~= t.take(i - 1));
        let a = limbs_value(t.take(i - 1));
        let p = pow(limb_base(), (i - 1) as nat);
        let x = t[i - 1] as int;
        assert(limb_base() * (a + x * p) == limb_base() * a + x * (limb_base() * p))
            by (nonlinear_arith);
    }
}

/// The whole of a sequence is its prefix of full length.
pub proof fn lemma_take_full(s: Seq<u64>)
    ensures
        s.take(s.len() as int) == s,
{
    assert(s.take(s.len() as int) =~= s);
}

/// A sequence of `n` limbs stands for an integer in `[0, 2^(64 n))`.
pub proof fn lemma_value_bounds(s: Seq<u64>)
    ensures
        0 <= limbs_value(s) < pow(limb_base(), s.len()),
    decreases s.len(),
{
    reveal_with_fuel(pow, 2);
    if s.len() > 0 {
        let t = s.drop_first();
        lemma_value_bounds(t);
        let v = limbs_value(t);
        let p = pow(limb_base(), t.len());
        let x = s[0] as int;
        assert(0 <= x + limb_base() * v < limb_base() * p) by (nonlinear_arith)
            requires
                0 <= x < limb_base(),
                0 <= v < p,
                limb_base() > 0,
        ;
    }
}

/// Reading back the limbs of the value of a sequence of limbs gives the sequence.
pub proof fn lemma_limbs_of_value(s: Seq<u64>)
    ensures
        limbs_of(limbs_value(s), s.len()) == s,
    decreases s.len(),
{
    if s.len() > 0 {
        let t = s.drop_first();
        lemma_limbs_of_value(t);
        lemma_value_bounds(t);
        let v = limbs_value(s);
        lemma_fundamental_div_mod_converse(v, limb_base(), limbs_value(t), s[0] as int);
        assert(limbs_of(v, s.len()) =~= s);
    }
}

/// An integer `t` that equals `a + c m` with `a` in `[0, m)` has remainder `a` modulo `m`.
pub proof fn lemma_mod_from_carry(t: int, a: int, c: int, m: int)
    requires
        0 <= a < m,
        t == a + c * m,
    ensures
        a == t % m,
{
    lemma_fundamental_div_mod_converse(t, m, c, a);
}

/// Extending a prefix of digests by one digest adds that digest's value.
pub proof fn lemma_total_take_step(hs: Seq<Digest>, k: int)
    requires
        0 <= k < hs.len(),
    ensures
        total_value(hs.take(k + 1)) == total_value(hs.take(k)) + limbs_value(hs[k]@),
{
    assert(hs.take(k + 1).drop_last() =~= hs.take(k));
}

/// Extending a prefix of digests by one digest adds that digest's limb to a column sum.
pub proof fn lemma_column_take_step(hs: Seq<Digest>, k: int, i: int)
    requires
        0 <= k < hs.len(),
    ensures
        column_sum(hs.take(k + 1), i) == column_sum(hs.take(k), i) + hs[k][i] as int,
{
    assert(hs.take(k + 1).drop_last() =~= hs.take(k));
}

/// Taking one more low limb of every digest adds the column sum of that limb at
/// its weight.
pub proof fn lemma_low_limbs_step(hs: Seq<Digest>, i: int)
    requires
        0 <= i < HASH_LENGTH_U64,
    ensures
        low_limbs_total(hs, i + 1) == low_limbs_total(hs, i) + column_sum(hs, i) * pow(
            limb_base(),
            i as nat,
        ),
    decreases hs.len(),
{
    if hs.len() > 0 {
        lemma_low_limbs_step(hs.drop_last(), i);
        lemma_value_take_step(hs.last()@, i);
        let p = pow(limb_base(), i as nat);
        let c = column_sum(hs.drop_last(), i);
        let x = hs.last()[i] as int;
        assert((c + x) * p == c * p + x * p) by (nonlinear_arith);
    }
}

/// All low limbs of every digest make up the total.
pub proof fn lemma_low_limbs_full(hs: Seq<Digest>)
    ensures
        low_limbs_total(hs, HASH_LENGTH_U64 as int) == total_value(hs),
    decreases hs.len(),
{
    if hs.len() > 0 {
        lemma_low_limbs_full(hs.drop_last());
        lemma_take_full(hs.last()@);
    }
}

/// No limbs of any digest make up zero.
pub proof fn lemma_low_limbs_none(hs: Seq<Digest>)
    ensures
        low_limbs_total(hs, 0) == 0,
    decreases hs.len(),
{
    if hs.len() > 0 {
        lemma_low_limbs_none(hs.drop_last());
        assert(hs.last()@.take(0) =~= Seq::<u64>::empty());
    }
}

/// Adding a value below the modulus to a reduced sum and reducing again is
/// reducing the plain sum.
pub proof fn lemma_mod_add_reduced(t: int, v: int, m: int)
    requires
        0 <= v < m,
    ensures
        (t % m + v) % m == (t + v) % m,
{
    lemma_small_mod(v as nat, m as nat);
    lemma_add_mod_noop(t, v, m);
}

} // verus!
