//! The bucket geometry shared by every histogram type.
//!
//! For a grouping power `gp` and a maximum value power `mvp`, values below
//! `2^(gp + 1)` get a bucket each; every further power of two `[2^p, 2^(p+1))`
//! is split into `2^gp` buckets of equal width `2^(p - gp)`. Buckets are
//! numbered from zero in increasing order of their values, and together they
//! cover every value from `0` to `2^mvp - 1`.
use vstd::prelude::*;
use vstd::arithmetic::power2::{
    pow2,
    lemma_pow2_pos,
    lemma_pow2_adds,
    lemma_pow2_unfold,
    lemma_pow2_strictly_increases,
    lemma2_to64,
};
use vstd::arithmetic::div_mod::{
    lemma_fundamental_div_mod,
    lemma_fundamental_div_mod_converse,
};
use vstd::arithmetic::mul::{
    lemma_mul_is_distributive_add,
    lemma_mul_inequality,
    lemma_mul_is_commutative,
};

verus! {

/// `floor(log2(v))` for `v >= 1` (and `0` for `v == 0`).
pub open spec fn floor_log2(v: nat) -> nat
    decreases v,
{
    if v < 2 {
        0
    } else {
        1 + floor_log2(v / 2)
    }
}

/// The number of buckets for grouping power `gp` and maximum value power `mvp`.
pub open spec fn bucket_total(gp: nat, mvp: nat) -> nat {
    ((mvp + 1 - gp) as nat) * pow2(gp)
}

/// The largest value that can be recorded with maximum value power `mvp`.
pub open spec fn value_limit(mvp: nat) -> nat {
    (pow2(mvp) - 1) as nat
}

/// Parameters that describe a usable bucket layout.
pub open spec fn valid_geometry(gp: nat, mvp: nat) -> bool {
    &&& gp < mvp <= 64
    &&& bucket_total(gp, mvp) <= u32::MAX
}

/// The index of the bucket that holds value `v`.
pub open spec fn bucket_of(gp: nat, v: nat) -> nat {
    if v < pow2(gp + 1) {
        v
    } else {
        let p = floor_log2(v);
        ((p + 1 - gp) as nat) * pow2(gp) + (v - pow2(p)) as nat / pow2((p - gp) as nat)
    }
}

/// The smallest value held by bucket `i`.
pub open spec fn bucket_lower(gp: nat, i: nat) -> nat {
    let g = i / pow2(gp);
    let h = i % pow2(gp);
    if g == 0 {
        h
    } else {
        pow2((gp + g - 1) as nat) + pow2((g - 1) as nat) * h
    }
}

/// The largest value held by bucket `i`: one less than the next bucket's lower bound.
pub open spec fn bucket_upper(gp: nat, i: nat) -> nat {
    (bucket_lower(gp, i + 1) - 1) as nat
}

/// The number of values held by bucket `i`.
pub open spec fn bucket_width(gp: nat, i: nat) -> nat {
    let g = i / pow2(gp);
    if g == 0 {
        1
    } else {
        pow2((g - 1) as nat)
    }
}

/// `2^a <= 2^b` whenever `a <= b`.
pub proof fn lemma_pow2_le(a: nat, b: nat)
    requires
        a <= b,
    ensures
        pow2(a) <= pow2(b),
{
    if a < b {
        lemma_pow2_strictly_increases(a, b);
    }
}

/// `floor_log2(v)` is the exponent of the largest power of two not above `v`.
pub proof fn lemma_floor_log2_bounds(v: nat)
    requires
        v >= 1,
    ensures
        pow2(floor_log2(v)) <= v < pow2(floor_log2(v) + 1),
    decreases v,
{
    lemma2_to64();
    if v >= 2 {
        lemma_floor_log2_bounds(v / 2);
        let k = floor_log2(v / 2);
        lemma_pow2_unfold(k + 1);
        lemma_pow2_unfold(k + 2);
    }
}

/// A power of two bracketing `v` determines `floor_log2(v)`.
pub proof fn lemma_floor_log2_unique(v: nat, k: nat)
    requires
        pow2(k) <= v < pow2(k + 1),
    ensures
        floor_log2(v) == k,
{
    lemma_pow2_pos(k);
    lemma_floor_log2_bounds(v);
    let f = floor_log2(v);
    if f < k {
        lemma_pow2_le(f + 1, k);
    }
    if f > k {
        lemma_pow2_le(k + 1, f);
    }
}

/// Splits an index into its group `i / 2^gp` and its position `i % 2^gp`.
proof fn lemma_index_split(gp: nat, i: nat)
    ensures
        pow2(gp) > 0,
        i == (i / pow2(gp)) * pow2(gp) + i % pow2(gp),
        i % pow2(gp) < pow2(gp),
{
    lemma_pow2_pos(gp);
    lemma_fundamental_div_mod(i as int, pow2(gp) as int);
    lemma_mul_is_commutative((i / pow2(gp)) as int, pow2(gp) as int);
}

/// Recovers group and position from an index built out of them.
proof fn lemma_index_join(gp: nat, g: nat, h: nat)
    requires
        h < pow2(gp),
    ensures
        (g * pow2(gp) + h) / pow2(gp) == g,
        (g * pow2(gp) + h) % pow2(gp) == h,
{
    lemma_pow2_pos(gp);
    lemma_fundamental_div_mod_converse(
        (g * pow2(gp) + h) as int,
        pow2(gp) as int,
        g as int,
        h as int,
    );
}

/// Each bucket starts where the previous one ends.
pub proof fn lemma_lower_step(gp: nat, i: nat)
    ensures
        bucket_width(gp, i) > 0,
        bucket_lower(gp, i + 1) == bucket_lower(gp, i) + bucket_width(gp, i),
{
    let d = pow2(gp);
    let g = i / d;
    let h = i % d;
    lemma_index_split(gp, i);
    if g > 0 {
        lemma_pow2_pos((g - 1) as nat);
    }
    if h + 1 < d {
        lemma_index_join(gp, g, h + 1);
        assert((i + 1) as nat == g * d + (h + 1));
        lemma_mul_is_distributive_add(pow2((g - 1) as nat) as int, h as int, 1);
    } else {
        assert(h + 1 == d);
        assert((i + 1) as nat == (g + 1) * d + 0) by {
            lemma_mul_is_distributive_add(d as int, g as int, 1);
            lemma_mul_is_commutative(d as int, g as int);
            lemma_mul_is_commutative(d as int, (g + 1) as int);
        }
        lemma_index_join(gp, g + 1, 0);
        if g == 0 {
            assert(gp + (g + 1) - 1 == gp);
        } else {
            // 2^(gp+g-1) + 2^(g-1) * (d - 1) + 2^(g-1) == 2^(gp+g)
            lemma_mul_is_distributive_add(pow2((g - 1) as nat) as int, h as int, 1);
            lemma_pow2_adds((g - 1) as nat, gp);
            assert((g - 1) as nat + gp == (gp + g - 1) as nat);
            lemma_pow2_unfold((gp + g) as nat);
            assert(((gp + g) - 1) as nat == (gp + g - 1) as nat);
        }
    }
}

/// Lower bounds strictly increase with the bucket index.
pub proof fn lemma_lower_strictly_increases(gp: nat, i: nat, j: nat)
    requires
        i < j,
    ensures
        bucket_lower(gp, i) < bucket_lower(gp, j),
    decreases j - i,
{
    lemma_lower_step(gp, i);
    if i + 1 < j {
        lemma_lower_strictly_increases(gp, i + 1, j);
    }
}

/// The lower bound one past the last bucket is `2^mvp`.
pub proof fn lemma_lower_at_total(gp: nat, mvp: nat)
    requires
        gp < mvp,
    ensures
        bucket_lower(gp, bucket_total(gp, mvp)) == pow2(mvp),
{
    let d = pow2(gp);
    let g = (mvp + 1 - gp) as nat;
    lemma_pow2_pos(gp);
    assert(bucket_total(gp, mvp) == g * d + 0);
    lemma_index_join(gp, g, 0);
    assert((gp + g - 1) as nat == mvp);
}

/// A value lies between the lower bound of its bucket and that of the next.
pub proof fn lemma_bucket_of_brackets(gp: nat, v: nat)
    ensures
        bucket_lower(gp, bucket_of(gp, v)) <= v < bucket_lower(gp, bucket_of(gp, v) + 1),
{
    let d = pow2(gp);
    lemma_pow2_pos(gp);
    lemma_pow2_unfold(gp + 1);
    let b = bucket_of(gp, v);
    lemma_lower_step(gp, b);
    if v < pow2(gp + 1) {
        assert(b == v);
        if v < d {
            lemma_index_join(gp, 0, v);
            assert(v == 0 * d + v);
            assert(bucket_lower(gp, b) == v);
            assert(bucket_width(gp, b) == 1);
        } else {
            assert(v == 1 * d + (v - d) as nat);
            lemma_index_join(gp, 1, (v - d) as nat);
            lemma2_to64();
            assert(v / d == 1);
            assert(v % d == v - d);
            assert(bucket_lower(gp, b) == v);
            assert(bucket_width(gp, b) == 1);
        }
    } else {
        lemma_floor_log2_bounds(v);
        let p = floor_log2(v);
        if p < gp + 1 {
            lemma_pow2_le(p + 1, gp + 1);
        }
        assert(p >= gp + 1);
        let s = (p - gp) as nat;
        let w = pow2(s);
        lemma_pow2_pos(s);
        lemma_pow2_adds(gp, s);
        assert(gp + s == p);
        lemma_pow2_unfold(p + 1);
        let r = (v - pow2(p)) as nat;
        let o = r / w;
        lemma_fundamental_div_mod(r as int, w as int);
        // o < d because r < 2^p == d * w
        assert(o < d) by {
            if o >= d {
                lemma_mul_inequality(d as int, o as int, w as int);
                lemma_mul_is_commutative(w as int, o as int);
            }
        }
        let g = (p + 1 - gp) as nat;
        assert(b == g * d + o);
        lemma_index_join(gp, g, o);
        assert((gp + g - 1) as nat == p);
        assert((g - 1) as nat == s);
        lemma_mul_is_commutative(w as int, o as int);
        assert(bucket_lower(gp, b) == pow2(p) + w * o);
        assert(bucket_width(gp, b) == w);
        assert(w * o <= r);
        assert(r < w * o + w);
    }
}

/// Every value up to the limit lands in one of the buckets.
pub proof fn lemma_bucket_of_in_range(gp: nat, mvp: nat, v: nat)
    requires
        gp < mvp,
        v <= value_limit(mvp),
    ensures
        bucket_of(gp, v) < bucket_total(gp, mvp),
        bucket_lower(gp, bucket_of(gp, v)) <= v <= bucket_upper(gp, bucket_of(gp, v)),
{
    lemma_bucket_of_brackets(gp, v);
    lemma_lower_at_total(gp, mvp);
    lemma_pow2_pos(mvp);
    let b = bucket_of(gp, v);
    if b >= bucket_total(gp, mvp) {
        if b > bucket_total(gp, mvp) {
            lemma_lower_strictly_increases(gp, bucket_total(gp, mvp), b);
        }
    }
}

/// The bucket of a bucket's lower bound is that bucket.
pub proof fn lemma_bucket_of_lower(gp: nat, i: nat)
    ensures
        bucket_of(gp, bucket_lower(gp, i)) == i,
{
    let v = bucket_lower(gp, i);
    let b = bucket_of(gp, v);
    lemma_bucket_of_brackets(gp, v);
    if b < i {
        lemma_lower_strictly_increases(gp, b, i);
        if b + 1 < i {
            lemma_lower_strictly_increases(gp, b + 1, i);
        }
    }
    if b > i {
        lemma_lower_strictly_increases(gp, i, b);
    }
}

/// Larger values never land in earlier buckets.
pub proof fn lemma_bucket_of_monotone(gp: nat, v1: nat, v2: nat)
    requires
        v1 <= v2,
    ensures
        bucket_of(gp, v1) <= bucket_of(gp, v2),
{
    let b1 = bucket_of(gp, v1);
    let b2 = bucket_of(gp, v2);
    lemma_bucket_of_brackets(gp, v1);
    lemma_bucket_of_brackets(gp, v2);
    if b1 > b2 {
        if b2 + 1 < b1 {
            lemma_lower_strictly_increases(gp, b2 + 1, b1);
        }
    }
}

/// Every bucket of a layout starts at or below the largest value.
pub proof fn lemma_lower_in_range(gp: nat, mvp: nat, i: nat)
    requires
        gp < mvp,
        i < bucket_total(gp, mvp),
    ensures
        bucket_lower(gp, i) <= bucket_upper(gp, i) <= value_limit(mvp),
{
    lemma_lower_at_total(gp, mvp);
    lemma_lower_step(gp, i);
    if i + 1 < bucket_total(gp, mvp) {
        lemma_lower_strictly_increases(gp, i + 1, bucket_total(gp, mvp));
    }
}

/// A smaller grouping power never needs more buckets.
pub proof fn lemma_bucket_total_monotone(g1: nat, g2: nat, mvp: nat)
    requires
        g1 <= g2 < mvp,
    ensures
        bucket_total(g1, mvp) <= bucket_total(g2, mvp),
    decreases g2 - g1,
{
    if g1 < g2 {
        lemma_bucket_total_monotone(g1, (g2 - 1) as nat, mvp);
        let g = (g2 - 1) as nat;
        lemma_pow2_unfold(g2);
        lemma_pow2_pos(g);
        let p = pow2(g);
        assert(((mvp + 1 - g) as nat) * p <= ((mvp + 1 - g2) as nat) * (2 * p)) by (nonlinear_arith)
            requires
                g2 == g + 1,
                g2 < mvp,
                p > 0,
        ;
    }
}

/// A value in `[2^p, 2^(p+1))` with `p > gp` lands in the bucket of its power
/// `p` at position `(v - 2^p) / 2^(p - gp)`.
proof fn lemma_bucket_of_upper_range(gp: nat, p: nat, v: nat)
    requires
        gp < p,
        pow2(p) <= v < pow2(p + 1),
    ensures
        bucket_of(gp, v) == ((p + 1 - gp) as nat) * pow2(gp) + (v - pow2(p)) as nat / pow2((p - gp) as nat),
{
    lemma_floor_log2_unique(v, p);
    lemma_pow2_le(gp + 1, p);
}

/// Downsampling never splits a bucket: at any smaller grouping power, the
/// smallest and the largest value of a bucket land in the same bucket.
pub proof fn lemma_bucket_not_split(from: nat, to: nat, i: nat)
    requires
        to < from,
    ensures
        bucket_of(to, bucket_lower(from, i)) == bucket_of(to, bucket_upper(from, i)),
{
    let d = pow2(from);
    let g = i / d;
    let h = i % d;
    lemma_index_split(from, i);
    lemma_lower_step(from, i);
    let lo = bucket_lower(from, i);
    let hi = bucket_upper(from, i);
    if g >= 2 {
        let a = pow2((g - 1) as nat);
        let p = (from + g - 1) as nat;
        let big_d = pow2((from - to) as nat);
        lemma_pow2_pos((g - 1) as nat);
        lemma_pow2_pos((from - to) as nat);
        lemma_pow2_pos(p);
        assert(lo == pow2(p) + a * h);
        assert(hi == lo + a - 1);
        // Both ends lie in [2^p, 2^(p+1)).
        lemma_pow2_adds((g - 1) as nat, from);
        assert((g - 1) as nat + from == p);
        assert(a * h + a <= a * d) by (nonlinear_arith)
            requires
                h < d,
                a > 0,
        ;
        lemma_pow2_unfold(p + 1);
        assert(hi < pow2(p + 1));
        lemma_bucket_of_upper_range(to, p, lo);
        lemma_bucket_of_upper_range(to, p, hi);
        // The positions agree: both divide down to h / 2^(from - to).
        lemma_pow2_adds((g - 1) as nat, (from - to) as nat);
        assert((g - 1) as nat + (from - to) as nat == (p - to) as nat);
        let x_lo = (lo - pow2(p)) as nat;
        let x_hi = (hi - pow2(p)) as nat;
        assert(x_lo == a * h);
        assert(x_hi == a * h + (a - 1));
        vstd::arithmetic::div_mod::lemma_div_multiples_vanish_fancy(h as int, 0, a as int);
        vstd::arithmetic::div_mod::lemma_div_multiples_vanish_fancy(h as int, (a - 1) as int, a as int);
        assert(x_lo as int / a as int == h);
        assert(x_hi as int / a as int == h);
        vstd::arithmetic::div_mod::lemma_div_denominator(x_lo as int, a as int, big_d as int);
        vstd::arithmetic::div_mod::lemma_div_denominator(x_hi as int, a as int, big_d as int);
        assert(x_lo / pow2((p - to) as nat) == x_hi / pow2((p - to) as nat));
    } else {
        if g == 1 {
            assert(pow2(0) == 1) by {
                vstd::arithmetic::power2::lemma2_to64();
            }
        }
        assert(hi == lo);
    }
}

/// Buckets are narrow relative to their values: a bucket below `2^(gp+1)`
/// holds a single value, and a wider bucket's width times `2^gp` is at most
/// its smallest value.
pub proof fn lemma_bucket_precision(gp: nat, i: nat)
    ensures
        bucket_lower(gp, i) < pow2(gp + 1) ==> bucket_width(gp, i) == 1,
        bucket_width(gp, i) == 1 || bucket_width(gp, i) * pow2(gp) <= bucket_lower(gp, i),
{
    let d = pow2(gp);
    let g = i / d;
    let h = i % d;
    lemma_index_split(gp, i);
    lemma_pow2_unfold(gp + 1);
    if g >= 2 {
        let w = pow2((g - 1) as nat);
        lemma_pow2_adds(gp, (g - 1) as nat);
        lemma_pow2_le(gp + 1, (gp + g - 1) as nat);
        assert(bucket_lower(gp, i) == pow2((gp + g - 1) as nat) + w * h);
        assert(w * d == d * w) by (nonlinear_arith);
        assert(0 <= w * h) by (nonlinear_arith)
            requires
                w >= 0,
                h >= 0,
        ;
    } else if g == 1 {
        assert(pow2(0) == 1) by {
            lemma2_to64();
        }
    }
}

} // verus!
