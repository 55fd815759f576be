//! The gain calculator: class-entropy and per-attribute information gain
//! over an object subset, in exact fixed-point arithmetic.
//!
//! Entropies and gains are integers counting ten-thousandths of a bit.  The
//! binary logarithm is approximated by `log2_q`, a deterministic fixed-point
//! algorithm: the floor of the logarithm plus twenty fractional bits obtained
//! by mantissa squaring, rescaled to the decimal grid.

use vstd::prelude::*;
use vstd::arithmetic::power2::{
    lemma2_to64, lemma_pow2_adds, lemma_pow2_pos, lemma_pow2_strictly_increases,
    lemma_pow2_unfold, pow2,
};
use vstd::arithmetic::div_mod::lemma_div_denominator;
use crate::object::{attr_derefs, derefs, Attr, Object};

verus! {

/// Floor of the binary logarithm of `x` (0 when `x < 2`).
pub open spec fn lg_floor(x: nat) -> nat
    decreases x,
{
    if x < 2 {
        0
    } else {
        1 + lg_floor(x / 2)
    }
}

/// `x` normalized to the mantissa range `[2^40, 2^41)`.
pub open spec fn mant(x: nat) -> nat {
    if lg_floor(x) <= 40 {
        x * pow2((40 - lg_floor(x)) as nat)
    } else {
        x / pow2((lg_floor(x) - 40) as nat)
    }
}

/// `i` rounds of mantissa squaring starting from `m`, accumulating the
/// fractional bits of the binary logarithm into `b`, most significant first.
pub open spec fn frac_steps(m: nat, i: nat, b: nat) -> nat
    decreases i,
{
    if i == 0 {
        b
    } else {
        let s = (m * m) / pow2(40);
        if s >= pow2(41) {
            frac_steps(s / 2, (i - 1) as nat, 2 * b + 1)
        } else {
            frac_steps(s, (i - 1) as nat, 2 * b)
        }
    }
}

/// The binary logarithm of `x`, in ten-thousandths of a bit: the floor part
/// plus twenty fractional bits rescaled to the decimal grid.
pub open spec fn log2_q(x: nat) -> nat {
    lg_floor(x) * 10000 + (frac_steps(mant(x), 20, 0) * 10000) / pow2(20)
}

/// For `x >= 1` the floor of the binary logarithm brackets `x` between two
/// neighbouring powers of two.
pub proof fn lemma_lg_floor_range(x: nat)
    requires
        x >= 1,
    ensures
        pow2(lg_floor(x)) <= x < pow2(lg_floor(x) + 1),
    decreases x,
{
    if x < 2 {
        lemma2_to64();
    } else {
        lemma_lg_floor_range(x / 2);
        lemma_pow2_unfold(lg_floor(x));
        lemma_pow2_unfold(lg_floor(x) + 1);
    }
}

/// The fixed-point binary logarithm of `x`, in ten-thousandths of a bit.
pub fn log2q(x: u64) -> (r: u64)
    requires
        x >= 1,
    ensures
        r == log2_q(x as nat),
        r <= 639999,
{
    proof {
        lemma_lg_floor_range(x as nat);
        if lg_floor(x as nat) >= 64 {
            if lg_floor(x as nat) > 64 {
                lemma_pow2_strictly_increases(64, lg_floor(x as nat));
            }
            lemma2_to64_top();
            assert(false);
        }
    }
    // Floor of the logarithm.
    let mut k: u64 = 0;
    let mut t: u64 = x;
    while t >= 2
        invariant
            t >= 1,
            lg_floor(x as nat) == k + lg_floor(t as nat),
            lg_floor(x as nat) <= 63,
        decreases t,
    {
        t = t / 2;
        k = k + 1;
    }
    proof {
        assert(lg_floor(t as nat) == 0);
        assert(k == lg_floor(x as nat));
    }
    // Mantissa normalization.
    let mut m: u128 = x as u128;
    let mut e: u64 = k;
    proof {
        lemma2_to64();
        lemma2_to64_rest_small();
        assert(m == (x as nat) * pow2(0));
    }
    if k <= 40 {
        while e < 40
            invariant
                k <= e <= 40,
                k == lg_floor(x as nat),
                x >= 1,
                m == (x as nat) * pow2((e - k) as nat),
                pow2(e as nat) <= m < pow2((e + 1) as nat),
            decreases 40 - e,
        {
            proof {
                lemma_pow2_le((e + 1) as nat, 41);
                lemma2_to64_rest_small();
                lemma_pow2_unfold((e + 1) as nat);
                lemma_pow2_unfold((e + 2) as nat);
                lemma_pow2_adds((e - k) as nat, 1);
                lemma2_to64();
                assert((x as nat) * pow2((e - k) as nat) * 2 == (x as nat) * pow2(
                    (e + 1 - k) as nat,
                )) by (nonlinear_arith)
                    requires
                        pow2((e + 1 - k) as nat) == pow2((e - k) as nat) * 2,
                ;
            }
            m = m * 2;
            e = e + 1;
        }
    } else {
        while e > 40
            invariant
                40 <= e <= k,
                k == lg_floor(x as nat),
                x >= 1,
                m == (x as nat) / pow2((k - e) as nat),
                pow2(e as nat) <= m < pow2((e + 1) as nat),
            decreases e,
        {
            proof {
                lemma_pow2_pos((k - e) as nat);
                lemma_div_denominator(x as int, pow2((k - e) as nat) as int, 2);
                lemma_pow2_adds((k - e) as nat, 1);
                lemma2_to64();
                lemma_pow2_unfold(e as nat);
                lemma_pow2_unfold((e + 1) as nat);
                assert(pow2((e - 1) as nat) <= m / 2) by {
                    vstd::arithmetic::div_mod::lemma_div_multiples_vanish(
                        pow2((e - 1) as nat) as int,
                        2,
                    );
                    vstd::arithmetic::div_mod::lemma_div_is_ordered(
                        pow2(e as nat) as int,
                        m as int,
                        2,
                    );
                }
                assert(m / 2 < pow2(e as nat)) by {
                    vstd::arithmetic::div_mod::lemma_multiply_divide_lt(
                        m as int,
                        2,
                        pow2(e as nat) as int,
                    );
                }
            }
            m = m / 2;
            e = e - 1;
        }
    }
    proof {
        assert(m == mant(x as nat));
        assert(pow2(40) <= m < pow2(41));
        lemma2_to64();
        lemma2_to64_rest_small();
    }
    // Fractional bits by repeated squaring.
    let mut b: u64 = 0;
    let mut i: u64 = 0;
    while i < 20
        invariant
            0 <= i <= 20,
            pow2(40) <= m < pow2(41),
            b < pow2(i as nat),
            pow2(40) == 0x10000000000,
            pow2(41) == 0x20000000000,
            frac_steps(mant(x as nat), 20, 0) == frac_steps(m as nat, (20 - i) as nat, b as nat),
        decreases 20 - i,
    {
        proof {
            lemma_pow2_bound_82();
            assert((m as nat) * (m as nat) < pow2(82)) by (nonlinear_arith)
                requires
                    m < pow2(41),
                    pow2(82) == pow2(41) * pow2(41),
            ;
            assert((m as nat) * (m as nat) >= pow2(80)) by (nonlinear_arith)
                requires
                    m >= pow2(40),
                    pow2(80) == pow2(40) * pow2(40),
            ;
            assert((m as nat) * (m as nat) / pow2(40) >= pow2(40)) by {
                vstd::arithmetic::div_mod::lemma_div_is_ordered(
                    pow2(80) as int,
                    ((m as nat) * (m as nat)) as int,
                    pow2(40) as int,
                );
                lemma_pow2_adds(40, 40);
                vstd::arithmetic::div_mod::lemma_div_multiples_vanish(
                    pow2(40) as int,
                    pow2(40) as int,
                );
            }
            assert((m as nat) * (m as nat) / pow2(40) < pow2(42)) by {
                lemma_pow2_adds(40, 42);
                assert((m as nat) * (m as nat) < pow2(40) * pow2(42)) by (nonlinear_arith)
                    requires
                        m < pow2(41),
                        pow2(41) * pow2(41) == pow2(82),
                        pow2(82) == pow2(40) * pow2(42),
                ;
                vstd::arithmetic::div_mod::lemma_multiply_divide_lt(
                    ((m as nat) * (m as nat)) as int,
                    pow2(40) as int,
                    pow2(42) as int,
                );
            }
        }
        proof {
            lemma_pow2_le(i as nat, 19);
            lemma2_to64();
        }
        let s: u128 = (m * m) / 0x10000000000u128;
        let ghost old_b = b;
        let ghost old_m = m;
        if s >= 0x20000000000u128 {
            m = s / 2;
            b = 2 * b + 1;
        } else {
            m = s;
            b = 2 * b;
        }
        i = i + 1;
        proof {
            lemma_pow2_unfold(i as nat);
            lemma_pow2_unfold(42);
            assert(frac_steps(old_m as nat, (20 - (i - 1)) as nat, old_b as nat) == frac_steps(
                m as nat,
                (20 - i) as nat,
                b as nat,
            ));
        }
    }
    proof {
        assert(frac_steps(mant(x as nat), 20, 0) == b);
        assert(pow2(20) == 0x100000);
        assert(b < 0x100000);
        assert((b * 10000) / 0x100000 < 10000) by (nonlinear_arith)
            requires
                b < 0x100000,
        ;
    }
    let frac: u64 = (b * 10000) / 0x100000u64;
    k * 10000 + frac
}

/// How many objects of `s` carry the class label `c`.
pub open spec fn count_class(s: Seq<Object>, c: Seq<char>) -> nat
    decreases s.len(),
{
    if s.len() == 0 {
        0
    } else {
        count_class(s.drop_last(), c) + if s.last().class@ == c {
            1nat
        } else {
            0nat
        }
    }
}

/// The distinct class labels of `s`, in first-occurrence order.
pub open spec fn distinct_classes(s: Seq<Object>) -> Seq<Seq<char>>
    decreases s.len(),
{
    if s.len() == 0 {
        Seq::empty()
    } else {
        let p = distinct_classes(s.drop_last());
        if p.contains(s.last().class@) {
            p
        } else {
            p.push(s.last().class@)
        }
    }
}

/// A class label occurs in `s` exactly when its count is positive.
pub proof fn lemma_count_distinct(s: Seq<Object>, c: Seq<char>)
    ensures
        count_class(s, c) > 0 <==> distinct_classes(s).contains(c),
        count_class(s, c) <= s.len(),
    decreases s.len(),
{
    if s.len() > 0 {
        lemma_count_distinct(s.drop_last(), c);
        let p = distinct_classes(s.drop_last());
        if distinct_classes(s).contains(c) && !p.contains(c) {
            assert(distinct_classes(s) == p.push(s.last().class@));
            let i = choose|i: int| 0 <= i < distinct_classes(s).len() && distinct_classes(s)[i] == c;
            if i < p.len() {
                assert(p[i] == c);
            }
        }
        if p.contains(c) {
            let i = choose|i: int| 0 <= i < p.len() && p[i] == c;
            assert(distinct_classes(s)[i] == c);
        }
        if s.last().class@ == c && !p.contains(c) {
            assert(distinct_classes(s).last() == c);
        }
    }
}

/// The distinct class labels are pairwise distinct.
pub proof fn lemma_distinct_classes_distinct(s: Seq<Object>)
    ensures
        forall|i: int, j: int|
            0 <= i < j < distinct_classes(s).len() ==> distinct_classes(s)[i] != distinct_classes(
                s,
            )[j],
    decreases s.len(),
{
    if s.len() > 0 {
        lemma_distinct_classes_distinct(s.drop_last());
        let p = distinct_classes(s.drop_last());
        let d = distinct_classes(s);
        if !p.contains(s.last().class@) {
            assert forall|i: int, j: int| 0 <= i < j < d.len() implies d[i] != d[j] by {
                if j < p.len() {
                } else {
                    assert(d[j] == s.last().class@);
                    assert(d[i] == p[i]);
                    assert(!p.contains(s.last().class@));
                }
            }
        }
    }
}

/// Sum of the counts of the classes `cs[i..]` over `s`.
pub open spec fn sum_counts(cs: Seq<Seq<char>>, s: Seq<Object>, i: int) -> nat
    decreases cs.len() - i,
{
    if i < 0 || i >= cs.len() {
        0
    } else {
        count_class(s, cs[i]) + sum_counts(cs, s, i + 1)
    }
}

/// How often `c` occurs among `cs[i..]`.
pub open spec fn occurrences(cs: Seq<Seq<char>>, c: Seq<char>, i: int) -> nat
    decreases cs.len() - i,
{
    if i < 0 || i >= cs.len() {
        0
    } else {
        occurrences(cs, c, i + 1) + if cs[i] == c {
            1nat
        } else {
            0nat
        }
    }
}

/// Appending one object to `s` raises the summed counts by the number of
/// occurrences of its class among the summed labels.
proof fn lemma_sum_counts_push(cs: Seq<Seq<char>>, s: Seq<Object>, o: Object, i: int)
    ensures
        sum_counts(cs, s.push(o), i) == sum_counts(cs, s, i) + occurrences(cs, o.class@, i),
    decreases cs.len() - i,
{
    if 0 <= i < cs.len() {
        lemma_sum_counts_push(cs, s, o, i + 1);
        assert(s.push(o).drop_last() =~= s);
        assert(s.push(o).last() == o);
    }
}

/// A label that occurs nowhere in `cs[i..]` contributes nothing.
pub proof fn lemma_occurrences_absent(cs: Seq<Seq<char>>, c: Seq<char>, i: int)
    requires
        forall|j: int| i <= j < cs.len() ==> cs[j] != c,
    ensures
        occurrences(cs, c, i) == 0,
    decreases cs.len() - i,
{
    if 0 <= i < cs.len() {
        lemma_occurrences_absent(cs, c, i + 1);
    }
}

/// A label that occurs exactly once among pairwise distinct `cs`.
proof fn lemma_occurrences_once(cs: Seq<Seq<char>>, c: Seq<char>, i: int, at: int)
    requires
        0 <= i <= at < cs.len(),
        cs[at] == c,
        forall|p: int, q: int| 0 <= p < q < cs.len() ==> cs[p] != cs[q],
    ensures
        occurrences(cs, c, i) == 1,
    decreases cs.len() - i,
{
    if i == at {
        assert forall|j: int| i + 1 <= j < cs.len() implies cs[j] != c by {
            assert(cs[at] != cs[j]);
        }
        lemma_occurrences_absent(cs, c, i + 1);
    } else {
        assert(cs[i] != cs[at]);
        lemma_occurrences_once(cs, c, i + 1, at);
    }
}

/// The distinct classes partition `s`: their counts sum to its length.
pub proof fn lemma_counts_partition(s: Seq<Object>)
    ensures
        sum_counts(distinct_classes(s), s, 0) == s.len(),
    decreases s.len(),
{
    if s.len() > 0 {
        let t = s.drop_last();
        let o = s.last();
        let p = distinct_classes(t);
        lemma_counts_partition(t);
        lemma_distinct_classes_distinct(s);
        assert(t.push(o) =~= s);
        if p.contains(o.class@) {
            assert(distinct_classes(s) == p);
            lemma_sum_counts_push(p, t, o, 0);
            let at = choose|i: int| 0 <= i < p.len() && p[i] == o.class@;
            lemma_distinct_classes_distinct(t);
            lemma_occurrences_once(p, o.class@, 0, at);
        } else {
            let d = p.push(o.class@);
            assert(distinct_classes(s) == d);
            lemma_sum_counts_push(d, t, o, 0);
            lemma_occurrences_once(d, o.class@, 0, d.len() - 1);
            lemma_sum_counts_snoc(p, o.class@, t, 0);
            lemma_count_distinct(t, o.class@);
        }
    }
}

/// Summing over one more label adds that label's count.
proof fn lemma_sum_counts_snoc(cs: Seq<Seq<char>>, c: Seq<char>, s: Seq<Object>, i: int)
    requires
        0 <= i <= cs.len(),
    ensures
        sum_counts(cs.push(c), s, i) == sum_counts(cs, s, i) + count_class(s, c),
    decreases cs.len() - i,
{
    let d = cs.push(c);
    assert(d.len() == cs.len() + 1);
    if i < cs.len() {
        lemma_sum_counts_snoc(cs, c, s, i + 1);
        assert(d[i] == cs[i]);
        assert(sum_counts(d, s, i) == count_class(s, d[i]) + sum_counts(d, s, i + 1));
    } else {
        assert(d[i] == c);
        assert(sum_counts(d, s, i + 1) == 0);
        assert(sum_counts(d, s, i) == count_class(s, d[i]) + sum_counts(d, s, i + 1));
        assert(sum_counts(cs, s, i) == 0);
    }
}

/// The entropy contribution factor of one class of count `c` in a subset of
/// size `n`: the fixed-point value of `log2(n) - log2(c)`, clamped at zero.
pub open spec fn lg_diff(n: nat, c: nat) -> nat {
    if log2_q(c) <= log2_q(n) {
        (log2_q(n) - log2_q(c)) as nat
    } else {
        0
    }
}

/// `sum over the classes cs[i..] of count * (log2(|s|) - log2(count))`,
/// in ten-thousandths of a bit, before the final division by `|s|`.
pub open spec fn ent_sum(cs: Seq<Seq<char>>, s: Seq<Object>, i: int) -> nat
    decreases cs.len() - i,
{
    if i < 0 || i >= cs.len() {
        0
    } else {
        count_class(s, cs[i]) * lg_diff(s.len(), count_class(s, cs[i])) + ent_sum(cs, s, i + 1)
    }
}

/// The empirical class entropy of `s`, in ten-thousandths of a bit: the
/// summed per-class contributions divided by the subset size.
pub open spec fn subset_entropy_q(s: Seq<Object>) -> nat {
    if s.len() == 0 {
        0
    } else {
        ent_sum(distinct_classes(s), s, 0) / s.len()
    }
}

/// The summed entropy contributions are at most the summed counts times
/// the logarithm of the subset size.
proof fn lemma_ent_sum_bound(cs: Seq<Seq<char>>, s: Seq<Object>, i: int)
    ensures
        ent_sum(cs, s, i) <= sum_counts(cs, s, i) * log2_q(s.len()),
    decreases cs.len() - i,
{
    if 0 <= i < cs.len() {
        lemma_ent_sum_bound(cs, s, i + 1);
        let c = count_class(s, cs[i]);
        let d = lg_diff(s.len(), c);
        let l = log2_q(s.len());
        assert(c * d + sum_counts(cs, s, i + 1) * l <= (c + sum_counts(cs, s, i + 1)) * l)
            by (nonlinear_arith)
            requires
                d <= l,
        ;
    }
}

/// The entropy of a subset never exceeds the logarithm of its size.
pub proof fn lemma_subset_entropy_le_log(s: Seq<Object>)
    ensures
        subset_entropy_q(s) <= log2_q(s.len()),
{
    if s.len() == 0 {
    } else {
        lemma_ent_sum_bound(distinct_classes(s), s, 0);
        lemma_counts_partition(s);
        assert(ent_sum(distinct_classes(s), s, 0) <= s.len() * log2_q(s.len()));
        assert((s.len() as int) * (log2_q(s.len()) as int) == (s.len() * log2_q(s.len())) as int);
        vstd::arithmetic::div_mod::lemma_multiply_divide_le(
            ent_sum(distinct_classes(s), s, 0) as int,
            s.len() as int,
            log2_q(s.len()) as int,
        );
        assert((ent_sum(distinct_classes(s), s, 0) as int) / (s.len() as int) <= log2_q(
            s.len(),
        ) as int);
        assert(subset_entropy_q(s) == (ent_sum(distinct_classes(s), s, 0) as int) / (
        s.len() as int));
    }
}

/// The class labels of a list of counted pairs.
pub open spec fn pair_keys(ps: Seq<(String, usize)>) -> Seq<Seq<char>> {
    ps.map_values(|p: (String, usize)| p.0@)
}

/// Counts how often each class label occurs in `mp`, pairing each distinct
/// label, in first-occurrence order, with its number of occurrences.
pub fn class_cnt(mp: &Vec<&Object>) -> (r: Vec<(String, usize)>)
    ensures
        pair_keys(r@) == distinct_classes(derefs(mp@)),
        forall|q: int|
            0 <= q < r@.len() ==> r@[q].1 == count_class(derefs(mp@), #[trigger] r@[q].0@),
        r@.len() <= mp@.len(),
{
    let ghost s = derefs(mp@);
    let mut r: Vec<(String, usize)> = Vec::new();
    let mut i: usize = 0;
    proof {
        assert(pair_keys(r@) =~= distinct_classes(s.take(0)));
    }
    while i < mp.len()
        invariant
            0 <= i <= mp@.len(),
            s == derefs(mp@),
            s.len() == mp@.len(),
            r@.len() <= i,
            pair_keys(r@) == distinct_classes(s.take(i as int)),
            forall|q: int|
                0 <= q < r@.len() ==> r@[q].1 == count_class(
                    s.take(i as int),
                    #[trigger] r@[q].0@,
                ),
        decreases mp@.len() - i,
    {
        let o: &Object = mp[i];
        let ghost pref = s.take(i as int);
        let ghost pref1 = s.take(i + 1);
        proof {
            assert(pref1.drop_last() =~= pref);
            assert(pref1.last() == s[i as int]);
            assert(s[i as int] == *mp@[i as int]);
            lemma_distinct_classes_distinct(pref);
        }
        let n0 = r.len();
        let mut j: usize = 0;
        let mut at: usize = n0;
        while j < n0
            invariant
                0 <= j <= n0,
                n0 == r@.len(),
                at == n0 || (at < n0 && r@[at as int].0@ == o.class@),
                at == n0 ==> forall|q: int| 0 <= q < j ==> r@[q].0@ != o.class@,
            decreases n0 - j,
        {
            if at == n0 && r[j].0 == o.class {
                at = j;
            }
            j = j + 1;
        }
        if at < n0 {
            // The class was seen before: raise its count.
            let ghost r0 = r@;
            let mut p = r.remove(at);
            proof {
                assert(p == r0[at as int]);
                assert(pair_keys(r0)[at as int] == p.0@);
                assert(distinct_classes(pref).contains(p.0@));
                lemma_count_distinct(pref, p.0@);
                assert(count_class(pref, p.0@) <= pref.len());
            }
            p.1 = p.1 + 1;
            r.insert(at, p);
            proof {
                assert(distinct_classes(pref1) == distinct_classes(pref));
                assert forall|q: int| 0 <= q < r@.len() implies #[trigger] r@[q].0@ == r0[q].0@
                    && (q == at || r@[q].1 == r0[q].1) by {
                    if q < at {
                        assert(r@[q] == r0[q]);
                    } else if q == at {
                    } else {
                        assert(r@[q] == r0.remove(at as int).insert(at as int, p)[q]);
                        assert(r0.remove(at as int)[q - 1] == r0[q]);
                    }
                }
                assert(pair_keys(r@) =~= distinct_classes(pref1));
                assert forall|q: int| 0 <= q < r@.len() implies r@[q].1 == count_class(
                    pref1,
                    #[trigger] r@[q].0@,
                ) by {
                    if q == at {
                        assert(r@[q].0@ == o.class@);
                    } else {
                        assert(pair_keys(r0)[q] != pair_keys(r0)[at as int]);
                        assert(r@[q].0@ != o.class@);
                    }
                }
            }
        } else {
            // A class not seen before: append it with count one.
            proof {
                if distinct_classes(pref).contains(o.class@) {
                    let w = choose|w: int|
                        0 <= w < distinct_classes(pref).len() && distinct_classes(pref)[w]
                            == o.class@;
                    assert(pair_keys(r@)[w] == o.class@);
                }
                lemma_count_distinct(pref, o.class@);
            }
            r.push((o.class.clone(), 1));
            proof {
                assert(distinct_classes(pref1) == distinct_classes(pref).push(o.class@));
                assert(pair_keys(r@) =~= distinct_classes(pref1));
                assert forall|q: int| 0 <= q < r@.len() implies r@[q].1 == count_class(
                    pref1,
                    #[trigger] r@[q].0@,
                ) by {
                    if q < r@.len() - 1 {
                        assert(pair_keys(r@)[q] == r@[q].0@);
                        assert(!distinct_classes(pref).contains(o.class@));
                        assert(distinct_classes(pref).contains(r@[q].0@)) by {
                            assert(pair_keys(r@.drop_last())[q] == r@[q].0@);
                        }
                    }
                }
            }
        }
        i = i + 1;
    }
    proof {
        assert(s.take(i as int) =~= s);
    }
    r
}

/// The empirical class entropy of the subset `mp`, in ten-thousandths of a
/// bit.
pub fn subset_entropy(mp: &Vec<&Object>) -> (r: u64)
    requires
        mp@.len() >= 1,
    ensures
        r == subset_entropy_q(derefs(mp@)),
        r <= 639999,
{
    let ghost s = derefs(mp@);
    proof {
        assert(s.len() == mp@.len());
    }
    let n: usize = mp.len();
    let ln: u64 = log2q(n as u64);
    let cnt = class_cnt(mp);
    let ghost cs = distinct_classes(s);
    proof {
        lemma_ent_sum_bound(cs, s, 0);
        lemma_counts_partition(s);
        assert(ent_sum(cs, s, 0) <= s.len() * log2_q(s.len()));
        lemma2_to64_top();
        lemma2_to64_rest_small();
        lemma_pow2_adds(64, 20);
        assert(ln == log2_q(s.len()));
        assert(log2_q(s.len()) < pow2(20));
        assert(s.len() < pow2(64));
        assert((s.len() as nat) * (log2_q(s.len()) as nat) < pow2(64) * pow2(20))
            by (nonlinear_arith)
            requires
                (s.len() as nat) < pow2(64),
                (log2_q(s.len()) as nat) < pow2(20),
        ;
        assert(ent_sum(cs, s, 0) < pow2(84));
        assert(pow2(84) == 0x1000000000000000000000);
    }
    let mut acc: u128 = 0;
    let mut i: usize = 0;
    while i < cnt.len()
        invariant
            0 <= i <= cnt@.len(),
            s == derefs(mp@),
            s.len() == mp@.len() >= 1,
            n == mp@.len(),
            ln == log2_q(s.len()),
            cs == distinct_classes(s),
            pair_keys(cnt@) == cs,
            forall|q: int|
                0 <= q < cnt@.len() ==> cnt@[q].1 == count_class(s, #[trigger] cnt@[q].0@),
            ent_sum(cs, s, 0) == acc + ent_sum(cs, s, i as int),
            acc <= ent_sum(cs, s, 0),
            ent_sum(cs, s, 0) < pow2(84),
            pow2(84) == 0x1000000000000000000000,
        decreases cnt@.len() - i,
    {
        let c: usize = cnt[i].1;
        proof {
            assert(pair_keys(cnt@)[i as int] == cnt@[i as int].0@);
            assert(count_class(s, cs[i as int]) == c);
            lemma_count_distinct(s, cs[i as int]);
            assert(cs.contains(cs[i as int]));
            assert(c >= 1);
            assert(c <= s.len());
        }
        let lc: u64 = log2q(c as u64);
        let d: u64 = if lc <= ln {
            ln - lc
        } else {
            0
        };
        proof {
            assert(d == lg_diff(s.len(), c as nat));
            assert(ent_sum(cs, s, i as int) == (c as nat) * (d as nat) + ent_sum(
                cs,
                s,
                i + 1,
            ));
        }
        acc = acc + (c as u128) * (d as u128);
        i = i + 1;
    }
    proof {
        assert(ent_sum(cs, s, i as int) == 0);
        assert(acc == ent_sum(cs, s, 0));
        lemma_subset_entropy_le_log(s);
        assert(subset_entropy_q(s) == (acc as nat) / (s.len() as nat));
    }
    let h: u128 = acc / (n as u128);
    h as u64
}

/// The objects of `s` whose value for the attribute at positional index
/// `ai` equals `v`, in order.
pub open spec fn sub_objs(s: Seq<Object>, ai: int, v: Seq<char>) -> Seq<Object>
    decreases s.len(),
{
    if s.len() == 0 {
        Seq::empty()
    } else {
        let p = sub_objs(s.drop_last(), ai, v);
        if s.last().attr@[ai]@ == v {
            p.push(s.last())
        } else {
            p
        }
    }
}

/// The entropy of the partition of `s` carrying value `v`, weighted by the
/// partition's share of `s`.
pub open spec fn weighted_term(s: Seq<Object>, ai: int, v: Seq<char>) -> nat {
    if s.len() == 0 {
        0
    } else {
        let sub = sub_objs(s, ai, v);
        (sub.len() * subset_entropy_q(sub)) / s.len()
    }
}

/// Sum of the weighted partition entropies for the domain values `vs[i..]`.
pub open spec fn weighted_sum(s: Seq<Object>, ai: int, vs: Seq<Seq<char>>, i: int) -> nat
    decreases vs.len() - i,
{
    if i < 0 || i >= vs.len() {
        0
    } else {
        weighted_term(s, ai, vs[i]) + weighted_sum(s, ai, vs, i + 1)
    }
}

/// The information gain of splitting `s` by attribute `a`, in
/// ten-thousandths of a bit: the subset entropy minus the weighted
/// entropies of the partitions, one per domain value of `a`.
pub open spec fn attr_gain_q(s: Seq<Object>, a: Attr) -> int {
    subset_entropy_q(s) - weighted_sum(s, a.id as int, crate::text::str_views(a.values@), 0)
}

/// The objects of `objs` whose value for the attribute at positional index
/// `id` equals `v`.
pub fn sub_filter<'o>(objs: &Vec<&'o Object>, id: usize, v: &String) -> (r: Vec<&'o Object>)
    requires
        forall|q: int| 0 <= q < objs@.len() ==> id < objs@[q].attr@.len(),
    ensures
        derefs(r@) == sub_objs(derefs(objs@), id as int, v@),
        r@.len() <= objs@.len(),
{
    let ghost s = derefs(objs@);
    let mut r: Vec<&Object> = Vec::new();
    let mut i: usize = 0;
    proof {
        assert(derefs(r@) =~= sub_objs(s.take(0), id as int, v@));
    }
    while i < objs.len()
        invariant
            0 <= i <= objs@.len(),
            s == derefs(objs@),
            s.len() == objs@.len(),
            forall|q: int| 0 <= q < objs@.len() ==> id < objs@[q].attr@.len(),
            r@.len() <= i,
            derefs(r@) == sub_objs(s.take(i as int), id as int, v@),
        decreases objs@.len() - i,
    {
        let o: &Object = objs[i];
        proof {
            assert(s.take(i + 1).drop_last() =~= s.take(i as int));
            assert(s.take(i + 1).last() == s[i as int]);
            assert(s[i as int] == *objs@[i as int]);
        }
        if o.attr[id] == *v {
            r.push(o);
            proof {
                assert(derefs(r@) =~= sub_objs(s.take(i + 1), id as int, v@));
            }
        }
        i = i + 1;
    }
    proof {
        assert(s.take(i as int) =~= s);
    }
    r
}

/// The information gain of one candidate attribute over the subset `objs`,
/// obtained by subtracting from the subset entropy `emp` the weighted
/// entropy of the partition for each domain value in `vals`; `id` is the
/// attribute's positional index.
pub fn attr_entropy(emp: u64, id: usize, vals: &Vec<String>, objs: &Vec<&Object>) -> (r: i128)
    requires
        objs@.len() >= 1,
        emp == subset_entropy_q(derefs(objs@)),
        emp <= 639999,
        forall|q: int| 0 <= q < objs@.len() ==> id < objs@[q].attr@.len(),
    ensures
        r == emp - weighted_sum(derefs(objs@), id as int, crate::text::str_views(vals@), 0),
        r <= 639999,
        r >= -0x1000000000000000000000,
{
    let ghost s = derefs(objs@);
    let ghost vs = crate::text::str_views(vals@);
    let n: usize = objs.len();
    let nv: usize = vals.len();
    let mut acc: u128 = 0;
    let mut vi: usize = 0;
    proof {
        lemma2_to64_top();
        lemma2_to64_rest_small();
        lemma_pow2_adds(64, 20);
        assert(pow2(84) == 0x1000000000000000000000);
        assert(vals@.len() == nv);
        assert(vals@.len() < pow2(64));
    }
    while vi < vals.len()
        invariant
            0 <= vi <= vals@.len(),
            s == derefs(objs@),
            s.len() == objs@.len() >= 1,
            n == objs@.len(),
            vs == crate::text::str_views(vals@),
            vs.len() == vals@.len(),
            forall|q: int| 0 <= q < objs@.len() ==> id < objs@[q].attr@.len(),
            weighted_sum(s, id as int, vs, 0) == acc + weighted_sum(s, id as int, vs, vi as int),
            acc <= 639999 * (vi as nat),
            vals@.len() < pow2(64),
            pow2(84) == 0x1000000000000000000000,
            pow2(84) == pow2(64) * pow2(20),
            pow2(20) == 0x100000,
            pow2(64) == 0x10000000000000000,
        decreases vals@.len() - vi,
    {
        let sub = sub_filter(objs, id, &vals[vi]);
        proof {
            assert(vs[vi as int] == vals@[vi as int]@);
            assert(derefs(sub@) == sub_objs(s, id as int, vs[vi as int]));
            assert(derefs(sub@).len() == sub@.len());
        }
        if sub.len() > 0 {
            let h: u64 = subset_entropy(&sub);
            proof {
                assert((sub@.len() as nat) * (h as nat) < pow2(64) * pow2(20))
                    by (nonlinear_arith)
                    requires
                        (sub@.len() as nat) < pow2(64),
                        (h as nat) < pow2(20),
                ;
            }
            let w: u128 = ((sub.len() as u128) * (h as u128)) / (n as u128);
            proof {
                let subs = sub_objs(s, id as int, vs[vi as int]);
                assert(h == subset_entropy_q(subs));
                assert((sub@.len() as nat) * (h as nat) <= (n as nat) * 639999)
                    by (nonlinear_arith)
                    requires
                        sub@.len() <= n,
                        h <= 639999,
                ;
                vstd::arithmetic::div_mod::lemma_multiply_divide_le(
                    ((sub@.len() as nat) * (h as nat)) as int,
                    n as int,
                    639999,
                );
                assert(w <= 639999);
                assert(w == weighted_term(s, id as int, vs[vi as int]));
                assert(weighted_sum(s, id as int, vs, vi as int) == weighted_term(
                    s,
                    id as int,
                    vs[vi as int],
                ) + weighted_sum(s, id as int, vs, vi + 1));
                assert(acc + w <= 639999 * ((vi + 1) as nat)) by (nonlinear_arith)
                    requires
                        acc <= 639999 * (vi as nat),
                        w <= 639999,
                ;
                assert(639999 * ((vi + 1) as nat) < pow2(84)) by (nonlinear_arith)
                    requires
                        (vi + 1) as nat <= vals@.len() < pow2(64),
                        639999 < pow2(20),
                        pow2(84) == pow2(64) * pow2(20),
                ;
            }
            acc = acc + w;
        } else {
            proof {
                assert(sub_objs(s, id as int, vs[vi as int]).len() == 0);
                assert(weighted_term(s, id as int, vs[vi as int]) == 0);
            }
        }
        vi = vi + 1;
    }
    proof {
        assert(weighted_sum(s, id as int, vs, vi as int) == 0);
        assert(acc == weighted_sum(s, id as int, vs, 0));
        assert(acc < pow2(84));
    }
    (emp as i128) - (acc as i128)
}

/// The index of the greatest gain, earliest index winning ties.
pub open spec fn best_idx(g: Seq<int>) -> int
    decreases g.len(),
{
    if g.len() <= 1 {
        0
    } else {
        let b = best_idx(g.drop_last());
        if g.last() > g[b] {
            g.len() - 1
        } else {
            b
        }
    }
}

/// The selected index carries the maximum gain, and every earlier candidate
/// has a strictly smaller gain: with equal gains the lower index wins.
pub proof fn lemma_best_idx_first_max(g: Seq<int>)
    requires
        g.len() >= 1,
    ensures
        0 <= best_idx(g) < g.len(),
        forall|j: int| 0 <= j < g.len() ==> #[trigger] g[j] <= g[best_idx(g)],
        forall|j: int| 0 <= j < best_idx(g) ==> #[trigger] g[j] < g[best_idx(g)],
    decreases g.len(),
{
    if g.len() > 1 {
        lemma_best_idx_first_max(g.drop_last());
        assert(forall|j: int| 0 <= j < g.len() - 1 ==> g[j] == g.drop_last()[j]);
    }
}

/// The gains of the candidate attributes `attrs` over the subset `s`.
pub open spec fn gains_of(attrs: Seq<Attr>, s: Seq<Object>) -> Seq<int> {
    Seq::new(attrs.len(), |i: int| attr_gain_q(s, attrs[i]))
}

/// The display label of one candidate: its name, `=`, and its gain with
/// four decimal places.
pub open spec fn gain_label(a: Attr, s: Seq<Object>) -> Seq<char> {
    a.name@ + seq!['='] + crate::text::scaled_text(attr_gain_q(s, a))
}

/// The display labels of all candidates, in candidate order.
pub open spec fn labels_of(attrs: Seq<Attr>, s: Seq<Object>) -> Seq<Seq<char>> {
    Seq::new(attrs.len(), |i: int| gain_label(attrs[i], s))
}

/// Candidate attributes are applicable to a subset when each positional
/// index is in range for every object.
pub open spec fn cands_apply(attrs: Seq<Attr>, s: Seq<Object>) -> bool {
    forall|p: int, q: int|
        0 <= p < attrs.len() && 0 <= q < s.len() ==> attrs[p].id < s[q].attr@.len()
}

/// Computes the information gain of every candidate in `mv` over the
/// subset `mp`, and selects the one of strictly greatest gain, the lowest
/// index winning ties.  Returns the selected index and the per-candidate
/// display labels, in candidate order.
pub fn select_best_attribute(mv: &Vec<&Attr>, mp: &Vec<&Object>) -> (r: (usize, Vec<String>))
    requires
        mv@.len() >= 1,
        mp@.len() >= 1,
        cands_apply(attr_derefs(mv@), derefs(mp@)),
    ensures
        r.0 == best_idx(gains_of(attr_derefs(mv@), derefs(mp@))),
        0 <= r.0 < mv@.len(),
        crate::text::str_views(r.1@) == labels_of(attr_derefs(mv@), derefs(mp@)),
        r.1@.len() == mv@.len(),
{
    let ghost s = derefs(mp@);
    let ghost cands = attr_derefs(mv@);
    let ghost g = gains_of(cands, s);
    let emp: u64 = subset_entropy(mp);
    let mut gains: Vec<i128> = Vec::new();
    let mut labels: Vec<String> = Vec::new();
    let mut i: usize = 0;
    while i < mv.len()
        invariant
            0 <= i <= mv@.len(),
            s == derefs(mp@),
            cands == attr_derefs(mv@),
            g == gains_of(cands, s),
            g.len() == mv@.len(),
            s.len() == mp@.len() >= 1,
            cands_apply(cands, s),
            emp == subset_entropy_q(s),
            emp <= 639999,
            gains@.len() == i,
            labels@.len() == i,
            forall|q: int| 0 <= q < i ==> gains@[q] == g[q],
            forall|q: int| 0 <= q < i ==> labels@[q]@ == labels_of(cands, s)[q],
        decreases mv@.len() - i,
    {
        let a: &Attr = mv[i];
        proof {
            assert(cands[i as int] == *mv@[i as int]);
            assert forall|q: int| 0 <= q < mp@.len() implies a.id
                < #[trigger] mp@[q].attr@.len() by {
                assert(s[q] == *mp@[q]);
                assert(cands[i as int].id < s[q].attr@.len());
            }
        }
        let val: i128 = attr_entropy(emp, a.id, &a.values, mp);
        proof {
            assert(val == attr_gain_q(s, cands[i as int]));
            assert(val > i128::MIN);
        }
        let mut lb = a.name.clone();
        lb.append("=");
        proof {
            reveal_strlit("=");
        }
        crate::text::push_scaled(&mut lb, val);
        proof {
            assert(lb@ =~= gain_label(cands[i as int], s));
        }
        gains.push(val);
        labels.push(lb);
        i = i + 1;
    }
    // First-max scan over the computed gains.
    let mut best: usize = 0;
    let mut j: usize = 1;
    proof {
        assert(g.take(1).len() == 1);
        assert(best_idx(g.take(1)) == 0);
    }
    while j < mv.len()
        invariant
            1 <= j <= mv@.len(),
            g.len() == mv@.len() >= 1,
            gains@.len() == mv@.len(),
            forall|q: int| 0 <= q < g.len() ==> gains@[q] == g[q],
            0 <= best < j,
            best == best_idx(g.take(j as int)),
        decreases mv@.len() - j,
    {
        proof {
            assert(g.take(j + 1).drop_last() =~= g.take(j as int));
            assert(g.take(j + 1).last() == g[j as int]);
        }
        if gains[j] > gains[best] {
            best = j;
        }
        j = j + 1;
    }
    proof {
        assert(g.take(j as int) =~= g);
        assert(crate::text::str_views(labels@) =~= labels_of(cands, s));
    }
    (best, labels)
}

/// Powers of two do not decrease.
proof fn lemma_pow2_le(e1: nat, e2: nat)
    requires
        e1 <= e2,
    ensures
        pow2(e1) <= pow2(e2),
{
    if e1 < e2 {
        lemma_pow2_strictly_increases(e1, e2);
    }
}

/// `pow2(64)` exceeds every `u64`.
proof fn lemma2_to64_top()
    ensures
        pow2(64) == 0x10000000000000000,
{
    lemma2_to64_rest_small();
}

/// The handful of powers of two above 64 bits that the mantissa proofs need.
proof fn lemma_pow2_bound_42()
    ensures
        pow2(42) == 0x40000000000,
{
    lemma2_to64_rest_small();
}

/// `pow2(80)` and `pow2(82)` as products of in-range powers.
proof fn lemma_pow2_bound_82()
    ensures
        pow2(80) == pow2(40) * pow2(40),
        pow2(82) == pow2(41) * pow2(41),
        pow2(82) == pow2(40) * pow2(42),
{
    lemma_pow2_adds(40, 40);
    lemma_pow2_adds(41, 41);
    lemma_pow2_adds(40, 42);
}

/// Concrete values of the powers of two this module computes with.
proof fn lemma2_to64_rest_small()
    ensures
        pow2(20) == 0x100000,
        pow2(40) == 0x10000000000,
        pow2(41) == 0x20000000000,
        pow2(42) == 0x40000000000,
        pow2(64) == 0x10000000000000000,
{
    lemma2_to64();
    vstd::arithmetic::power2::lemma2_to64_rest();
}

} // verus!
