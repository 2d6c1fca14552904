use vstd::prelude::*;
use crate::labels::{
    class_counts, classes, lemma_classes_sound, lemma_occurrences_bounded, occurrences,
    present_count, value_counts, ClassCount,
};
use crate::ratio::Ratio;

verus! {

/// The sum of all counts.
pub open spec fn total(counts: Seq<u64>) -> nat
    decreases counts.len(),
{
    if counts.len() == 0 {
        0
    } else {
        total(counts.drop_last()) + counts.last() as nat
    }
}

/// The sum of the squares of all counts.
pub open spec fn square_sum(counts: Seq<u64>) -> nat
    decreases counts.len(),
{
    if counts.len() == 0 {
        0
    } else {
        square_sum(counts.drop_last()) + (counts.last() as nat) * (counts.last() as nat)
    }
}

/// How many of the counts are not zero.
pub open spec fn nonzero(counts: Seq<u64>) -> nat
    decreases counts.len(),
{
    if counts.len() == 0 {
        0
    } else {
        nonzero(counts.drop_last()) + if counts.last() > 0 {
            1nat
        } else {
            0nat
        }
    }
}

/// Denominator of the Gini impurity: the square of the total.
pub open spec fn gini_den(counts: Seq<u64>) -> nat {
    total(counts) * total(counts)
}

/// Numerator of the Gini impurity over `gini_den`: the square of the total
/// less the sum of the squares, so that the quotient is
/// `1 - sum((count / total)^2)`.
pub open spec fn gini_num(counts: Seq<u64>) -> nat {
    (total(counts) * total(counts) - square_sum(counts)) as nat
}

/// The Gini impurity of a distribution as a fraction.
pub open spec fn gini_spec(counts: Seq<u64>) -> Ratio {
    Ratio { num: gini_num(counts) as u128, den: gini_den(counts) as u128 }
}

proof fn lemma_square_monotonic(a: nat, b: nat)
    requires
        a <= b,
    ensures
        a * a <= b * b,
{
    assert(a * a <= b * b) by (nonlinear_arith)
        requires
            a <= b,
    ;
}

/// The squares of the counts never add up to more than the square of their sum.
pub proof fn lemma_square_sum_bounded(counts: Seq<u64>)
    ensures
        square_sum(counts) <= total(counts) * total(counts),
    decreases counts.len(),
{
    if counts.len() > 0 {
        lemma_square_sum_bounded(counts.drop_last());
        let s = total(counts.drop_last());
        let c = counts.last() as nat;
        assert((s + c) * (s + c) >= s * s + c * c) by (nonlinear_arith);
    }
}

/// Totals and square sums over a prefix never exceed those over the whole.
pub proof fn lemma_total_prefix(counts: Seq<u64>, n: int)
    requires
        0 <= n <= counts.len(),
    ensures
        total(counts.take(n)) <= total(counts),
        square_sum(counts.take(n)) <= square_sum(counts),
    decreases counts.len(),
{
    if n == counts.len() {
        assert(counts.take(n) =~= counts);
    } else {
        lemma_total_prefix(counts.drop_last(), n);
        assert(counts.drop_last().take(n) =~= counts.take(n));
        let c = counts.last() as nat;
        assert(c * c >= 0) by (nonlinear_arith);
    }
}

/// The Gini impurity lies between zero and one: its numerator is not
/// negative and does not exceed its denominator.
pub proof fn lemma_gini_in_unit_interval(counts: Seq<u64>)
    ensures
        0 <= total(counts) * total(counts) - square_sum(counts),
        gini_num(counts) <= gini_den(counts),
{
    lemma_square_sum_bounded(counts);
}

/// A distribution with a single category is pure: whatever the positive
/// count, its Gini impurity is zero.
pub proof fn lemma_gini_single_category(count: u64)
    requires
        count > 0,
    ensures
        gini_num(seq![count]) == 0,
        gini_den(seq![count]) > 0,
{
    let counts = seq![count];
    reveal_with_fuel(total, 2);
    reveal_with_fuel(square_sum, 2);
    assert(counts.drop_last() =~= Seq::<u64>::empty());
    assert(total(counts) == count as nat);
    assert(square_sum(counts) == (count as nat) * (count as nat));
    assert((count as nat) * (count as nat) > 0) by (nonlinear_arith)
        requires
            count > 0,
    ;
}

/// The distribution of `k` categories that each hold `count`.
pub open spec fn uniform(k: nat, count: u64) -> Seq<u64> {
    Seq::new(k, |i: int| count)
}

proof fn lemma_uniform_sums(k: nat, count: u64)
    ensures
        total(uniform(k, count)) == k * (count as nat),
        square_sum(uniform(k, count)) == k * ((count as nat) * (count as nat)),
    decreases k,
{
    let c = count as nat;
    if k == 0 {
        assert(0 * c == 0) by (nonlinear_arith);
        assert(0 * (c * c) == 0) by (nonlinear_arith);
    } else {
        lemma_uniform_sums((k - 1) as nat, count);
        assert(uniform(k, count).drop_last() =~= uniform((k - 1) as nat, count));
        assert(k * c == (k - 1) * c + c) by (nonlinear_arith);
        assert(k * (c * c) == (k - 1) * (c * c) + c * c) by (nonlinear_arith);
    }
}

/// For `k` categories of equal positive size the Gini impurity is
/// `1 - 1/k`, that is `(k - 1) / k`.
pub proof fn lemma_gini_equal_categories(k: nat, count: u64)
    requires
        k > 0,
        count > 0,
    ensures
        gini_den(uniform(k, count)) > 0,
        gini_num(uniform(k, count)) * k == gini_den(uniform(k, count)) * (k - 1),
{
    let c = count as nat;
    let counts = uniform(k, count);
    lemma_uniform_sums(k, count);
    lemma_square_sum_bounded(counts);
    let t = total(counts);
    let q = square_sum(counts);
    assert(t * t > 0 && (t * t - q) * k == (t * t) * (k - 1)) by (nonlinear_arith)
        requires
            t == k * c,
            q == k * (c * c),
            k > 0,
            c > 0,
    ;
}

proof fn lemma_cross_terms(counts: Seq<u64>, c: nat)
    ensures
        2 * (total(counts) * c) <= square_sum(counts) + nonzero(counts) * (c * c),
    decreases counts.len(),
{
    if counts.len() == 0 {
        assert(2 * (0 * c) <= 0 + 0 * (c * c)) by (nonlinear_arith);
    } else {
        let front = counts.drop_last();
        lemma_cross_terms(front, c);
        let a = counts.last() as nat;
        let s = total(front);
        let q = square_sum(front);
        let k = nonzero(front);
        if a == 0 {
            assert(2 * ((s + a) * c) <= q + a * a + k * (c * c)) by (nonlinear_arith)
                requires
                    2 * (s * c) <= q + k * (c * c),
                    a == 0,
            ;
        } else {
            assert(2 * ((s + a) * c) <= q + a * a + (k + 1) * (c * c)) by (nonlinear_arith)
                requires
                    2 * (s * c) <= q + k * (c * c),
            ;
        }
    }
}

proof fn lemma_total_squared_bounded(counts: Seq<u64>)
    ensures
        total(counts) * total(counts) <= nonzero(counts) * square_sum(counts),
    decreases counts.len(),
{
    if counts.len() == 0 {
        assert(0 * 0 <= 0 * 0) by (nonlinear_arith);
    } else {
        let front = counts.drop_last();
        lemma_total_squared_bounded(front);
        let a = counts.last() as nat;
        lemma_cross_terms(front, a);
        let s = total(front);
        let q = square_sum(front);
        let k = nonzero(front);
        if a == 0 {
            assert((s + a) * (s + a) <= k * (q + a * a)) by (nonlinear_arith)
                requires
                    s * s <= k * q,
                    a == 0,
            ;
        } else {
            assert((s + a) * (s + a) <= (k + 1) * (q + a * a)) by (nonlinear_arith)
                requires
                    s * s <= k * q,
                    2 * (s * a) <= q + k * (a * a),
            ;
        }
    }
}

/// With `k` categories that are not empty the Gini impurity is at most
/// `1 - 1/k`.
pub proof fn lemma_gini_upper_bound(counts: Seq<u64>)
    ensures
        gini_num(counts) * nonzero(counts) <= gini_den(counts) * (nonzero(counts) - 1),
{
    lemma_total_squared_bounded(counts);
    lemma_square_sum_bounded(counts);
    let t = total(counts);
    let q = square_sum(counts);
    let k = nonzero(counts);
    assert((t * t - q) * k <= (t * t) * (k - 1)) by (nonlinear_arith)
        requires
            t * t <= k * q,
            q <= t * t,
    ;
}

/// Only a distribution with a single category that is not empty is pure:
/// where the Gini impurity of positive counts is zero, there is at most one
/// of them.
pub proof fn lemma_pure_single_category(counts: Seq<u64>)
    requires
        forall|k: int| 0 <= k < counts.len() ==> counts[k] > 0,
        square_sum(counts) == total(counts) * total(counts),
    ensures
        counts.len() <= 1,
    decreases counts.len(),
{
    if counts.len() > 1 {
        let front = counts.drop_last();
        lemma_square_sum_bounded(front);
        let s = total(front);
        let q = square_sum(front);
        let a = counts.last() as nat;
        assert(front[0] == counts[0]);
        lemma_total_prefix(front, 1);
        assert(front.take(1).drop_last() =~= Seq::<u64>::empty());
        reveal_with_fuel(total, 2);
        assert(total(front.take(1)) == front[0]);
        assert(false) by (nonlinear_arith)
            requires
                q + a * a == (s + a) * (s + a),
                q <= s * s,
                s > 0,
                a > 0,
        ;
    }
}

/// The Gini impurity `1 - sum((count / total)^2)` of a distribution of
/// class counts, as an exact fraction over the square of the total.
///
/// The counts must not all be zero; their sum must fit in 64 bits.
pub fn gini(counts: &[u64]) -> (g: Ratio)
    requires
        0 < total(counts@) <= u64::MAX,
    ensures
        g.num == gini_num(counts@),
        g.den == gini_den(counts@),
        g == gini_spec(counts@),
        g.is_proportion(),
{
    let mut n: u64 = 0;
    let mut squares: u128 = 0;
    let mut i: usize = 0;
    while i < counts.len()
        invariant
            0 <= i <= counts.len(),
            total(counts@) <= u64::MAX,
            n == total(counts@.take(i as int)),
            squares == square_sum(counts@.take(i as int)),
        decreases counts.len() - i,
    {
        let c: u64 = counts[i];
        proof {
            let next = counts@.take(i + 1);
            assert(next.drop_last() =~= counts@.take(i as int));
            lemma_total_prefix(counts@, i + 1);
            lemma_square_sum_bounded(next);
            lemma_square_monotonic(total(next), u64::MAX as nat);
            assert((c as nat) * (c as nat) >= 0) by (nonlinear_arith);
        }
        n = n + c;
        squares = squares + (c as u128) * (c as u128);
        i = i + 1;
    }
    proof {
        assert(counts@.take(counts.len() as int) =~= counts@);
        lemma_square_sum_bounded(counts@);
        lemma_square_monotonic(n as nat, u64::MAX as nat);
        assert((n as nat) * (n as nat) > 0) by (nonlinear_arith)
            requires
                n > 0,
        ;
    }
    let den: u128 = (n as u128) * (n as u128);
    Ratio { num: den - squares, den }
}

/// The counts of a tally, without the classes.
pub open spec fn count_column(entries: Seq<ClassCount>) -> Seq<u64> {
    Seq::new(entries.len(), |k: int| entries[k].count)
}

/// The sum of the counts of a tally.
pub open spec fn count_total(entries: Seq<ClassCount>) -> nat {
    total(count_column(entries))
}

/// The Gini impurity of the class distribution of `labels`.
pub open spec fn label_impurity(labels: Seq<Option<u32>>) -> Ratio {
    gini_spec(count_column(class_counts(labels)))
}

/// The total of a prefix of a tally never exceeds the total of the whole.
pub proof fn lemma_count_total_prefix(entries: Seq<ClassCount>, n: int)
    requires
        0 <= n <= entries.len(),
    ensures
        count_total(entries.take(n)) <= count_total(entries),
        n > 0 ==> count_total(entries.take(n)) == count_total(entries.take(n - 1)) + entries[n
            - 1].count,
{
    lemma_total_prefix(count_column(entries), n);
    assert(count_column(entries).take(n) =~= count_column(entries.take(n)));
    if n > 0 {
        assert(count_column(entries.take(n)).drop_last() =~= count_column(entries.take(n - 1)));
    }
}

proof fn lemma_total_update(counts: Seq<u64>, k: int, value: u64)
    requires
        0 <= k < counts.len(),
    ensures
        total(counts.update(k, value)) == total(counts) - counts[k] + value,
    decreases counts.len(),
{
    if k == counts.len() - 1 {
        assert(counts.update(k, value).drop_last() =~= counts.drop_last());
    } else {
        lemma_total_update(counts.drop_last(), k, value);
        assert(counts.update(k, value).drop_last() =~= counts.drop_last().update(k, value));
    }
}

/// The counts of a tally add up to the number of present entries, and
/// every listed class has a positive count.
pub proof fn lemma_counts_total(labels: Seq<Option<u32>>)
    requires
        labels.len() <= u64::MAX,
    ensures
        count_total(class_counts(labels)) == present_count(labels),
        forall|k: int|
            0 <= k < class_counts(labels).len() ==> (#[trigger] class_counts(labels)[k]).count
                == occurrences(labels, classes(labels)[k]) && class_counts(labels)[k].count > 0,
    decreases labels.len(),
{
    lemma_classes_sound(labels);
    assert forall|k: int| 0 <= k < class_counts(labels).len() implies (#[trigger] class_counts(
        labels,
    )[k]).count == occurrences(labels, classes(labels)[k]) && class_counts(labels)[k].count
        > 0 by {
        let code = classes(labels)[k];
        lemma_occurrences_bounded(labels, code);
        assert(classes(labels).contains(code));
    }
    if labels.len() > 0 {
        let front = labels.drop_last();
        lemma_counts_total(front);
        lemma_classes_sound(front);
        assert forall|code: u32| occurrences(front, code) <= u64::MAX by {
            lemma_occurrences_bounded(front, code);
        }
        assert forall|code: u32| occurrences(labels, code) <= u64::MAX by {
            lemma_occurrences_bounded(labels, code);
        }
        let old_counts = count_column(class_counts(front));
        let new_counts = count_column(class_counts(labels));
        match labels.last() {
            Some(code) => {
                if classes(front).contains(code) {
                    let k = choose|k: int| 0 <= k < classes(front).len() && classes(front)[k] == code;
                    assert(new_counts =~= old_counts.update(k, (old_counts[k] + 1) as u64));
                    lemma_total_update(old_counts, k, (old_counts[k] + 1) as u64);
                } else {
                    assert(classes(labels)[classes(front).len() as int] == code);
                    assert(new_counts.drop_last() =~= old_counts);
                }
            },
            None => {
                assert(new_counts =~= old_counts);
            },
        }
    }
}

/// The Gini impurity of the class distribution of `labels`, or nothing when
/// no entry is present.
pub fn estimate_gini(labels: &[Option<u32>]) -> (result: Option<Ratio>)
    ensures
        result.is_none() <==> present_count(labels@) == 0,
        result matches Some(g) ==> g == label_impurity(labels@) && g.is_proportion() && g.den
            == present_count(labels@) * present_count(labels@),
{
    let entries = value_counts(labels);
    let rows: usize = labels.len();
    let mut counts: Vec<u64> = Vec::new();
    let mut k: usize = 0;
    while k < entries.len()
        invariant
            0 <= k <= entries.len(),
            counts@ == count_column(entries@.take(k as int)),
        decreases entries.len() - k,
    {
        counts.push(entries[k].count);
        assert(counts@ =~= count_column(entries@.take(k + 1)));
        k = k + 1;
    }
    proof {
        assert(entries@.take(entries.len() as int) =~= entries@);
        lemma_counts_total(labels@);
        lemma_occurrences_bounded(labels@, 0);
    }
    if counts.len() == 0 {
        assert(count_column(class_counts(labels@)) =~= Seq::<u64>::empty());
        None
    } else {
        proof {
            lemma_total_prefix(counts@, 1);
            assert(counts@.take(1).drop_last() =~= Seq::<u64>::empty());
            reveal_with_fuel(total, 2);
            assert(counts@[0] == entries@[0].count);
        }
        Some(gini(counts.as_slice()))
    }
}

} // verus!
