use vstd::prelude::*;
use crate::bignat::{order_of, BigNat, Order};
use crate::impurity::{estimate_gini, label_impurity};
use crate::labels::present_count;
use crate::ratio::Ratio;
use crate::table::{position, select, select_rows, ColumnModel, Table, Values, ValuesModel};

verus! {

/// A threshold on a continuous feature, held as twice its value so that the
/// midpoint of two whole numbers is exact.
#[derive(Clone, Copy, Debug, PartialEq, Eq, Structural)]
pub struct Cutoff {
    pub twice: i128,
}

/// Each entry is less than every later one.
pub open spec fn strictly_increasing(s: Seq<i64>) -> bool {
    forall|i: int, j: int| 0 <= i < j < s.len() ==> s[i] < s[j]
}

/// The ascending sequence `s` with `v` put in its place, unless it is there.
pub open spec fn insert_sorted(s: Seq<i64>, v: i64) -> Seq<i64>
    decreases s.len(),
{
    if s.len() == 0 {
        seq![v]
    } else if s.last() < v {
        s.push(v)
    } else if s.last() == v {
        s
    } else {
        insert_sorted(s.drop_last(), v).push(s.last())
    }
}

/// The present entries of `values`, each once, in ascending order.
pub open spec fn distinct_sorted(values: Seq<Option<i64>>) -> Seq<i64>
    decreases values.len(),
{
    if values.len() == 0 {
        Seq::empty()
    } else {
        match values.last() {
            Some(v) => insert_sorted(distinct_sorted(values.drop_last()), v),
            None => distinct_sorted(values.drop_last()),
        }
    }
}

/// The candidate thresholds of a feature, each doubled: for every two
/// neighbours among the distinct present values in ascending order, their
/// sum, which is twice their midpoint.
pub open spec fn thresholds(values: Seq<Option<i64>>) -> Seq<int> {
    let d = distinct_sorted(values);
    Seq::new(
        if d.len() > 0 {
            (d.len() - 1) as nat
        } else {
            0
        },
        |k: int| d[k] + d[k + 1],
    )
}

/// A row with this entry goes to the higher side of the threshold: the entry
/// is present and not below it.
pub open spec fn goes_higher(value: Option<i64>, twice: int) -> bool {
    value matches Some(v) && 2 * v >= twice
}

/// A row with this entry goes to the lower side of the threshold: the entry
/// is present and below it.
pub open spec fn goes_lower(value: Option<i64>, twice: int) -> bool {
    value matches Some(v) && 2 * v < twice
}

/// Marks the rows that go to the higher side.
pub open spec fn higher_mask(values: Seq<Option<i64>>, twice: int) -> Seq<bool> {
    Seq::new(values.len(), |i: int| goes_higher(values[i], twice))
}

/// Marks the rows that go to the lower side.
pub open spec fn lower_mask(values: Seq<Option<i64>>, twice: int) -> Seq<bool> {
    Seq::new(values.len(), |i: int| goes_lower(values[i], twice))
}

proof fn lemma_insert_at(s: Seq<i64>, v: i64, pos: int)
    requires
        0 <= pos <= s.len(),
        forall|j: int| pos <= j < s.len() ==> s[j] > v,
        pos == 0 || s[pos - 1] <= v,
    ensures
        insert_sorted(s, v) == if pos > 0 && s[pos - 1] == v {
            s
        } else {
            s.insert(pos, v)
        },
    decreases s.len() - pos,
{
    if pos == s.len() {
        if s.len() == 0 {
            assert(seq![v] =~= s.insert(0, v));
        } else if s.last() < v {
            assert(s.push(v) =~= s.insert(pos, v));
        }
    } else {
        let front = s.drop_last();
        lemma_insert_at(front, v, pos);
        if pos > 0 && s[pos - 1] == v {
            assert(front.push(s.last()) =~= s);
        } else {
            assert(front.insert(pos, v).push(s.last()) =~= s.insert(pos, v));
        }
    }
}

/// Putting a value in its place keeps the order and adds the value, nothing
/// else.
pub proof fn lemma_insert_sorted(s: Seq<i64>, v: i64)
    requires
        strictly_increasing(s),
    ensures
        strictly_increasing(insert_sorted(s, v)),
        forall|x: i64| #[trigger] insert_sorted(s, v).contains(x) <==> (x == v || s.contains(x)),
    decreases s.len(),
{
    let r = insert_sorted(s, v);
    if s.len() == 0 {
        assert(r[0] == v);
    } else if s.last() < v {
        assert(r[s.len() as int] == v);
        assert forall|x: i64| #[trigger] r.contains(x) <==> (x == v || s.contains(x)) by {
            if s.contains(x) {
                let i = choose|i: int| 0 <= i < s.len() && s[i] == x;
                assert(r[i] == x);
            }
        }
    } else if s.last() == v {
        assert(s[s.len() - 1] == v);
    } else {
        let front = s.drop_last();
        let inner = insert_sorted(front, v);
        assert(strictly_increasing(front));
        lemma_insert_sorted(front, v);
        assert forall|i: int| 0 <= i < inner.len() implies inner[i] < s.last() by {
            assert(inner.contains(inner[i]));
            if inner[i] != v {
                let k = choose|k: int| 0 <= k < front.len() && front[k] == inner[i];
                assert(s[k] < s[s.len() - 1]);
            }
        }
        assert forall|x: i64| #[trigger] r.contains(x) <==> (x == v || s.contains(x)) by {
            if r.contains(x) {
                let i = choose|i: int| 0 <= i < r.len() && r[i] == x;
                if i < inner.len() {
                    assert(inner.contains(x));
                    if x != v {
                        let k = choose|k: int| 0 <= k < front.len() && front[k] == x;
                        assert(s[k] == x);
                    }
                } else {
                    assert(s[s.len() - 1] == x);
                }
            }
            if x == v {
                assert(inner.contains(v));
                let i = choose|i: int| 0 <= i < inner.len() && inner[i] == v;
                assert(r[i] == v);
            }
            if s.contains(x) {
                let k = choose|k: int| 0 <= k < s.len() && s[k] == x;
                if k < front.len() {
                    assert(front[k] == x);
                    assert(inner.contains(x));
                    let i = choose|i: int| 0 <= i < inner.len() && inner[i] == x;
                    assert(r[i] == x);
                } else {
                    assert(r[inner.len() as int] == x);
                }
            }
        }
    }
}

/// The distinct values of a column are in strictly ascending order, and a
/// value is among them exactly when some row holds it.
pub proof fn lemma_distinct_sorted(values: Seq<Option<i64>>)
    ensures
        strictly_increasing(distinct_sorted(values)),
        forall|x: i64|
            #[trigger] distinct_sorted(values).contains(x) <==> values.contains(Some(x)),
        distinct_sorted(values).len() <= values.len(),
    decreases values.len(),
{
    if values.len() > 0 {
        let front = values.drop_last();
        lemma_distinct_sorted(front);
        let d = distinct_sorted(front);
        match values.last() {
            Some(v) => {
                lemma_insert_sorted(d, v);
                lemma_insert_length(d, v);
                assert(values[values.len() - 1] == Some(v));
            },
            None => {},
        }
        assert forall|x: i64| #[trigger]
            distinct_sorted(values).contains(x) <==> values.contains(Some(x)) by {
            if front.contains(Some(x)) {
                let i = choose|i: int| 0 <= i < front.len() && front[i] == Some(x);
                assert(values[i] == Some(x));
            }
            if values.contains(Some(x)) {
                let i = choose|i: int| 0 <= i < values.len() && values[i] == Some(x);
                if i < front.len() {
                    assert(front[i] == Some(x));
                }
            }
        }
    }
}

proof fn lemma_insert_length(s: Seq<i64>, v: i64)
    ensures
        s.len() <= insert_sorted(s, v).len() <= s.len() + 1,
    decreases s.len(),
{
    if s.len() > 0 && s.last() > v {
        lemma_insert_length(s.drop_last(), v);
    }
}

/// A feature whose present entries all hold one value has no candidate
/// threshold.
pub proof fn lemma_single_value_no_threshold(values: Seq<Option<i64>>, v: i64)
    requires
        forall|i: int| 0 <= i < values.len() ==> values[i].is_none() || values[i] == Some(v),
    ensures
        thresholds(values).len() == 0,
{
    let d = distinct_sorted(values);
    lemma_distinct_sorted(values);
    if d.len() >= 2 {
        assert(d.contains(d[0]));
        assert(d.contains(d[1]));
        let i = choose|i: int| 0 <= i < values.len() && values[i] == Some(d[0]);
        let j = choose|j: int| 0 <= j < values.len() && values[j] == Some(d[1]);
        assert(d[0] < d[1]);
    }
}

/// The candidate thresholds are in strictly ascending order, and each lies
/// between two neighbouring distinct values of the feature.
pub proof fn lemma_thresholds(values: Seq<Option<i64>>)
    ensures
        forall|j: int, k: int|
            0 <= j < k < thresholds(values).len() ==> thresholds(values)[j] < thresholds(values)[k],
        forall|k: int|
            #![trigger thresholds(values)[k]]
            0 <= k < thresholds(values).len() ==> 2 * distinct_sorted(values)[k] < thresholds(
                values,
            )[k] < 2 * distinct_sorted(values)[k + 1],
{
    lemma_distinct_sorted(values);
    let d = distinct_sorted(values);
    assert forall|j: int, k: int| 0 <= j < k < thresholds(values).len() implies thresholds(
        values,
    )[j] < thresholds(values)[k] by {
        assert(d[j] < d[k]);
        assert(d[j + 1] < d[k + 1]);
    }
    assert forall|k: int|
        #![trigger thresholds(values)[k]]
        0 <= k < thresholds(values).len() implies 2 * d[k] < thresholds(values)[k] < 2 * d[k
        + 1] by {
        assert(d[k] < d[k + 1]);
    }
}

/// The present entries of `values`, each once, in ascending order.
pub fn unique_sorted(values: &Vec<Option<i64>>) -> (found: Vec<i64>)
    ensures
        found@ == distinct_sorted(values@),
{
    let mut found: Vec<i64> = Vec::new();
    let mut i: usize = 0;
    while i < values.len()
        invariant
            0 <= i <= values.len(),
            found@ == distinct_sorted(values@.take(i as int)),
        decreases values.len() - i,
    {
        proof {
            assert(values@.take(i + 1).drop_last() =~= values@.take(i as int));
        }
        match values[i] {
            Some(v) => {
                let mut pos: usize = found.len();
                while pos > 0 && found[pos - 1] > v
                    invariant
                        0 <= pos <= found.len(),
                        forall|j: int| pos <= j < found.len() ==> found@[j] > v,
                    decreases pos,
                {
                    pos = pos - 1;
                }
                proof {
                    lemma_insert_at(found@, v, pos as int);
                }
                if pos == 0 || found[pos - 1] != v {
                    found.insert(pos, v);
                }
            },
            None => {},
        }
        i = i + 1;
    }
    proof {
        assert(values@.take(values.len() as int) =~= values@);
    }
    found
}

/// The candidate thresholds of a feature: the midpoints of every two
/// neighbours among its distinct present values, in ascending order.
pub fn candidate_cutoffs(values: &Vec<Option<i64>>) -> (cutoffs: Vec<Cutoff>)
    ensures
        cutoffs@.len() == thresholds(values@).len(),
        forall|k: int| 0 <= k < cutoffs@.len() ==> (#[trigger] cutoffs@[k]).twice == thresholds(values@)[k],
{
    let found = unique_sorted(values);
    let count: usize = if found.len() > 0 {
        found.len() - 1
    } else {
        0
    };
    let mut cutoffs: Vec<Cutoff> = Vec::new();
    let mut k: usize = 0;
    while k < count
        invariant
            found@ == distinct_sorted(values@),
            count == thresholds(values@).len(),
            cutoffs@.len() == k,
            k <= count,
            forall|j: int| 0 <= j < k ==> (#[trigger] cutoffs@[j]).twice == thresholds(values@)[j],
        decreases count - k,
    {
        let twice: i128 = (found[k] as i128) + (found[k + 1] as i128);
        cutoffs.push(Cutoff { twice });
        k = k + 1;
    }
    cutoffs
}

/// A fraction of two natural numbers.
pub struct Fraction {
    pub num: nat,
    pub den: nat,
}

/// The weighted impurity of a split as an exact fraction of two numbers of any
/// size.
#[derive(Debug)]
pub struct Metric {
    pub num: BigNat,
    pub den: BigNat,
}

impl View for Metric {
    type V = Fraction;

    open spec fn view(&self) -> Fraction {
        Fraction { num: self.num@, den: self.den@ }
    }
}

impl Clone for Metric {
    fn clone(&self) -> (copy: Metric)
        ensures
            copy@ == self@,
    {
        Metric { num: self.num.clone(), den: self.den.clone() }
    }
}

impl Metric {
    /// The order of the numbers that `self` and `other` denote, both
    /// denominators being positive.
    pub open spec fn order(self, other: Metric) -> Order {
        order_of((self@.num * other@.den) as int, (other@.num * self@.den) as int)
    }

    /// Compares the numbers that `self` and `other` denote.
    pub fn compare(&self, other: &Metric) -> (o: Order)
        ensures
            o == self.order(*other),
    {
        let left = self.num.mul(&other.den);
        let right = other.num.mul(&self.den);
        left.compare(&right)
    }

    /// Whether the metric is zero.
    pub fn is_zero(&self) -> (b: bool)
        ensures
            b == (self@.num == 0),
    {
        self.num.is_zero()
    }
}

/// A candidate threshold of one feature with the weighted impurity that
/// splitting there leaves.
#[derive(Debug)]
pub struct SplitCandidate {
    pub split: Cutoff,
    pub metric: Metric,
}

/// The mathematical content of a `SplitCandidate`: twice the threshold and
/// the weighted impurity.
pub struct CandidateModel {
    pub twice: int,
    pub metric: Fraction,
}

impl View for SplitCandidate {
    type V = CandidateModel;

    open spec fn view(&self) -> CandidateModel {
        CandidateModel { twice: self.split.twice as int, metric: self.metric@ }
    }
}

/// Why a table cannot be searched.
#[derive(Clone, Copy, Debug, PartialEq, Eq, Structural)]
pub enum InputError {
    /// The table has no column of the feature's name.
    FeatureMissing,
    /// The feature's column does not hold ordered numbers.
    FeatureNotContinuous,
    /// The table has no column of the target's name.
    TargetMissing,
    /// The target's column does not hold class codes.
    TargetNotCategorical,
}

/// The impurity that one side of a split contributes: the Gini impurity of
/// its labels, and zero where it has none.
pub open spec fn side_impurity(labels: Seq<Option<u32>>) -> Ratio {
    if present_count(labels) == 0 {
        Ratio { num: 0, den: 1 }
    } else {
        label_impurity(labels)
    }
}

/// The labels of the rows that go to the higher side.
pub open spec fn higher_labels(values: Seq<Option<i64>>, labels: Seq<Option<u32>>, twice: int) -> Seq<
    Option<u32>,
> {
    select(labels, higher_mask(values, twice))
}

/// The labels of the rows that go to the lower side.
pub open spec fn lower_labels(values: Seq<Option<i64>>, labels: Seq<Option<u32>>, twice: int) -> Seq<
    Option<u32>,
> {
    select(labels, lower_mask(values, twice))
}

/// Numerator of the weighted impurity of a split over `metric_den`.
///
/// The weighted impurity is
/// `(|higher| * impurity(higher) + |lower| * impurity(lower)) / |table|`,
/// with the two impurities as fractions brought to a common denominator.
pub open spec fn metric_num(values: Seq<Option<i64>>, labels: Seq<Option<u32>>, twice: int) -> nat {
    let h = higher_labels(values, labels, twice);
    let l = lower_labels(values, labels, twice);
    let gh = side_impurity(h);
    let gl = side_impurity(l);
    (h.len() * gh.num * gl.den + l.len() * gl.num * gh.den) as nat
}

/// Denominator of the weighted impurity of a split.
pub open spec fn metric_den(values: Seq<Option<i64>>, labels: Seq<Option<u32>>, twice: int) -> nat {
    let h = higher_labels(values, labels, twice);
    let l = lower_labels(values, labels, twice);
    let gh = side_impurity(h);
    let gl = side_impurity(l);
    (gh.den * gl.den * values.len()) as nat
}

/// The weighted impurity of a split:
/// `(|higher| * impurity(higher) + |lower| * impurity(lower)) / |table|`.
pub open spec fn split_fraction(values: Seq<Option<i64>>, labels: Seq<Option<u32>>, twice: int) -> Fraction {
    Fraction {
        num: metric_num(values, labels, twice),
        den: metric_den(values, labels, twice),
    }
}

/// Marks the rows that go to the higher side of `cutoff`.
pub fn mask_higher(values: &Vec<Option<i64>>, cutoff: Cutoff) -> (mask: Vec<bool>)
    ensures
        mask@ == higher_mask(values@, cutoff.twice as int),
{
    let mut mask: Vec<bool> = Vec::new();
    let mut i: usize = 0;
    while i < values.len()
        invariant
            0 <= i <= values.len(),
            mask@ == higher_mask(values@.take(i as int), cutoff.twice as int),
        decreases values.len() - i,
    {
        let goes: bool = match values[i] {
            Some(v) => 2 * (v as i128) >= cutoff.twice,
            None => false,
        };
        mask.push(goes);
        assert(mask@ =~= higher_mask(values@.take(i + 1), cutoff.twice as int));
        i = i + 1;
    }
    proof {
        assert(values@.take(values.len() as int) =~= values@);
    }
    mask
}

/// Marks the rows that go to the lower side of `cutoff`.
pub fn mask_lower(values: &Vec<Option<i64>>, cutoff: Cutoff) -> (mask: Vec<bool>)
    ensures
        mask@ == lower_mask(values@, cutoff.twice as int),
{
    let mut mask: Vec<bool> = Vec::new();
    let mut i: usize = 0;
    while i < values.len()
        invariant
            0 <= i <= values.len(),
            mask@ == lower_mask(values@.take(i as int), cutoff.twice as int),
        decreases values.len() - i,
    {
        let goes: bool = match values[i] {
            Some(v) => 2 * (v as i128) < cutoff.twice,
            None => false,
        };
        mask.push(goes);
        assert(mask@ =~= lower_mask(values@.take(i + 1), cutoff.twice as int));
        i = i + 1;
    }
    proof {
        assert(values@.take(values.len() as int) =~= values@);
    }
    mask
}

/// The impurity that a side with these labels contributes to a split.
fn side_gini(labels: &Vec<Option<u32>>) -> (g: Ratio)
    ensures
        g == side_impurity(labels@),
        g.is_proportion(),
{
    match estimate_gini(labels.as_slice()) {
        Some(g) => g,
        None => Ratio { num: 0, den: 1 },
    }
}

/// The weighted impurity that splitting the rows at `cutoff` leaves.
///
/// Rows whose feature entry is missing go to neither side. A side without
/// labels contributes nothing.
pub fn split_metric(values: &Vec<Option<i64>>, labels: &Vec<Option<u32>>, cutoff: Cutoff) -> (metric:
    Metric)
    ensures
        metric@ == split_fraction(values@, labels@, cutoff.twice as int),
{
    let higher = select_rows(labels, &mask_higher(values, cutoff));
    let lower = select_rows(labels, &mask_lower(values, cutoff));
    let gh = side_gini(&higher);
    let gl = side_gini(&lower);
    let gh_num = BigNat::from_u128(gh.num);
    let gh_den = BigNat::from_u128(gh.den);
    let gl_num = BigNat::from_u128(gl.num);
    let gl_den = BigNat::from_u128(gl.den);
    let from_higher = BigNat::from_u64(higher.len() as u64).mul(&gh_num).mul(&gl_den);
    let from_lower = BigNat::from_u64(lower.len() as u64).mul(&gl_num).mul(&gh_den);
    let num = from_higher.add(&from_lower);
    let den = gh_den.mul(&gl_den).mul(&BigNat::from_u64(values.len() as u64));
    Metric { num, den }
}

/// The columns that a split search on `feature` and `target` reads, or the
/// reason why it cannot be made.
pub open spec fn search_inputs(columns: Seq<ColumnModel>, feature: Seq<char>, target: Seq<char>) -> Result<
    (Seq<Option<i64>>, Seq<Option<u32>>),
    InputError,
> {
    match position(columns, feature) {
        None => Err(InputError::FeatureMissing),
        Some(i) => match columns[i].values {
            ValuesModel::Categorical(_) => Err(InputError::FeatureNotContinuous),
            ValuesModel::Continuous(values) => match position(columns, target) {
                None => Err(InputError::TargetMissing),
                Some(j) => match columns[j].values {
                    ValuesModel::Continuous(_) => Err(InputError::TargetNotCategorical),
                    ValuesModel::Categorical(labels) => Ok((values, labels)),
                },
            },
        },
    }
}

/// `candidates` lists every candidate threshold of the feature in ascending
/// order, each with the weighted impurity of splitting there.
pub open spec fn is_evaluation(
    candidates: Seq<SplitCandidate>,
    values: Seq<Option<i64>>,
    labels: Seq<Option<u32>>,
) -> bool {
    &&& candidates.len() == thresholds(values).len()
    &&& forall|k: int|
        #![trigger candidates[k]]
        0 <= k < candidates.len() ==> candidates[k]@ == (CandidateModel {
            twice: thresholds(values)[k],
            metric: split_fraction(values, labels, thresholds(values)[k]),
        })
}

/// Scores every candidate threshold of a feature column against the labels.
pub fn evaluate_columns(values: &Vec<Option<i64>>, labels: &Vec<Option<u32>>) -> (candidates: Vec<
    SplitCandidate,
>)
    ensures
        is_evaluation(candidates@, values@, labels@),
{
    let cutoffs = candidate_cutoffs(values);
    let mut candidates: Vec<SplitCandidate> = Vec::new();
    let mut k: usize = 0;
    while k < cutoffs.len()
        invariant
            0 <= k <= cutoffs.len(),
            cutoffs@.len() == thresholds(values@).len(),
            forall|j: int|
                0 <= j < cutoffs@.len() ==> (#[trigger] cutoffs@[j]).twice == thresholds(values@)[j],
            candidates@.len() == k,
            forall|j: int|
                #![trigger candidates@[j]]
                0 <= j < k ==> candidates@[j]@ == (CandidateModel {
                    twice: thresholds(values@)[j],
                    metric: split_fraction(values@, labels@, thresholds(values@)[j]),
                }),
        decreases cutoffs.len() - k,
    {
        let cutoff = cutoffs[k];
        let metric = split_metric(values, labels, cutoff);
        candidates.push(SplitCandidate { split: cutoff, metric });
        k = k + 1;
    }
    candidates
}

/// Split search on one feature: every candidate threshold of the feature
/// with the weighted impurity of splitting the table there.
///
/// The candidates come in ascending order of threshold; a feature with fewer
/// than two distinct present values has none. A feature or target that the
/// table lacks, a feature that is not continuous and a target that is not
/// categorical are reported, the feature's fault first.
pub fn evaluate_metric(table: &Table, feature: &String, target: &String) -> (result: Result<
    Vec<SplitCandidate>,
    InputError,
>)
    ensures
        match search_inputs(table@, feature@, target@) {
            Ok((values, labels)) => result matches Ok(candidates) && is_evaluation(
                candidates@,
                values,
                labels,
            ),
            Err(e) => result matches Err(error) && error == e,
        },
{
    let values = match table.lookup(feature) {
        None => {
            return Err(InputError::FeatureMissing);
        },
        Some(column) => match &column.values {
            Values::Categorical(_) => {
                return Err(InputError::FeatureNotContinuous);
            },
            Values::Continuous(values) => values,
        },
    };
    let labels = match table.lookup(target) {
        None => {
            return Err(InputError::TargetMissing);
        },
        Some(column) => match &column.values {
            Values::Continuous(_) => {
                return Err(InputError::TargetNotCategorical);
            },
            Values::Categorical(labels) => labels,
        },
    };
    Ok(evaluate_columns(values, labels))
}

} // verus!
