use vstd::prelude::*;
use crate::bignat::Order;
use crate::impurity::lemma_counts_total;
use crate::labels::{lemma_occurrences_bounded, present_count};
use crate::names::{
    comes_before, lemma_bytes_before_irreflexive, lemma_bytes_before_transitive, name_before,
    names_of,
};
use crate::split::{
    evaluate_columns, higher_labels, is_evaluation, lemma_distinct_sorted, lower_labels,
    metric_den, metric_num, side_impurity, thresholds, Cutoff, Metric,
};
use crate::table::{
    aligned, continuous_of, lemma_position, lemma_select, position, rows_of, ColumnModel, Table,
};
use vstd::utf8::encode_utf8;

verus! {

/// A candidate split as plain numbers: the place of its feature in the list
/// of features, twice its threshold, and its weighted impurity as a fraction.
pub struct Pick {
    pub feature: int,
    pub twice: int,
    pub num: nat,
    pub den: nat,
}

/// The candidate `c` is preferred to `b`: its weighted impurity is smaller,
/// or it is the same and the name of its feature comes first, or that is the
/// same too and its threshold is lower.
pub open spec fn better(names: Seq<Seq<char>>, c: Pick, b: Pick) -> bool {
    ||| c.num * b.den < b.num * c.den
    ||| (c.num * b.den == b.num * c.den && (name_before(names[c.feature], names[b.feature]) || (
    names[c.feature] == names[b.feature] && c.twice < b.twice)))
}

/// Candidate `j` of the feature at place `k`, whose column is `values`.
pub open spec fn candidate(values: Seq<Option<i64>>, labels: Seq<Option<u32>>, k: int, j: int) -> Pick {
    let twice = thresholds(values)[j];
    Pick {
        feature: k,
        twice,
        num: metric_num(values, labels, twice),
        den: metric_den(values, labels, twice),
    }
}

/// The preferred one among `incumbent` and the first `upto` candidates of
/// the feature at place `k`.
pub open spec fn pick_in_feature(
    values: Seq<Option<i64>>,
    labels: Seq<Option<u32>>,
    names: Seq<Seq<char>>,
    k: int,
    upto: nat,
    incumbent: Option<Pick>,
) -> Option<Pick>
    decreases upto,
{
    if upto == 0 {
        incumbent
    } else {
        let c = candidate(values, labels, k, upto - 1);
        match pick_in_feature(values, labels, names, k, (upto - 1) as nat, incumbent) {
            None => Some(c),
            Some(b) => if better(names, c, b) {
                Some(c)
            } else {
                Some(b)
            },
        }
    }
}

/// The preferred one among all candidates of the first `upto` features.
/// A feature whose column is not continuous has no candidate.
pub open spec fn pick_in_features(
    columns: Seq<ColumnModel>,
    names: Seq<Seq<char>>,
    labels: Seq<Option<u32>>,
    upto: nat,
) -> Option<Pick>
    decreases upto,
{
    if upto == 0 {
        None
    } else {
        let before = pick_in_features(columns, names, labels, (upto - 1) as nat);
        match continuous_of(columns, names[upto - 1]) {
            Some(values) => pick_in_feature(
                values,
                labels,
                names,
                upto - 1,
                thresholds(values).len(),
                before,
            ),
            None => before,
        }
    }
}

/// The preferred candidate over all features, or nothing where no feature
/// has a candidate.
pub open spec fn best_pick(columns: Seq<ColumnModel>, names: Seq<Seq<char>>, labels: Seq<Option<u32>>) -> Option<
    Pick,
> {
    pick_in_features(columns, names, labels, names.len())
}

/// The split that a search settled on.
#[derive(Debug)]
pub struct BestSplit {
    /// The place of the feature in the list of features.
    pub feature: usize,
    pub cutoff: Cutoff,
    pub metric: Metric,
}

impl View for BestSplit {
    type V = Pick;

    open spec fn view(&self) -> Pick {
        Pick {
            feature: self.feature as int,
            twice: self.cutoff.twice as int,
            num: self.metric@.num,
            den: self.metric@.den,
        }
    }
}

/// `found` holds the numbers of `pick`.
pub open spec fn is_pick(found: Option<BestSplit>, pick: Option<Pick>) -> bool {
    match found {
        None => pick.is_none(),
        Some(f) => pick == Some(f@),
    }
}

/// A pick of the first `upto` features names one of them.
pub proof fn lemma_pick_in_range(
    columns: Seq<ColumnModel>,
    names: Seq<Seq<char>>,
    labels: Seq<Option<u32>>,
    upto: nat,
)
    ensures
        match pick_in_features(columns, names, labels, upto) {
            Some(p) => 0 <= p.feature < upto && match continuous_of(columns, names[p.feature]) {
                Some(values) => exists|j: int|
                    0 <= j < thresholds(values).len() && p == candidate(
                        values,
                        labels,
                        p.feature,
                        j,
                    ),
                None => false,
            },
            None => true,
        },
    decreases upto,
{
    if upto > 0 {
        lemma_pick_in_range(columns, names, labels, (upto - 1) as nat);
        let before = pick_in_features(columns, names, labels, (upto - 1) as nat);
        match continuous_of(columns, names[upto - 1]) {
            Some(values) => {
                lemma_pick_in_feature(
                    values,
                    labels,
                    names,
                    upto - 1,
                    thresholds(values).len(),
                    before,
                );
            },
            None => {},
        }
    }
}

proof fn lemma_pick_in_feature(
    values: Seq<Option<i64>>,
    labels: Seq<Option<u32>>,
    names: Seq<Seq<char>>,
    k: int,
    upto: nat,
    incumbent: Option<Pick>,
)
    requires
        upto <= thresholds(values).len(),
    ensures
        match pick_in_feature(values, labels, names, k, upto, incumbent) {
            None => incumbent.is_none() && upto == 0,
            Some(p) => incumbent == Some(p) || exists|j: int|
                0 <= j < upto && p == candidate(values, labels, k, j),
        },
    decreases upto,
{
    if upto > 0 {
        lemma_pick_in_feature(values, labels, names, k, (upto - 1) as nat, incumbent);
        let p = pick_in_feature(values, labels, names, k, upto, incumbent).unwrap();
        if p == candidate(values, labels, k, upto - 1) {
        } else {
            let prev = pick_in_feature(values, labels, names, k, (upto - 1) as nat, incumbent);
            assert(prev == Some(p));
            if incumbent != Some(p) {
                let j = choose|j: int| 0 <= j < upto - 1 && p == candidate(values, labels, k, j);
                assert(0 <= j < upto && p == candidate(values, labels, k, j));
            }
        }
    }
}

/// `c` is a candidate of one of the features.
pub open spec fn is_candidate(
    columns: Seq<ColumnModel>,
    names: Seq<Seq<char>>,
    labels: Seq<Option<u32>>,
    c: Pick,
) -> bool {
    0 <= c.feature < names.len() && match continuous_of(columns, names[c.feature]) {
        Some(values) => exists|j: int|
            0 <= j < thresholds(values).len() && c == candidate(values, labels, c.feature, j),
        None => false,
    }
}

/// The side of a split has an impurity with a positive denominator.
pub proof fn lemma_side_impurity(labels: Seq<Option<u32>>)
    requires
        labels.len() <= u64::MAX,
    ensures
        side_impurity(labels).den > 0,
        present_count(labels) > 0 ==> side_impurity(labels).den == present_count(labels)
            * present_count(labels),
{
    if present_count(labels) > 0 {
        lemma_counts_total(labels);
        lemma_occurrences_bounded(labels, 0);
        let n = present_count(labels);
        assert(0 < n * n <= 0xffff_ffff_ffff_ffff * 0xffff_ffff_ffff_ffff) by (nonlinear_arith)
            requires
                0 < n <= 0xffff_ffff_ffff_ffff,
        ;
    }
}

/// The weighted impurity of a split of a table with rows has a positive
/// denominator.
pub proof fn lemma_metric_den_positive(values: Seq<Option<i64>>, labels: Seq<Option<u32>>, twice: int)
    requires
        values.len() == labels.len(),
        0 < labels.len() <= u64::MAX,
    ensures
        metric_den(values, labels, twice) > 0,
{
    let h = higher_labels(values, labels, twice);
    let l = lower_labels(values, labels, twice);
    lemma_select(labels, crate::split::higher_mask(values, twice));
    lemma_select(labels, crate::split::lower_mask(values, twice));
    lemma_side_impurity(h);
    lemma_side_impurity(l);
    let a = side_impurity(h).den as int;
    let b = side_impurity(l).den as int;
    let n = values.len() as int;
    assert(a * b * n > 0) by (nonlinear_arith)
        requires
            a > 0,
            b > 0,
            n > 0,
    ;
}

proof fn lemma_fraction_order(x: int, dx: int, y: int, dy: int, z: int, dz: int)
    requires
        dx > 0,
        dy > 0,
        dz > 0,
        x >= 0,
        y >= 0,
        z >= 0,
    ensures
        x * dy < y * dx && y * dz <= z * dy ==> x * dz < z * dx,
        x * dy <= y * dx && y * dz < z * dy ==> x * dz < z * dx,
        x * dy == y * dx && y * dz == z * dy ==> x * dz == z * dx,
{
    if x * dy < y * dx && y * dz <= z * dy {
        assert((x * dy) * dz < (y * dx) * dz) by (nonlinear_arith)
            requires
                x * dy < y * dx,
                dz > 0,
        ;
        assert((y * dz) * dx <= (z * dy) * dx) by (nonlinear_arith)
            requires
                y * dz <= z * dy,
                dx > 0,
        ;
        assert((x * dy) * dz == (x * dz) * dy) by (nonlinear_arith);
        assert((y * dx) * dz == (y * dz) * dx) by (nonlinear_arith);
        assert((z * dy) * dx == (z * dx) * dy) by (nonlinear_arith);
        assert(x * dz < z * dx) by (nonlinear_arith)
            requires
                (x * dz) * dy < (z * dx) * dy,
                dy > 0,
        ;
    }
    if x * dy <= y * dx && y * dz < z * dy {
        assert((x * dy) * dz <= (y * dx) * dz) by (nonlinear_arith)
            requires
                x * dy <= y * dx,
                dz > 0,
        ;
        assert((y * dz) * dx < (z * dy) * dx) by (nonlinear_arith)
            requires
                y * dz < z * dy,
                dx > 0,
        ;
        assert((x * dy) * dz == (x * dz) * dy) by (nonlinear_arith);
        assert((y * dx) * dz == (y * dz) * dx) by (nonlinear_arith);
        assert((z * dy) * dx == (z * dx) * dy) by (nonlinear_arith);
        assert(x * dz < z * dx) by (nonlinear_arith)
            requires
                (x * dz) * dy < (z * dx) * dy,
                dy > 0,
        ;
    }
    if x * dy == y * dx && y * dz == z * dy {
        assert((x * dy) * dz == (x * dz) * dy) by (nonlinear_arith);
        assert((y * dx) * dz == (y * dz) * dx) by (nonlinear_arith);
        assert((z * dy) * dx == (z * dx) * dy) by (nonlinear_arith);
        assert(x * dz == z * dx) by (nonlinear_arith)
            requires
                (x * dz) * dy == (z * dx) * dy,
                dy > 0,
        ;
    }
}

/// No candidate is preferred to itself.
pub proof fn lemma_better_irreflexive(names: Seq<Seq<char>>, a: Pick)
    ensures
        !better(names, a, a),
{
    lemma_bytes_before_irreflexive(encode_utf8(names[a.feature]));
}

/// Preference is transitive.
pub proof fn lemma_better_transitive(names: Seq<Seq<char>>, a: Pick, b: Pick, c: Pick)
    requires
        a.den > 0,
        b.den > 0,
        c.den > 0,
        better(names, a, b),
        better(names, b, c),
    ensures
        better(names, a, c),
{
    lemma_fraction_order(
        a.num as int,
        a.den as int,
        b.num as int,
        b.den as int,
        c.num as int,
        c.den as int,
    );
    if a.num * b.den == b.num * a.den && b.num * c.den == c.num * b.den {
        if name_before(names[a.feature], names[b.feature]) && name_before(
            names[b.feature],
            names[c.feature],
        ) {
            lemma_bytes_before_transitive(
                encode_utf8(names[a.feature]),
                encode_utf8(names[b.feature]),
                encode_utf8(names[c.feature]),
            );
        }
    }
}

proof fn lemma_feature_least(
    values: Seq<Option<i64>>,
    labels: Seq<Option<u32>>,
    names: Seq<Seq<char>>,
    k: int,
    upto: nat,
    incumbent: Option<Pick>,
)
    requires
        upto <= thresholds(values).len(),
        values.len() == labels.len(),
        labels.len() <= u64::MAX,
        incumbent matches Some(b) ==> b.den > 0,
    ensures
        match pick_in_feature(values, labels, names, k, upto, incumbent) {
            None => incumbent.is_none() && upto == 0,
            Some(p) => {
                &&& p.den > 0
                &&& incumbent matches Some(b) ==> p == b || better(names, p, b)
                &&& forall|j: int|
                    0 <= j < upto ==> !better(names, #[trigger] candidate(values, labels, k, j), p)
            },
        },
    decreases upto,
{
    if upto > 0 {
        lemma_feature_least(values, labels, names, k, (upto - 1) as nat, incumbent);
        lemma_distinct_sorted(values);
        let c = candidate(values, labels, k, upto - 1);
        lemma_metric_den_positive(values, labels, c.twice);
        lemma_better_irreflexive(names, c);
        match pick_in_feature(values, labels, names, k, (upto - 1) as nat, incumbent) {
            None => {},
            Some(b) => {
                if better(names, c, b) {
                    assert forall|j: int| 0 <= j < upto - 1 implies !better(
                        names,
                        #[trigger] candidate(values, labels, k, j),
                        c,
                    ) by {
                        let e = candidate(values, labels, k, j);
                        lemma_metric_den_positive(values, labels, e.twice);
                        if better(names, e, c) {
                            lemma_better_transitive(names, e, c, b);
                        }
                    }
                    if incumbent.is_some() && incumbent.unwrap() != b {
                        lemma_better_transitive(names, c, b, incumbent.unwrap());
                    }
                }
            },
        }
    }
}

proof fn lemma_features_least(
    columns: Seq<ColumnModel>,
    names: Seq<Seq<char>>,
    labels: Seq<Option<u32>>,
    upto: nat,
)
    requires
        aligned(columns),
        labels.len() == rows_of(columns),
        labels.len() <= u64::MAX,
        upto <= names.len(),
    ensures
        match pick_in_features(columns, names, labels, upto) {
            None => forall|c: Pick|
                #![trigger is_candidate(columns, names, labels, c)]
                is_candidate(columns, names, labels, c) ==> c.feature >= upto,
            Some(p) => {
                &&& p.den > 0
                &&& forall|c: Pick|
                    #![trigger is_candidate(columns, names, labels, c)]
                    is_candidate(columns, names, labels, c) && c.feature < upto ==> c.den > 0
                        && !better(names, c, p)
            },
        },
    decreases upto,
{
    if upto > 0 {
        let k = upto - 1;
        lemma_features_least(columns, names, labels, k as nat);
        let before = pick_in_features(columns, names, labels, k as nat);
        let after = pick_in_features(columns, names, labels, upto);
        match continuous_of(columns, names[k]) {
            Some(values) => {
                lemma_position(columns, names[k]);
                let at = position(columns, names[k]).unwrap();
                assert(columns[at].values.len() == rows_of(columns));
                lemma_feature_least(values, labels, names, k, thresholds(values).len(), before);
            },
            None => {},
        }
        match after {
            None => {},
            Some(p) => {
                assert forall|c: Pick|
                    #![trigger is_candidate(columns, names, labels, c)]
                    is_candidate(columns, names, labels, c) && c.feature < upto implies c.den > 0
                    && !better(names, c, p) by {
                    let values = continuous_of(columns, names[c.feature]).unwrap();
                    lemma_position(columns, names[c.feature]);
                    let at = position(columns, names[c.feature]).unwrap();
                    assert(columns[at].values.len() == rows_of(columns));
                    lemma_distinct_sorted(values);
                    lemma_metric_den_positive(values, labels, c.twice);
                    if c.feature < k {
                        let b = before.unwrap();
                        if p != b && better(names, c, p) {
                            lemma_better_transitive(names, c, p, b);
                        }
                    } else {
                        let j = choose|j: int|
                            0 <= j < thresholds(values).len() && c == candidate(
                                values,
                                labels,
                                c.feature,
                                j,
                            );
                        assert(!better(names, candidate(values, labels, k, j), p));
                    }
                }
            },
        }
    }
}

/// The pick of a search is the least of all candidates.
///
/// Where any feature has a candidate threshold, the search settles on a
/// candidate, and no candidate is preferred to it: none has a smaller
/// weighted impurity, and none that ties has a feature name that comes
/// earlier, or the same name and a lower threshold.
pub proof fn lemma_best_pick_least(
    columns: Seq<ColumnModel>,
    names: Seq<Seq<char>>,
    labels: Seq<Option<u32>>,
    c: Pick,
)
    requires
        aligned(columns),
        labels.len() == rows_of(columns),
        labels.len() <= u64::MAX,
        is_candidate(columns, names, labels, c),
    ensures
        best_pick(columns, names, labels) matches Some(p) && is_candidate(
            columns,
            names,
            labels,
            p,
        ) && p.den > 0 && c.den > 0 && !better(names, c, p),
{
    lemma_features_least(columns, names, labels, names.len());
    lemma_pick_in_range(columns, names, labels, names.len());
}

/// Split search over all features: the candidate that is preferred to all
/// others, or nothing where no feature has a candidate.
///
/// Every feature whose column is continuous is searched; the others have no
/// candidate. The candidate with the least weighted impurity wins; among
/// those that tie, the one whose feature name comes first, and then the one
/// with the lowest threshold.
pub fn best_split(table: &Table, features: &Vec<String>, labels: &Vec<Option<u32>>) -> (found: Option<
    BestSplit,
>)
    ensures
        is_pick(found, best_pick(table@, names_of(features@), labels@)),
        found matches Some(f) ==> f.feature < features@.len(),
{
    let ghost names = names_of(features@);
    let mut best: Option<BestSplit> = None;
    let mut k: usize = 0;
    while k < features.len()
        invariant
            0 <= k <= features@.len(),
            names == names_of(features@),
            is_pick(best, pick_in_features(table@, names, labels@, k as nat)),
            best matches Some(f) ==> f.feature < k,
        decreases features.len() - k,
    {
        let ghost before = pick_in_features(table@, names, labels@, k as nat);
        match table.continuous(&features[k]) {
            Some(values) => {
                let candidates = evaluate_columns(values, labels);
                let mut j: usize = 0;
                while j < candidates.len()
                    invariant
                        0 <= j <= candidates@.len(),
                        k < features@.len(),
                        names == names_of(features@),
                        is_evaluation(candidates@, values@, labels@),
                        is_pick(
                            best,
                            pick_in_feature(values@, labels@, names, k as int, j as nat, before),
                        ),
                        best matches Some(f) ==> f.feature <= k,
                    decreases candidates.len() - j,
                {
                    let replace: bool = match &best {
                        None => true,
                        Some(b) => match candidates[j].metric.compare(&b.metric) {
                            Order::Less => true,
                            Order::Equal => comes_before(&features[k], &features[b.feature]) || (
                            features[k] == features[b.feature] && candidates[j].split.twice
                                < b.cutoff.twice),
                            Order::Greater => false,
                        },
                    };
                    if replace {
                        best =
                        Some(
                            BestSplit {
                                feature: k,
                                cutoff: candidates[j].split,
                                metric: candidates[j].metric.clone(),
                            },
                        );
                    }
                    j = j + 1;
                }
            },
            None => {},
        }
        k = k + 1;
    }
    best
}

} // verus!
