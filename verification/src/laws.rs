use vstd::prelude::*;
use crate::builder::{grow, is_terminal};
use crate::impurity::{
    count_column, gini_num, label_impurity, lemma_counts_total, lemma_gini_single_category,
    lemma_pure_single_category, lemma_square_sum_bounded, total,
};
use crate::labels::{
    class_counts, classes, lemma_classes_sound, lemma_occurrences_bounded, occurrences,
    present_count,
};
use crate::majority::{is_majority, lemma_majority_unique, modal, vote, Leaf};
use crate::ratio::Ratio;
use crate::search::{
    best_pick, candidate, is_candidate, lemma_best_pick_least, lemma_pick_in_range,
    lemma_side_impurity, Pick,
};
use crate::split::{
    distinct_sorted, goes_higher, goes_lower, higher_labels, higher_mask, lemma_distinct_sorted,
    lemma_thresholds, lower_labels, lower_mask, metric_num, side_impurity, strictly_increasing,
    thresholds, Cutoff,
};
use crate::table::{
    aligned, categorical_of, continuous_of, lemma_position, lemma_select, lemma_select_columns,
    lemma_select_origin, marked, position, rows_of, select_columns, ColumnModel, ValuesModel,
};
use crate::tree::{
    is_pure, lemma_row_of, predict_from, row_of, tree_prediction, FieldModel, NodeModel, RuleModel,
};

verus! {

/// Where every present label is `code`, that class alone occurs, as often as
/// there are present labels.
pub proof fn lemma_single_class(labels: Seq<Option<u32>>, code: u32)
    requires
        forall|i: int| 0 <= i < labels.len() ==> labels[i].is_none() || labels[i] == Some(code),
    ensures
        occurrences(labels, code) == present_count(labels),
        forall|other: u32| other != code ==> #[trigger] occurrences(labels, other) == 0,
        present_count(labels) > 0 ==> classes(labels) == seq![code],
    decreases labels.len(),
{
    if labels.len() > 0 {
        let front = labels.drop_last();
        assert forall|i: int| 0 <= i < front.len() implies front[i].is_none() || front[i] == Some(
            code,
        ) by {
            assert(front[i] == labels[i]);
        }
        lemma_single_class(front, code);
        assert(labels.last() == labels[labels.len() - 1]);
        assert forall|other: u32| other != code implies #[trigger] occurrences(labels, other)
            == 0 by {
            assert(occurrences(front, other) == 0);
        }
        lemma_classes_sound(front);
        if present_count(labels) > 0 {
            if present_count(front) > 0 {
                assert(classes(front)[0] == code);
            } else {
                assert(!classes(front).contains(code));
                if classes(front).len() > 0 {
                    assert(classes(front).contains(classes(front)[0]));
                }
                assert(classes(front) =~= Seq::<u32>::empty());
                assert(classes(labels) =~= seq![code]);
            }
        }
    }
}

/// Where a class occurs as often as there are present labels, every
/// present label is that class.
pub proof fn lemma_unanimous(labels: Seq<Option<u32>>, code: u32)
    requires
        occurrences(labels, code) == present_count(labels),
    ensures
        forall|i: int| 0 <= i < labels.len() ==> labels[i].is_none() || labels[i] == Some(code),
    decreases labels.len(),
{
    if labels.len() > 0 {
        let front = labels.drop_last();
        lemma_occurrences_bounded(front, code);
        lemma_unanimous(front, code);
        assert forall|i: int| 0 <= i < labels.len() implies labels[i].is_none() || labels[i]
            == Some(code) by {
            if i < front.len() {
                assert(front[i] == labels[i]);
            }
        }
    }
}

/// Where every label is missing, nobody votes and there is no majority.
pub proof fn lemma_all_missing_no_vote(labels: Seq<Option<u32>>)
    requires
        forall|i: int| 0 <= i < labels.len() ==> (#[trigger] labels[i]).is_none(),
    ensures
        present_count(labels) == 0,
        vote(labels).is_none(),
    decreases labels.len(),
{
    if labels.len() > 0 {
        let front = labels.drop_last();
        assert forall|i: int| 0 <= i < front.len() implies (#[trigger] front[i]).is_none() by {
            assert(front[i] == labels[i]);
        }
        lemma_all_missing_no_vote(front);
        assert(labels.last() == labels[labels.len() - 1]);
    }
}

/// The labels of a table with these columns, where the target names a
/// categorical column, are as many as the table has rows.
pub proof fn lemma_label_rows(columns: Seq<ColumnModel>, target: Seq<char>)
    requires
        aligned(columns),
    ensures
        categorical_of(columns, target) matches Some(labels) ==> labels.len() == rows_of(columns),
        continuous_of(columns, target) matches Some(values) ==> values.len() == rows_of(columns),
{
    lemma_position(columns, target);
    if position(columns, target).is_some() {
        let j = position(columns, target).unwrap();
        assert(columns[j].values.len() == rows_of(columns));
    }
}

/// From a table without rows no tree grows, whatever the limits, and the
/// empty tree predicts nothing for any row.
pub proof fn lemma_no_rows_no_tree(
    columns: Seq<ColumnModel>,
    features: Seq<Seq<char>>,
    target: Seq<char>,
    max_depth: nat,
    min_size: nat,
    row: Seq<FieldModel>,
)
    requires
        aligned(columns),
        rows_of(columns) == 0,
    ensures
        grow(columns, features, target, max_depth, min_size, 0).is_none(),
        tree_prediction(grow(columns, features, target, max_depth, min_size, 0), row).is_none(),
{
    lemma_label_rows(columns, target);
}

/// From rows that all carry one label a single leaf grows, at whatever depth
/// and under whatever limits: it predicts that label with confidence one.
/// Rows without a label do not change this, as long as one row has one.
pub proof fn lemma_one_label_one_leaf(
    columns: Seq<ColumnModel>,
    features: Seq<Seq<char>>,
    target: Seq<char>,
    max_depth: nat,
    min_size: nat,
    depth: nat,
    labels: Seq<Option<u32>>,
    code: u32,
)
    requires
        categorical_of(columns, target) == Some(labels),
        labels.len() <= usize::MAX,
        present_count(labels) > 0,
        forall|i: int| 0 <= i < labels.len() ==> labels[i].is_none() || labels[i] == Some(code),
    ensures
        grow(columns, features, target, max_depth, min_size, depth) == Some(
            NodeModel::Leaf(
                Leaf {
                    prediction: code,
                    confidence: Ratio {
                        num: present_count(labels) as u128,
                        den: present_count(labels) as u128,
                    },
                },
            ),
        ),
{
    lemma_single_class(labels, code);
    lemma_occurrences_bounded(labels, code);
    assert(is_majority(labels, code));
    lemma_majority_unique(labels, code, modal(labels));
    let counts = count_column(class_counts(labels));
    let n = present_count(labels);
    assert(counts =~= seq![n as u64]);
    lemma_gini_single_category(n as u64);
    assert(label_impurity(labels).num == 0);
    assert(is_terminal(columns, labels, features.len(), max_depth, min_size, depth));
}

/// A leaf that the vote among `labels` yields with confidence one predicts
/// the label of every row that has one.
pub proof fn lemma_sure_leaf(labels: Seq<Option<u32>>, i: int, code: u32)
    requires
        labels.len() <= usize::MAX,
        0 <= i < labels.len(),
        labels[i] == Some(code),
        vote(labels) matches Some(leaf) && leaf.confidence.is_one_spec(),
    ensures
        vote(labels) == Some(
            Leaf {
                prediction: code,
                confidence: Ratio {
                    num: present_count(labels) as u128,
                    den: present_count(labels) as u128,
                },
            },
        ),
{
    let winner = modal(labels);
    lemma_occurrences_bounded(labels, winner);
    lemma_unanimous(labels, winner);
}

/// Restricting a table to marked rows keeps every marked row as it is: row
/// `i` becomes the row whose place is the number of marked rows before it.
pub proof fn lemma_row_kept(columns: Seq<ColumnModel>, mask: Seq<bool>, i: int)
    requires
        aligned(columns),
        mask.len() == rows_of(columns),
        0 <= i < mask.len(),
        mask[i],
    ensures
        columns.len() > 0 ==> marked(mask, i) < rows_of(select_columns(columns, mask)),
        row_of(select_columns(columns, mask), marked(mask, i) as int) == row_of(columns, i),
{
    let kept = select_columns(columns, mask);
    let k = marked(mask, i) as int;
    assert forall|c: int| 0 <= c < columns.len() implies (#[trigger] row_of(kept, k)[c]) == row_of(
        columns,
        i,
    )[c] by {
        assert(columns[c].values.len() == rows_of(columns));
        match columns[c].values {
            ValuesModel::Continuous(v) => {
                lemma_select(v, mask);
            },
            ValuesModel::Categorical(v) => {
                lemma_select(v, mask);
            },
        }
    }
    assert(row_of(kept, k) =~= row_of(columns, i));
    if columns.len() > 0 {
        assert(columns[0].values.len() == rows_of(columns));
        match columns[0].values {
            ValuesModel::Continuous(v) => {
                lemma_select(v, mask);
            },
            ValuesModel::Categorical(v) => {
                lemma_select(v, mask);
            },
        }
    }
}

/// Row `i` has no value for the feature `name`, whose column is continuous.
pub open spec fn value_missing(columns: Seq<ColumnModel>, name: Seq<char>, i: int) -> bool {
    match continuous_of(columns, name) {
        Some(values) => values[i].is_none(),
        None => false,
    }
}

/// Row `i` has no value for one of the features.
pub open spec fn lacks_value(columns: Seq<ColumnModel>, features: Seq<Seq<char>>, i: int) -> bool {
    exists|k: int| 0 <= k < features.len() && #[trigger] value_missing(columns, features[k], i)
}

/// A tree that separates the classes fully reproduces the labels it was
/// grown from.
///
/// Let a subtree be grown from the rows of a table, under whatever limits,
/// and let each of its leaves have confidence one. Then for every row of the
/// table that has a label, the subtree predicts that label with confidence
/// one, or predicts nothing because the row has no value for the feature of
/// a rule on its way.
pub proof fn lemma_training_rows_reproduced(
    columns: Seq<ColumnModel>,
    features: Seq<Seq<char>>,
    target: Seq<char>,
    max_depth: nat,
    min_size: nat,
    depth: nat,
    i: int,
    code: u32,
)
    requires
        aligned(columns),
        rows_of(columns) <= usize::MAX,
        0 <= i < rows_of(columns),
        categorical_of(columns, target) matches Some(labels) && labels[i] == Some(code),
        grow(columns, features, target, max_depth, min_size, depth) matches Some(node) && is_pure(
            node,
        ),
    ensures
        match predict_from(
            grow(columns, features, target, max_depth, min_size, depth).unwrap(),
            row_of(columns, i),
        ) {
            Some(leaf) => leaf.prediction == code && leaf.confidence.is_one_spec(),
            None => lacks_value(columns, features, i),
        },
    decreases max_depth + 1 - depth,
{
    let labels = categorical_of(columns, target).unwrap();
    let node = grow(columns, features, target, max_depth, min_size, depth).unwrap();
    lemma_label_rows(columns, target);
    let leaf = vote(labels).unwrap();
    if node == NodeModel::Leaf(leaf) {
        lemma_sure_leaf(labels, i, code);
    } else {
        let pick = best_pick(columns, features, labels).unwrap();
        lemma_pick_in_range(columns, features, labels, features.len());
        let name = features[pick.feature];
        let values = continuous_of(columns, name).unwrap();
        lemma_label_rows(columns, name);
        lemma_row_of(columns, i, name);
        let up = higher_mask(values, pick.twice);
        let down = lower_mask(values, pick.twice);
        let above = select_columns(columns, up);
        let below = select_columns(columns, down);
        match values[i] {
            None => {
                assert(value_missing(columns, features[pick.feature], i));
            },
            Some(v) => {
                lemma_position(columns, target);
                if goes_higher(Some(v), pick.twice) {
                    lemma_select_columns(columns, up, target);
                    lemma_row_kept(columns, up, i);
                    lemma_select(labels, up);
                    let at = marked(up, i) as int;
                    lemma_training_rows_reproduced(
                        above,
                        features,
                        target,
                        max_depth,
                        min_size,
                        depth + 1,
                        at,
                        code,
                    );
                    let sub = grow(above, features, target, max_depth, min_size, depth + 1).unwrap();
                    if predict_from(sub, row_of(above, at)).is_none() {
                        let k = choose|k: int|
                            0 <= k < features.len() && #[trigger] value_missing(
                                above,
                                features[k],
                                at,
                            );
                        lemma_select_columns(columns, up, features[k]);
                        let w = continuous_of(columns, features[k]).unwrap();
                        lemma_label_rows(columns, features[k]);
                        lemma_select(w, up);
                        assert(value_missing(columns, features[k], i));
                    }
                } else {
                    assert(goes_lower(Some(v), pick.twice));
                    lemma_select_columns(columns, down, target);
                    lemma_row_kept(columns, down, i);
                    lemma_select(labels, down);
                    let at = marked(down, i) as int;
                    lemma_training_rows_reproduced(
                        below,
                        features,
                        target,
                        max_depth,
                        min_size,
                        depth + 1,
                        at,
                        code,
                    );
                    let sub = grow(below, features, target, max_depth, min_size, depth + 1).unwrap();
                    if predict_from(sub, row_of(below, at)).is_none() {
                        let k = choose|k: int|
                            0 <= k < features.len() && #[trigger] value_missing(
                                below,
                                features[k],
                                at,
                            );
                        lemma_select_columns(columns, down, features[k]);
                        let w = continuous_of(columns, features[k]).unwrap();
                        lemma_label_rows(columns, features[k]);
                        lemma_select(w, down);
                        assert(value_missing(columns, features[k], i));
                    }
                }
            },
        }
    }
}

/// Labels whose Gini impurity is zero all name one class: the vote among
/// them yields that class with confidence one.
pub proof fn lemma_pure_labels(labels: Seq<Option<u32>>)
    requires
        labels.len() <= usize::MAX,
        present_count(labels) > 0,
        label_impurity(labels).num == 0,
    ensures
        vote(labels) matches Some(leaf) && leaf.confidence.is_one_spec() && occurrences(
            labels,
            leaf.prediction,
        ) == present_count(labels),
{
    let counts = count_column(class_counts(labels));
    lemma_counts_total(labels);
    lemma_occurrences_bounded(labels, 0);
    lemma_square_sum_bounded(counts);
    let n = present_count(labels);
    assert(n * n <= 0xffff_ffff_ffff_ffff * 0xffff_ffff_ffff_ffff) by (nonlinear_arith)
        requires
            n <= 0xffff_ffff_ffff_ffff,
    ;
    assert(gini_num(counts) == 0);
    assert forall|k: int| 0 <= k < counts.len() implies counts[k] > 0 by {
        assert(class_counts(labels)[k].count > 0);
    }
    lemma_pure_single_category(counts);
    if counts.len() == 0 {
        assert(total(counts) == 0);
    }
    assert(counts.len() == 1);
    reveal_with_fuel(total, 2);
    assert(counts.drop_last() =~= Seq::<u64>::empty());
    let code = classes(labels)[0];
    assert(class_counts(labels)[0].count == occurrences(labels, code));
    assert(occurrences(labels, code) == n);
    lemma_unanimous(labels, code);
    lemma_single_class(labels, code);
    assert(is_majority(labels, code));
    lemma_majority_unique(labels, code, modal(labels));
}

/// Labels that all name one class have Gini impurity zero.
pub proof fn lemma_single_class_pure(labels: Seq<Option<u32>>, code: u32)
    requires
        labels.len() <= usize::MAX,
        present_count(labels) > 0,
        forall|i: int| 0 <= i < labels.len() ==> labels[i].is_none() || labels[i] == Some(code),
    ensures
        label_impurity(labels).num == 0,
{
    lemma_single_class(labels, code);
    lemma_occurrences_bounded(labels, code);
    let counts = count_column(class_counts(labels));
    let n = present_count(labels);
    assert(counts =~= seq![n as u64]);
    lemma_gini_single_category(n as u64);
}

/// Where every label is present, there are as many present labels as rows.
pub proof fn lemma_all_present(labels: Seq<Option<u32>>)
    requires
        forall|i: int| 0 <= i < labels.len() ==> (#[trigger] labels[i]).is_some(),
    ensures
        present_count(labels) == labels.len(),
    decreases labels.len(),
{
    if labels.len() > 0 {
        let front = labels.drop_last();
        assert forall|i: int| 0 <= i < front.len() implies (#[trigger] front[i]).is_some() by {
            assert(front[i] == labels[i]);
        }
        lemma_all_present(front);
        assert(labels.last() == labels[labels.len() - 1]);
    }
}

/// Either side of a candidate threshold holds a row: the threshold lies
/// between two values of the feature.
pub proof fn lemma_candidate_sides(values: Seq<Option<i64>>, labels: Seq<Option<u32>>, j: int)
    requires
        values.len() == labels.len(),
        0 <= j < thresholds(values).len(),
    ensures
        higher_labels(values, labels, thresholds(values)[j]).len() > 0,
        lower_labels(values, labels, thresholds(values)[j]).len() > 0,
{
    let d = distinct_sorted(values);
    let t = thresholds(values)[j];
    lemma_thresholds(values);
    lemma_distinct_sorted(values);
    assert(d.contains(d[j]));
    assert(d.contains(d[j + 1]));
    let below = choose|i: int| 0 <= i < values.len() && values[i] == Some(d[j]);
    let above = choose|i: int| 0 <= i < values.len() && values[i] == Some(d[j + 1]);
    assert(lower_mask(values, t)[below]);
    assert(higher_mask(values, t)[above]);
    lemma_select(labels, lower_mask(values, t));
    lemma_select(labels, higher_mask(values, t));
    assert(marked(lower_mask(values, t), below) < lower_labels(values, labels, t).len());
    assert(marked(higher_mask(values, t), above) < higher_labels(values, labels, t).len());
}

/// The rule of a pick with the two leaves that the votes on its sides yield.
pub open spec fn stump(features: Seq<Seq<char>>, pick: Pick, higher: Leaf, lower: Leaf) -> NodeModel {
    NodeModel::Internal {
        rule: RuleModel { dimension: features[pick.feature], cutoff: Cutoff { twice: pick.twice as i128 } },
        higher: Box::new(NodeModel::Leaf(higher)),
        lower: Box::new(NodeModel::Leaf(lower)),
    }
}

/// A split without impurity ends the growth: where every row has a label
/// and the preferred candidate of a node that is not terminal has weighted
/// impurity zero, the node is the rule of that candidate with two leaves of
/// confidence one.
pub proof fn lemma_zero_metric_split(
    columns: Seq<ColumnModel>,
    features: Seq<Seq<char>>,
    target: Seq<char>,
    max_depth: nat,
    min_size: nat,
    depth: nat,
    labels: Seq<Option<u32>>,
    pick: Pick,
)
    requires
        aligned(columns),
        rows_of(columns) <= usize::MAX,
        categorical_of(columns, target) == Some(labels),
        forall|i: int| 0 <= i < labels.len() ==> (#[trigger] labels[i]).is_some(),
        !is_terminal(columns, labels, features.len(), max_depth, min_size, depth),
        best_pick(columns, features, labels) == Some(pick),
        pick.num == 0,
    ensures
        ({
            let values = continuous_of(columns, features[pick.feature]).unwrap();
            let h = higher_labels(values, labels, pick.twice);
            let l = lower_labels(values, labels, pick.twice);
            &&& vote(h) matches Some(higher) && higher.confidence.is_one_spec() && occurrences(
                h,
                higher.prediction,
            ) == present_count(h) && present_count(h) == h.len() && h.len() > 0
            &&& vote(l) matches Some(lower) && lower.confidence.is_one_spec() && occurrences(
                l,
                lower.prediction,
            ) == present_count(l) && present_count(l) == l.len() && l.len() > 0
            &&& grow(columns, features, target, max_depth, min_size, depth) == Some(
                stump(features, pick, vote(h).unwrap(), vote(l).unwrap()),
            )
        }),
{
    lemma_label_rows(columns, target);
    lemma_pick_in_range(columns, features, labels, features.len());
    let name = features[pick.feature];
    let values = continuous_of(columns, name).unwrap();
    lemma_label_rows(columns, name);
    let j = choose|j: int|
        0 <= j < thresholds(values).len() && pick == candidate(values, labels, pick.feature, j);
    lemma_candidate_sides(values, labels, j);
    let up = higher_mask(values, pick.twice);
    let down = lower_mask(values, pick.twice);
    let h = higher_labels(values, labels, pick.twice);
    let l = lower_labels(values, labels, pick.twice);
    lemma_select(labels, up);
    lemma_select(labels, down);
    lemma_side_impurity(h);
    lemma_side_impurity(l);
    let gh = side_impurity(h);
    let gl = side_impurity(l);
    assert(gh.num == 0 && gl.num == 0) by (nonlinear_arith)
        requires
            h.len() * gh.num * gl.den + l.len() * gl.num * gh.den == 0,
            h.len() > 0,
            l.len() > 0,
            gh.den > 0,
            gl.den > 0,
            gh.num >= 0,
            gl.num >= 0,
    ;
    assert forall|k: int| 0 <= k < h.len() implies (#[trigger] h[k]).is_some() by {
        let i = lemma_select_origin(labels, up, k);
        assert(labels[i].is_some());
    }
    assert forall|k: int| 0 <= k < l.len() implies (#[trigger] l[k]).is_some() by {
        let i = lemma_select_origin(labels, down, k);
        assert(labels[i].is_some());
    }
    lemma_all_present(h);
    lemma_all_present(l);
    lemma_pure_labels(h);
    lemma_pure_labels(l);
    lemma_select_columns(columns, up, target);
    lemma_select_columns(columns, down, target);
    let above = select_columns(columns, up);
    let below = select_columns(columns, down);
    assert(is_terminal(above, h, features.len(), max_depth, min_size, depth + 1));
    assert(is_terminal(below, l, features.len(), max_depth, min_size, depth + 1));
    assert(grow(above, features, target, max_depth, min_size, depth + 1) == Some(
        NodeModel::Leaf(vote(h).unwrap()),
    ));
    assert(grow(below, features, target, max_depth, min_size, depth + 1) == Some(
        NodeModel::Leaf(vote(l).unwrap()),
    ));
    lemma_all_present(labels);
}

/// The row has a value, and its label is `low` where the value is below half
/// of `bound` and `high` elsewhere.
pub open spec fn row_separated(value: Option<i64>, label: Option<u32>, low: u32, high: u32, bound: int) -> bool {
    match value {
        Some(v) => label == Some(
            if 2 * v < bound {
                low
            } else {
                high
            },
        ),
        None => false,
    }
}

/// The feature separates two classes perfectly: every row has a value and a
/// label, the rows below half of `bound` are those of the class `low`, the
/// others those of the class `high`, and both classes have a row.
pub open spec fn separates(
    values: Seq<Option<i64>>,
    labels: Seq<Option<u32>>,
    low: u32,
    high: u32,
    bound: int,
) -> bool {
    &&& values.len() == labels.len()
    &&& low != high
    &&& forall|i: int|
        0 <= i < values.len() ==> #[trigger] row_separated(values[i], labels[i], low, high, bound)
    &&& exists|i: int| 0 <= i < labels.len() && #[trigger] labels[i] == Some(low)
    &&& exists|i: int| 0 <= i < labels.len() && #[trigger] labels[i] == Some(high)
}

/// The subtree is one rule with two leaves of confidence one, the higher
/// one for the class `high` and the lower one for the class `low`.
pub open spec fn is_stump(node: Option<NodeModel>, low: u32, high: u32) -> bool {
    match node {
        Some(NodeModel::Internal { rule, higher, lower }) => {
            &&& *higher matches NodeModel::Leaf(h) && h.prediction == high && h.confidence.is_one_spec()
            &&& *lower matches NodeModel::Leaf(l) && l.prediction == low && l.confidence.is_one_spec()
        },
        _ => false,
    }
}

proof fn lemma_crossing(d: Seq<i64>, bound: int) -> (m: int)
    requires
        strictly_increasing(d),
        d.len() >= 1,
        2 * d[0] < bound <= 2 * d[d.len() - 1],
    ensures
        0 <= m < d.len() - 1,
        2 * d[m] < bound <= 2 * d[m + 1],
    decreases d.len(),
{
    let n = d.len() as int;
    if 2 * d[n - 2] < bound {
        n - 2
    } else {
        let front = d.drop_last();
        assert(strictly_increasing(front));
        lemma_crossing(front, bound)
    }
}

/// A feature that separates two classes perfectly has a candidate
/// threshold whose weighted impurity is zero.
pub proof fn lemma_separating_candidate(
    values: Seq<Option<i64>>,
    labels: Seq<Option<u32>>,
    low: u32,
    high: u32,
    bound: int,
) -> (j: int)
    requires
        separates(values, labels, low, high, bound),
        labels.len() <= usize::MAX,
    ensures
        0 <= j < thresholds(values).len(),
        metric_num(values, labels, thresholds(values)[j]) == 0,
{
    let d = distinct_sorted(values);
    lemma_distinct_sorted(values);
    let i0 = choose|i: int| 0 <= i < labels.len() && #[trigger] labels[i] == Some(low);
    let i1 = choose|i: int| 0 <= i < labels.len() && #[trigger] labels[i] == Some(high);
    assert(row_separated(values[i0], labels[i0], low, high, bound));
    assert(row_separated(values[i1], labels[i1], low, high, bound));
    let a = values[i0].unwrap();
    let b = values[i1].unwrap();
    assert(values.contains(Some(a)));
    assert(values.contains(Some(b)));
    assert(d.contains(a));
    assert(d.contains(b));
    let ka = choose|k: int| 0 <= k < d.len() && d[k] == a;
    let kb = choose|k: int| 0 <= k < d.len() && d[k] == b;
    assert(d[0] <= d[ka]);
    assert(d[kb] <= d[d.len() - 1]);
    let m = lemma_crossing(d, bound);
    let t = thresholds(values)[m];
    lemma_thresholds(values);
    let up = higher_mask(values, t);
    let down = lower_mask(values, t);
    let h = higher_labels(values, labels, t);
    let l = lower_labels(values, labels, t);
    lemma_select(labels, up);
    lemma_select(labels, down);
    assert forall|k: int| 0 <= k < h.len() implies h[k].is_none() || h[k] == Some(high) by {
        let i = lemma_select_origin(labels, up, k);
        assert(row_separated(values[i], labels[i], low, high, bound));
        let v = values[i].unwrap();
        assert(values.contains(Some(v)));
        assert(d.contains(v));
        let kv = choose|kv: int| 0 <= kv < d.len() && d[kv] == v;
        if kv <= m {
            assert(d[kv] <= d[m]);
        }
    }
    assert forall|k: int| 0 <= k < l.len() implies l[k].is_none() || l[k] == Some(low) by {
        let i = lemma_select_origin(labels, down, k);
        assert(row_separated(values[i], labels[i], low, high, bound));
        let v = values[i].unwrap();
        assert(values.contains(Some(v)));
        assert(d.contains(v));
        let kv = choose|kv: int| 0 <= kv < d.len() && d[kv] == v;
        if kv >= m + 1 {
            assert(d[m + 1] <= d[kv]);
        }
    }
    if present_count(h) > 0 {
        lemma_single_class_pure(h, high);
    }
    if present_count(l) > 0 {
        lemma_single_class_pure(l, low);
    }
    let gh = side_impurity(h);
    let gl = side_impurity(l);
    assert(h.len() * gh.num * gl.den + l.len() * gl.num * gh.den == 0) by (nonlinear_arith)
        requires
            gh.num == 0,
            gl.num == 0,
    ;
    m
}

/// A perfectly separable dataset of two classes and one feature grows to
/// exactly one rule with two pure leaves.
///
/// Let the table have rows enough to be split, a single feature, and a
/// number such that every row below half of it has the label `low` and every
/// other row the label `high`, both occurring. Then, whatever the depth
/// limit, the tree is one rule on that feature with two leaves of confidence
/// one: the higher one predicts `high`, the lower one `low`.
pub proof fn lemma_separable_stump(
    columns: Seq<ColumnModel>,
    features: Seq<Seq<char>>,
    target: Seq<char>,
    max_depth: nat,
    min_size: nat,
    low: u32,
    high: u32,
    bound: int,
)
    requires
        aligned(columns),
        rows_of(columns) <= usize::MAX,
        min_size <= rows_of(columns),
        features.len() == 1,
        continuous_of(columns, features[0]).is_some(),
        categorical_of(columns, target).is_some(),
        separates(
            continuous_of(columns, features[0]).unwrap(),
            categorical_of(columns, target).unwrap(),
            low,
            high,
            bound,
        ),
    ensures
        is_stump(grow(columns, features, target, max_depth, min_size, 0), low, high),
{
    let values = continuous_of(columns, features[0]).unwrap();
    let labels = categorical_of(columns, target).unwrap();
    lemma_label_rows(columns, target);
    let i0 = choose|i: int| 0 <= i < labels.len() && #[trigger] labels[i] == Some(low);
    let i1 = choose|i: int| 0 <= i < labels.len() && #[trigger] labels[i] == Some(high);
    assert forall|i: int| 0 <= i < labels.len() implies (#[trigger] labels[i]).is_some() by {
        assert(row_separated(values[i], labels[i], low, high, bound));
    }
    lemma_all_present(labels);
    if label_impurity(labels).num == 0 {
        lemma_pure_labels(labels);
        lemma_unanimous(labels, vote(labels).unwrap().prediction);
        assert(labels[i0] == labels[i1]);
    }
    assert(!is_terminal(columns, labels, features.len(), max_depth, min_size, 0));
    let j = lemma_separating_candidate(values, labels, low, high, bound);
    let c = candidate(values, labels, 0, j);
    assert(is_candidate(columns, features, labels, c));
    lemma_best_pick_least(columns, features, labels, c);
    let pick = best_pick(columns, features, labels).unwrap();
    assert(pick.num == 0) by (nonlinear_arith)
        requires
            !(c.num * pick.den < pick.num * c.den),
            c.num == 0,
            c.den > 0,
            pick.num >= 0,
    ;
    lemma_zero_metric_split(columns, features, target, max_depth, min_size, 0, labels, pick);
    lemma_pick_in_range(columns, features, labels, features.len());
    assert(pick.feature == 0);
    let t = pick.twice;
    let up = higher_mask(values, t);
    let down = lower_mask(values, t);
    let h = higher_labels(values, labels, t);
    let l = lower_labels(values, labels, t);
    let top = vote(h).unwrap();
    let bottom = vote(l).unwrap();
    lemma_unanimous(h, top.prediction);
    lemma_unanimous(l, bottom.prediction);
    lemma_select(labels, up);
    lemma_select(labels, down);
    // Every row is on one side, and carries the label of its side's leaf.
    assert forall|i: int| 0 <= i < labels.len() implies (if goes_higher(values[i], t) {
        labels[i] == Some(top.prediction)
    } else {
        labels[i] == Some(bottom.prediction)
    }) by {
        assert(row_separated(values[i], labels[i], low, high, bound));
        if goes_higher(values[i], t) {
            assert(up[i]);
            let k = marked(up, i) as int;
            assert(h[k] == labels[i]);
        } else {
            assert(down[i]);
            let k = marked(down, i) as int;
            assert(l[k] == labels[i]);
        }
    }
    assert(row_separated(values[i0], labels[i0], low, high, bound));
    assert(row_separated(values[i1], labels[i1], low, high, bound));
    let r = lemma_select_origin(labels, up, 0);
    let q = lemma_select_origin(labels, down, 0);
    assert(row_separated(values[r], labels[r], low, high, bound));
    assert(row_separated(values[q], labels[q], low, high, bound));
    assert(up[r] && down[q]);
}

/// Marks the rows that have a value.
pub open spec fn present_mask(values: Seq<Option<i64>>) -> Seq<bool> {
    Seq::new(values.len(), |i: int| values[i].is_some())
}

/// The two sides of a split partition the rows that have a value: such a
/// row is on exactly one side, a row without a value on neither, and the
/// sides together hold as many rows as have a value.
pub proof fn lemma_sides_partition(values: Seq<Option<i64>>, twice: int, n: int)
    requires
        0 <= n <= values.len(),
    ensures
        forall|i: int|
            0 <= i < values.len() ==> (#[trigger] higher_mask(values, twice)[i]
                != lower_mask(values, twice)[i]) == values[i].is_some(),
        forall|i: int|
            0 <= i < values.len() ==> !(#[trigger] higher_mask(values, twice)[i] && lower_mask(
                values,
                twice,
            )[i]),
        marked(higher_mask(values, twice), n) + marked(lower_mask(values, twice), n) == marked(
            present_mask(values),
            n,
        ),
    decreases n,
{
    if n > 0 {
        lemma_sides_partition(values, twice, n - 1);
    }
}

/// The confidence of a leaf is the largest share that any class has among
/// its labels: a proportion, and no class occurs more often than the one
/// predicted.
pub proof fn lemma_vote_is_top_share(labels: Seq<Option<u32>>, other: u32)
    requires
        labels.len() <= usize::MAX,
        present_count(labels) > 0,
    ensures
        vote(labels) matches Some(leaf) && leaf.confidence.is_proportion() && leaf.confidence.num
            == occurrences(labels, leaf.prediction) && leaf.confidence.den == present_count(labels)
            && occurrences(labels, other) <= leaf.confidence.num,
{
    lemma_modal_exists(labels);
    let winner = modal(labels);
    lemma_occurrences_bounded(labels, winner);
    assert(occurrences(labels, other) < occurrences(labels, winner) || (occurrences(labels, other)
        == occurrences(labels, winner) && winner <= other));
}

/// Where a label is present, some class is the modal class.
pub proof fn lemma_modal_exists(labels: Seq<Option<u32>>)
    requires
        present_count(labels) > 0,
    ensures
        is_majority(labels, modal(labels)),
    decreases labels.len(),
{
    let front = labels.drop_last();
    assert(labels.len() > 0);
    match labels.last() {
        None => {
            lemma_modal_exists(front);
            let w = modal(front);
            assert forall|other: u32|
                #![trigger occurrences(labels, other)]
                occurrences(labels, other) < occurrences(labels, w) || (occurrences(labels, other)
                    == occurrences(labels, w) && w <= other) by {
                assert(occurrences(front, other) < occurrences(front, w) || (occurrences(
                    front,
                    other,
                ) == occurrences(front, w) && w <= other));
            }
            assert(is_majority(labels, w));
        },
        Some(code) => {
            if present_count(front) == 0 {
                assert forall|other: u32|
                    #![trigger occurrences(labels, other)]
                    occurrences(labels, other) < occurrences(labels, code) || (occurrences(
                        labels,
                        other,
                    ) == occurrences(labels, code) && code <= other) by {
                    lemma_occurrences_bounded(front, other);
                    lemma_occurrences_bounded(front, code);
                }
                assert(is_majority(labels, code));
            } else {
                lemma_modal_exists(front);
                let w = modal(front);
                // The winner stays, unless the new label's class overtakes it.
                let n_w = occurrences(labels, w);
                let n_c = occurrences(labels, code);
                let best = if n_c > n_w || (n_c == n_w && code < w) {
                    code
                } else {
                    w
                };
                assert forall|other: u32|
                    #![trigger occurrences(labels, other)]
                    occurrences(labels, other) < occurrences(labels, best) || (occurrences(
                        labels,
                        other,
                    ) == occurrences(labels, best) && best <= other) by {
                    assert(occurrences(front, other) < occurrences(front, w) || (occurrences(
                        front,
                        other,
                    ) == occurrences(front, w) && w <= other));
                    assert(occurrences(front, code) < occurrences(front, w) || (occurrences(
                        front,
                        code,
                    ) == occurrences(front, w) && w <= code));
                }
                assert(is_majority(labels, best));
            }
        },
    }
}

} // verus!
