use vstd::prelude::*;
use crate::impurity::lemma_counts_total;
use crate::labels::{
    class_counts, classes, lemma_classes_sound, lemma_occurrences_bounded, occurrences,
    present_count, value_counts,
    ClassCount,
};
use crate::ratio::Ratio;

verus! {

/// `code` is the modal class of `labels`: it occurs, no class occurs more
/// often, and among the classes that occur equally often it is the smallest.
pub open spec fn is_majority(labels: Seq<Option<u32>>, code: u32) -> bool {
    &&& occurrences(labels, code) > 0
    &&& forall|other: u32|
        #![trigger occurrences(labels, other)]
        occurrences(labels, other) < occurrences(labels, code) || (occurrences(labels, other)
            == occurrences(labels, code) && code <= other)
}

/// The outcome of a vote among class labels: the winning class and the share
/// of the present entries that carry it.
#[derive(Clone, Copy, Debug, PartialEq, Eq, Structural)]
pub struct Leaf {
    pub prediction: u32,
    pub confidence: Ratio,
}

/// The leaf that a vote among `labels` yields when the class `code` wins:
/// its confidence is the number of occurrences of `code` over the number of
/// present entries.
pub open spec fn majority_leaf(labels: Seq<Option<u32>>, code: u32) -> Leaf {
    Leaf {
        prediction: code,
        confidence: Ratio {
            num: occurrences(labels, code) as u128,
            den: present_count(labels) as u128,
        },
    }
}

/// The modal class of `labels`, where some entry is present.
pub open spec fn modal(labels: Seq<Option<u32>>) -> u32 {
    choose|code: u32| is_majority(labels, code)
}

/// The outcome of a vote among `labels`: nothing where no entry is present,
/// and else the modal class with its share of the present entries.
pub open spec fn vote(labels: Seq<Option<u32>>) -> Option<Leaf> {
    if present_count(labels) == 0 {
        None
    } else {
        Some(majority_leaf(labels, modal(labels)))
    }
}

/// At most one class is the modal class.
pub proof fn lemma_majority_unique(labels: Seq<Option<u32>>, a: u32, b: u32)
    requires
        is_majority(labels, a),
        is_majority(labels, b),
    ensures
        a == b,
{
    assert(occurrences(labels, b) < occurrences(labels, a) || (occurrences(labels, b)
        == occurrences(labels, a) && a <= b));
    assert(occurrences(labels, a) < occurrences(labels, b) || (occurrences(labels, a)
        == occurrences(labels, b) && b <= a));
}

/// The modal class of `labels` and its confidence.
///
/// Missing entries do not vote. With no present entry there is no result.
/// Otherwise the class with the most occurrences wins, the smallest class
/// code among those that tie, and the confidence is the winner's number of
/// occurrences over the number of present entries.
pub fn predict_majority(labels: &[Option<u32>]) -> (result: Option<Leaf>)
    ensures
        result == vote(labels@),
        result.is_none() <==> present_count(labels@) == 0,
        result matches Some(leaf) ==> leaf.confidence.is_proportion(),
        result matches Some(leaf) ==> is_majority(labels@, leaf.prediction) && leaf
            == majority_leaf(labels@, leaf.prediction),
{
    let entries = value_counts(labels);
    let rows: usize = labels.len();
    proof {
        lemma_counts_total(labels@);
        lemma_classes_sound(labels@);
    }
    let mut best: Option<ClassCount> = None;
    let mut k: usize = 0;
    while k < entries.len()
        invariant
            0 <= k <= entries.len(),
            rows == labels@.len(),
            entries@ == class_counts(labels@),
            forall|j: int| 0 <= j < entries.len() ==> (#[trigger] entries@[j]).count > 0,
            best.is_none() <==> k == 0,
            best matches Some(top) ==> exists|j: int| 0 <= j < k && entries@[j] == top,
            best matches Some(top) ==> forall|j: int|
                #![trigger entries@[j]]
                0 <= j < k ==> entries@[j].count < top.count || (entries@[j].count == top.count
                    && top.code <= entries@[j].code),
        decreases entries.len() - k,
    {
        let entry = entries[k];
        best = match best {
            None => Some(entry),
            Some(top) => if entry.count > top.count || (entry.count == top.count && entry.code
                < top.code) {
                Some(entry)
            } else {
                Some(top)
            },
        };
        k = k + 1;
    }
    match best {
        None => {
            None
        },
        Some(top) => {
            proof {
                lemma_counts_total(labels@);
                lemma_classes_sound(labels@);
                lemma_occurrences_bounded(labels@, top.code);
            }
            let mut total: u64 = 0;
            let mut k: usize = 0;
            while k < entries.len()
                invariant
                    0 <= k <= entries.len(),
                    total == crate::impurity::count_total(entries@.take(k as int)),
                    crate::impurity::count_total(entries@) <= u64::MAX,
                decreases entries.len() - k,
            {
                proof {
                    crate::impurity::lemma_count_total_prefix(entries@, k + 1);
                    assert(entries@.take(k + 1).drop_last() =~= entries@.take(k as int));
                }
                total = total + entries[k].count;
                k = k + 1;
            }
            proof {
                assert(entries@.take(entries.len() as int) =~= entries@);
                let j = choose|j: int| 0 <= j < entries.len() && entries@[j] == top;
                assert(classes(labels@)[j] == top.code);
                assert(classes(labels@).contains(top.code));
                assert forall|other: u32|
                    #![trigger occurrences(labels@, other)]
                    occurrences(labels@, other) < occurrences(labels@, top.code) || (occurrences(
                        labels@,
                        other,
                    ) == occurrences(labels@, top.code) && top.code <= other) by {
                    if occurrences(labels@, other) > 0 {
                        assert(classes(labels@).contains(other));
                        let m = choose|m: int|
                            0 <= m < classes(labels@).len() && classes(labels@)[m] == other;
                        assert(entries@[m].code == other);
                    }
                }
            }
            proof {
                assert(is_majority(labels@, top.code));
                lemma_majority_unique(labels@, top.code, modal(labels@));
            }
            Some(
                Leaf {
                    prediction: top.code,
                    confidence: Ratio { num: top.count as u128, den: total as u128 },
                },
            )
        },
    }
}

} // verus!
