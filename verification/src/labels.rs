use std::collections::HashMap;
use vstd::prelude::*;

verus! {

broadcast use vstd::std_specs::hash::group_hash_axioms;

/// How often the class `code` occurs among `labels`.
pub open spec fn occurrences(labels: Seq<Option<u32>>, code: u32) -> nat
    decreases labels.len(),
{
    if labels.len() == 0 {
        0
    } else {
        occurrences(labels.drop_last(), code) + if labels.last() == Some(code) {
            1nat
        } else {
            0nat
        }
    }
}

/// How many entries of `labels` carry a class at all.
pub open spec fn present_count(labels: Seq<Option<u32>>) -> nat
    decreases labels.len(),
{
    if labels.len() == 0 {
        0
    } else {
        present_count(labels.drop_last()) + if labels.last().is_some() {
            1nat
        } else {
            0nat
        }
    }
}

/// A class never occurs more often than there are present entries, and
/// there are never more present entries than entries.
pub proof fn lemma_occurrences_bounded(labels: Seq<Option<u32>>, code: u32)
    ensures
        occurrences(labels, code) <= present_count(labels) <= labels.len(),
    decreases labels.len(),
{
    if labels.len() > 0 {
        lemma_occurrences_bounded(labels.drop_last(), code);
    }
}

/// Counting over a prefix never exceeds counting over the whole.
pub proof fn lemma_occurrences_prefix(labels: Seq<Option<u32>>, n: int, code: u32)
    requires
        0 <= n <= labels.len(),
    ensures
        occurrences(labels.take(n), code) <= occurrences(labels, code),
        present_count(labels.take(n)) <= present_count(labels),
    decreases labels.len(),
{
    if n == labels.len() {
        assert(labels.take(n) =~= labels);
    } else {
        lemma_occurrences_prefix(labels.drop_last(), n, code);
        assert(labels.drop_last().take(n) =~= labels.take(n));
    }
}

/// Extending a prefix by one entry adds that entry to the counts.
pub proof fn lemma_occurrences_step(labels: Seq<Option<u32>>, n: int, code: u32)
    requires
        0 <= n < labels.len(),
    ensures
        occurrences(labels.take(n + 1), code) == occurrences(labels.take(n), code) + if labels[n]
            == Some(code) {
            1nat
        } else {
            0nat
        },
        present_count(labels.take(n + 1)) == present_count(labels.take(n)) + if labels[n].is_some() {
            1nat
        } else {
            0nat
        },
{
    assert(labels.take(n + 1).drop_last() =~= labels.take(n));
}

/// Tallies the present entries of `values` by class.
///
/// The keys of the result are exactly the classes that occur, each mapped to
/// the number of its occurrences. Missing entries are not counted.
pub fn count_groups(values: &[Option<u32>]) -> (groups: HashMap<u32, u32>)
    requires
        forall|code: u32| #[trigger] occurrences(values@, code) <= u32::MAX,
    ensures
        forall|code: u32|
            #![trigger groups@.contains_key(code)]
            groups@.contains_key(code) <==> occurrences(values@, code) > 0,
        forall|code: u32|
            #![trigger groups@[code]]
            groups@.contains_key(code) ==> groups@[code] == occurrences(values@, code),
{
    let mut groups: HashMap<u32, u32> = HashMap::new();
    let mut i: usize = 0;
    while i < values.len()
        invariant
            0 <= i <= values.len(),
            forall|code: u32| #[trigger] occurrences(values@, code) <= u32::MAX,
            forall|code: u32|
                #![trigger groups@.contains_key(code)]
                groups@.contains_key(code) <==> occurrences(values@.take(i as int), code) > 0,
            forall|code: u32|
                #![trigger groups@[code]]
                groups@.contains_key(code) ==> groups@[code] == occurrences(
                    values@.take(i as int),
                    code,
                ),
        decreases values.len() - i,
    {
        let ghost before = groups@;
        proof {
            assert forall|code: u32|
                occurrences(values@.take(i + 1), code) == occurrences(
                    values@.take(i as int),
                    code,
                ) + if values@[i as int] == Some(code) {
                    1nat
                } else {
                    0nat
                } by {
                lemma_occurrences_step(values@, i as int, code);
            }
        }
        match values[i] {
            Some(value) => {
                proof {
                    lemma_occurrences_prefix(values@, i + 1, value);
                    assert(occurrences(values@, value) <= u32::MAX);
                }
                let seen: u32 = match groups.get(&value) {
                    Some(n) => *n,
                    None => 0,
                };
                groups.insert(value, seen + 1);
                assert(groups@ == before.insert(value, (seen + 1) as u32));
            },
            None => {},
        }
        i = i + 1;
    }
    proof {
        assert(values@.take(values.len() as int) =~= values@);
    }
    groups
}

/// A class together with the number of its occurrences.
#[derive(Clone, Copy, Debug, PartialEq, Eq, Structural)]
pub struct ClassCount {
    pub code: u32,
    pub count: u64,
}

/// The classes that occur among `labels`, each once, in the order in which
/// they first appear.
pub open spec fn classes(labels: Seq<Option<u32>>) -> Seq<u32>
    decreases labels.len(),
{
    if labels.len() == 0 {
        Seq::empty()
    } else {
        let front = classes(labels.drop_last());
        match labels.last() {
            Some(code) => if front.contains(code) {
                front
            } else {
                front.push(code)
            },
            None => front,
        }
    }
}

/// The classes of `labels` in order of first appearance, each with the
/// number of its occurrences.
pub open spec fn class_counts(labels: Seq<Option<u32>>) -> Seq<ClassCount> {
    Seq::new(
        classes(labels).len(),
        |k: int|
            ClassCount {
                code: classes(labels)[k],
                count: occurrences(labels, classes(labels)[k]) as u64,
            },
    )
}

/// No class is listed twice, and a class is listed exactly when it occurs.
pub proof fn lemma_classes_sound(labels: Seq<Option<u32>>)
    ensures
        classes(labels).no_duplicates(),
        forall|code: u32|
            #![trigger classes(labels).contains(code)]
            classes(labels).contains(code) <==> occurrences(labels, code) > 0,
    decreases labels.len(),
{
    if labels.len() > 0 {
        let front = classes(labels.drop_last());
        lemma_classes_sound(labels.drop_last());
        match labels.last() {
            Some(code) => {
                if !front.contains(code) {
                    let all = front.push(code);
                    assert(all[front.len() as int] == code);
                    assert forall|other: u32| all.contains(other) <==> occurrences(labels, other)
                        > 0 by {
                        if all.contains(other) {
                            let k = choose|k: int| 0 <= k < all.len() && all[k] == other;
                            if k < front.len() {
                                assert(front[k] == other);
                            }
                        }
                        if front.contains(other) {
                            let k = choose|k: int| 0 <= k < front.len() && front[k] == other;
                            assert(all[k] == other);
                        }
                    }
                }
            },
            None => {},
        }
    }
}

/// How the class list grows when a prefix is extended by one entry.
pub proof fn lemma_classes_step(labels: Seq<Option<u32>>, n: int)
    requires
        0 <= n < labels.len(),
    ensures
        classes(labels.take(n + 1)) == match labels[n] {
            Some(code) => if classes(labels.take(n)).contains(code) {
                classes(labels.take(n))
            } else {
                classes(labels.take(n)).push(code)
            },
            None => classes(labels.take(n)),
        },
{
    assert(labels.take(n + 1).drop_last() =~= labels.take(n));
}

/// Tallies the present entries of `labels` by class, in the order in which
/// the classes first appear.
pub fn value_counts(labels: &[Option<u32>]) -> (entries: Vec<ClassCount>)
    ensures
        entries@ == class_counts(labels@),
{
    let mut entries: Vec<ClassCount> = Vec::new();
    let mut slot: HashMap<u32, usize> = HashMap::new();
    let mut i: usize = 0;
    while i < labels.len()
        invariant
            0 <= i <= labels.len(),
            entries@ == class_counts(labels@.take(i as int)),
            forall|code: u32|
                #![trigger slot@.contains_key(code)]
                slot@.contains_key(code) <==> classes(labels@.take(i as int)).contains(code),
            forall|code: u32|
                #![trigger slot@[code]]
                slot@.contains_key(code) ==> 0 <= slot@[code] < entries.len() && classes(
                    labels@.take(i as int),
                )[slot@[code] as int] == code,
        decreases labels.len() - i,
    {
        let ghost before = labels@.take(i as int);
        let ghost after = labels@.take(i + 1);
        let ghost old_slot = slot@;
        proof {
            lemma_classes_step(labels@, i as int);
            lemma_classes_sound(before);
            lemma_classes_sound(after);
            assert forall|code: u32|
                occurrences(after, code) == occurrences(before, code) + if labels@[i as int]
                    == Some(code) {
                    1nat
                } else {
                    0nat
                } by {
                lemma_occurrences_step(labels@, i as int, code);
            }
            assert forall|code: u32| occurrences(after, code) <= i + 1 by {
                lemma_occurrences_bounded(after, code);
            }
        }
        match labels[i] {
            Some(value) => {
                match slot.get(&value) {
                    Some(k) => {
                        let k: usize = *k;
                        let entry = entries[k];
                        assert(entry.count == occurrences(before, value));
                        entries.set(k, ClassCount { code: entry.code, count: entry.count + 1 });
                        assert(entries@ =~= class_counts(after));
                    },
                    None => {
                        assert(!classes(before).contains(value));
                        assert(occurrences(before, value) == 0);
                        slot.insert(value, entries.len());
                        entries.push(ClassCount { code: value, count: 1 });
                        assert(slot@ == old_slot.insert(value, (entries.len() - 1) as usize));
                        assert(classes(after)[classes(before).len() as int] == value);
                        assert(entries@ =~= class_counts(after));
                        assert forall|code: u32|
                            slot@.contains_key(code) <==> classes(after).contains(code) by {
                            if classes(after).contains(code) && code != value {
                                let k = choose|k: int|
                                    0 <= k < classes(after).len() && classes(after)[k] == code;
                                assert(classes(before)[k] == code);
                            }
                            if classes(before).contains(code) {
                                let k = choose|k: int|
                                    0 <= k < classes(before).len() && classes(before)[k] == code;
                                assert(classes(after)[k] == code);
                            }
                        }
                    },
                }
            },
            None => {
                assert(entries@ =~= class_counts(after));
            },
        }
        i = i + 1;
    }
    proof {
        assert(labels@.take(labels.len() as int) =~= labels@);
    }
    entries
}

} // verus!
