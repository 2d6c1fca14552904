use vstd::prelude::*;
use crate::impurity::{estimate_gini, label_impurity};
use crate::majority::{predict_majority, vote};
use crate::names::names_of;
use crate::search::{best_pick, best_split, lemma_pick_in_range};
use crate::split::{higher_mask, lower_mask, mask_higher, mask_lower, Cutoff, InputError};
use crate::table::{
    categorical_of, continuous_of, position, rows_of, select_columns, ColumnModel, Table, Values,
    ValuesModel,
};
use crate::tree::{node_view, Node, NodeModel, Rule, RuleModel, Tree};

verus! {

/// The limits under which a tree is grown.
#[derive(Clone, Copy, Debug)]
pub struct DTreeBuilder {
    /// A node deeper than this is not split; the root has depth zero.
    pub max_depth: usize,
    /// A node with fewer rows than this is not split.
    pub min_node_size: usize,
}

/// Whether a node at `depth` that holds these rows is left unsplit whatever
/// a search would find: it is too deep or too small, its labels are pure, or
/// there is no feature to split on.
pub open spec fn is_terminal(
    columns: Seq<ColumnModel>,
    labels: Seq<Option<u32>>,
    feature_count: nat,
    max_depth: nat,
    min_size: nat,
    depth: nat,
) -> bool {
    ||| depth > max_depth
    ||| rows_of(columns) < min_size
    ||| label_impurity(labels).num == 0
    ||| feature_count == 0
}

/// The subtree that is grown at `depth` from the rows of `columns`.
///
/// Without a present label there is none. A terminal node, and a node for
/// which no feature has a candidate threshold, is the leaf that the vote
/// among its labels yields. Any other node is split at the preferred
/// candidate, and its two children are grown one level deeper from the rows
/// on either side; where one of them comes to nothing, the node is that leaf
/// again.
pub open spec fn grow(
    columns: Seq<ColumnModel>,
    features: Seq<Seq<char>>,
    target: Seq<char>,
    max_depth: nat,
    min_size: nat,
    depth: nat,
) -> Option<NodeModel>
    decreases max_depth + 1 - depth,
{
    match categorical_of(columns, target) {
        None => None,
        Some(labels) => match vote(labels) {
            None => None,
            Some(leaf) => if is_terminal(
                columns,
                labels,
                features.len(),
                max_depth,
                min_size,
                depth,
            ) {
                Some(NodeModel::Leaf(leaf))
            } else {
                match best_pick(columns, features, labels) {
                    None => Some(NodeModel::Leaf(leaf)),
                    Some(pick) => {
                        let values = continuous_of(columns, features[pick.feature]).unwrap();
                        let above = select_columns(columns, higher_mask(values, pick.twice));
                        let below = select_columns(columns, lower_mask(values, pick.twice));
                        match (
                            grow(above, features, target, max_depth, min_size, depth + 1),
                            grow(below, features, target, max_depth, min_size, depth + 1),
                        ) {
                            (Some(higher), Some(lower)) => Some(
                                NodeModel::Internal {
                                    rule: RuleModel {
                                        dimension: features[pick.feature],
                                        cutoff: Cutoff { twice: pick.twice as i128 },
                                    },
                                    higher: Box::new(higher),
                                    lower: Box::new(lower),
                                },
                            ),
                            _ => Some(NodeModel::Leaf(leaf)),
                        }
                    },
                }
            },
        },
    }
}

/// Why no tree can be built from these columns, if anything: the target is
/// looked at first, then the features.
pub open spec fn build_fault(columns: Seq<ColumnModel>, names: Seq<Seq<char>>, target: Seq<char>) -> Option<
    InputError,
> {
    match position(columns, target) {
        None => Some(InputError::TargetMissing),
        Some(j) => match columns[j].values {
            ValuesModel::Continuous(_) => Some(InputError::TargetNotCategorical),
            ValuesModel::Categorical(_) => if exists|k: int|
                0 <= k < names.len() && position(columns, #[trigger] names[k]).is_none() {
                Some(InputError::FeatureMissing)
            } else {
                None
            },
        },
    }
}

impl DTreeBuilder {
    /// The subtree at `depth` for the rows of `table`.
    fn build_node(&self, table: &Table, features: &Vec<String>, target: &String, depth: u128) -> (node:
        Option<Node>)
        requires
            depth <= self.max_depth + 1,
        ensures
            node_view(node) == grow(
                table@,
                names_of(features@),
                target@,
                self.max_depth as nat,
                self.min_node_size as nat,
                depth as nat,
            ),
        decreases self.max_depth + 1 - depth,
    {
        let labels = match table.categorical(target) {
            Some(labels) => labels,
            None => {
                return None;
            },
        };
        let leaf = match predict_majority(labels.as_slice()) {
            Some(leaf) => leaf,
            None => {
                return None;
            },
        };
        let pure: bool = match estimate_gini(labels.as_slice()) {
            Some(g) => g.num == 0,
            None => true,
        };
        if depth > self.max_depth as u128 || table.rows() < self.min_node_size || pure
            || features.len() == 0 {
            return Some(Node::Leaf(leaf));
        }
        let best = match best_split(table, features, labels) {
            Some(best) => best,
            None => {
                return Some(Node::Leaf(leaf));
            },
        };
        proof {
            lemma_pick_in_range(table@, names_of(features@), labels@, features@.len());
        }
        let values = match table.continuous(&features[best.feature]) {
            Some(values) => values,
            None => {
                return Some(Node::Leaf(leaf));
            },
        };
        let above = table.filter(&mask_higher(values, best.cutoff));
        let below = table.filter(&mask_lower(values, best.cutoff));
        let higher = self.build_node(&above, features, target, depth + 1);
        let lower = self.build_node(&below, features, target, depth + 1);
        match (higher, lower) {
            (Some(higher), Some(lower)) => Some(
                Node::Internal {
                    rule: Rule { dimension: features[best.feature].clone(), cutoff: best.cutoff },
                    higher: Box::new(higher),
                    lower: Box::new(lower),
                },
            ),
            _ => Some(Node::Leaf(leaf)),
        }
    }

    /// Grows a decision tree from `data` that predicts `target` from
    /// `features`.
    ///
    /// The target must name a categorical column and every feature a column
    /// of the table; a feature whose column is not continuous is not split
    /// on. A fault is reported and no tree is built. Otherwise the tree is
    /// the one that `grow` describes from depth zero; it has no node where
    /// the table has no row or no present label.
    pub fn build(&self, data: &Table, features: &Vec<String>, target: &String) -> (result: Result<
        Tree,
        InputError,
    >)
        ensures
            match build_fault(data@, names_of(features@), target@) {
                Some(fault) => result matches Err(e) && e == fault,
                None => result matches Ok(tree) && tree@ == grow(
                    data@,
                    names_of(features@),
                    target@,
                    self.max_depth as nat,
                    self.min_node_size as nat,
                    0,
                ),
            },
            rows_of(data@) == 0 ==> (result matches Ok(tree) ==> tree@.is_none()),
    {
        proof {
            use_type_invariant(data);
            if rows_of(data@) == 0 {
                crate::laws::lemma_no_rows_no_tree(
                    data@,
                    names_of(features@),
                    target@,
                    self.max_depth as nat,
                    self.min_node_size as nat,
                    Seq::empty(),
                );
            }
        }
        match data.lookup(target) {
            None => {
                return Err(InputError::TargetMissing);
            },
            Some(column) => match &column.values {
                Values::Continuous(_) => {
                    return Err(InputError::TargetNotCategorical);
                },
                Values::Categorical(_) => {},
            },
        }
        let mut k: usize = 0;
        while k < features.len()
            invariant
                0 <= k <= features@.len(),
                categorical_of(data@, target@).is_some(),
                forall|i: int|
                    0 <= i < k ==> position(data@, #[trigger] names_of(features@)[i]).is_some(),
            decreases features.len() - k,
        {
            if data.find(&features[k]).is_none() {
                assert(position(data@, names_of(features@)[k as int]).is_none());
                return Err(InputError::FeatureMissing);
            }
            k = k + 1;
        }
        match self.build_node(data, features, target, 0) {
            Some(node) => Ok(Tree::from_node(node)),
            None => Ok(Tree::new()),
        }
    }
}

} // verus!
