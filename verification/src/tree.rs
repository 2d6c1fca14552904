use vstd::prelude::*;
use crate::majority::Leaf;
use crate::split::{goes_higher, Cutoff};
use crate::table::{continuous_of, lemma_position, position, ColumnModel, Table, Values, ValuesModel};

verus! {

/// A split rule: rows whose entry for `dimension` is not below `cutoff` go to
/// the higher child, those whose entry is below it to the lower child.
#[derive(Debug)]
pub struct Rule {
    pub dimension: String,
    pub cutoff: Cutoff,
}

/// The mathematical content of a `Rule`.
pub struct RuleModel {
    pub dimension: Seq<char>,
    pub cutoff: Cutoff,
}

impl View for Rule {
    type V = RuleModel;

    open spec fn view(&self) -> RuleModel {
        RuleModel { dimension: self.dimension@, cutoff: self.cutoff }
    }
}

/// A node of a decision tree: a leaf with its prediction, or a rule with the
/// two subtrees that it routes to.
#[derive(Debug)]
pub enum Node {
    Leaf(Leaf),
    Internal { rule: Rule, higher: Box<Node>, lower: Box<Node> },
}

/// The mathematical content of a `Node`.
pub enum NodeModel {
    Leaf(Leaf),
    Internal { rule: RuleModel, higher: Box<NodeModel>, lower: Box<NodeModel> },
}

impl View for Node {
    type V = NodeModel;

    open spec fn view(&self) -> NodeModel
        decreases self,
    {
        match self {
            Node::Leaf(leaf) => NodeModel::Leaf(*leaf),
            Node::Internal { rule, higher, lower } => NodeModel::Internal {
                rule: rule@,
                higher: Box::new((**higher)@),
                lower: Box::new((**lower)@),
            },
        }
    }
}

/// The mathematical content of a node, if there is one.
pub open spec fn node_view(node: Option<Node>) -> Option<NodeModel> {
    match node {
        Some(node) => Some(node@),
        None => None,
    }
}

/// One entry of a row: the name of a feature and its value, if any.
#[derive(Debug)]
pub struct Field {
    pub name: String,
    pub value: Option<i64>,
}

/// The mathematical content of a `Field`.
pub struct FieldModel {
    pub name: Seq<char>,
    pub value: Option<i64>,
}

impl View for Field {
    type V = FieldModel;

    open spec fn view(&self) -> FieldModel {
        FieldModel { name: self.name@, value: self.value }
    }
}

/// A row to predict for: the entries of one observation by feature name.
#[derive(Debug)]
pub struct Row {
    pub fields: Vec<Field>,
}

impl View for Row {
    type V = Seq<FieldModel>;

    open spec fn view(&self) -> Seq<FieldModel> {
        Seq::new(self.fields@.len(), |i: int| self.fields@[i]@)
    }
}

/// The value that a row holds for the feature `name`: that of its first
/// entry of that name. A row without such an entry holds none.
pub open spec fn row_value(row: Seq<FieldModel>, name: Seq<char>) -> Option<i64>
    decreases row.len(),
{
    if row.len() == 0 {
        None
    } else if row[0].name == name {
        row[0].value
    } else {
        row_value(row.drop_first(), name)
    }
}

/// Row `i` of a table as a row to predict for: one entry for each column,
/// with the value where the column is continuous and present there. A row
/// that the table does not have has no value at all.
pub open spec fn row_of(columns: Seq<ColumnModel>, i: int) -> Seq<FieldModel> {
    Seq::new(
        columns.len(),
        |c: int|
            FieldModel {
                name: columns[c].name,
                value: match columns[c].values {
                    ValuesModel::Continuous(v) => if 0 <= i < v.len() {
                        v[i]
                    } else {
                        None
                    },
                    ValuesModel::Categorical(_) => None,
                },
            },
    )
}

/// What the subtree at `node` predicts for `row`: the leaf that the rules
/// lead to. Where the row holds no value for the feature of a rule on the
/// way, there is no prediction.
pub open spec fn predict_from(node: NodeModel, row: Seq<FieldModel>) -> Option<Leaf>
    decreases node,
{
    match node {
        NodeModel::Leaf(leaf) => Some(leaf),
        NodeModel::Internal { rule, higher, lower } => match row_value(row, rule.dimension) {
            None => None,
            Some(v) => if goes_higher(Some(v), rule.cutoff.twice as int) {
                predict_from(*higher, row)
            } else {
                predict_from(*lower, row)
            },
        },
    }
}

/// Every leaf of the subtree at `node` has confidence one.
pub open spec fn is_pure(node: NodeModel) -> bool
    decreases node,
{
    match node {
        NodeModel::Leaf(leaf) => leaf.confidence.is_one_spec(),
        NodeModel::Internal { rule, higher, lower } => is_pure(*higher) && is_pure(*lower),
    }
}

/// What the tree with this root predicts for `row`; the tree without a node
/// predicts nothing.
pub open spec fn tree_prediction(root: Option<NodeModel>, row: Seq<FieldModel>) -> Option<Leaf> {
    match root {
        Some(node) => predict_from(node, row),
        None => None,
    }
}

/// A row of a table holds for a feature what the table's continuous column
/// of that name holds in that row.
pub proof fn lemma_row_of(columns: Seq<ColumnModel>, i: int, name: Seq<char>)
    ensures
        row_value(row_of(columns, i), name) == match continuous_of(columns, name) {
            Some(v) => if 0 <= i < v.len() {
                v[i]
            } else {
                None
            },
            None => None,
        },
{
    lemma_position(columns, name);
    match position(columns, name) {
        Some(p) => {
            lemma_row_value_found(row_of(columns, i), name, p);
        },
        None => {
            lemma_row_value_absent(row_of(columns, i), name);
        },
    }
}

proof fn lemma_row_value_found(row: Seq<FieldModel>, name: Seq<char>, p: int)
    requires
        0 <= p < row.len(),
        row[p].name == name,
        forall|j: int| 0 <= j < p ==> (#[trigger] row[j]).name != name,
    ensures
        row_value(row, name) == row[p].value,
    decreases row.len(),
{
    if p > 0 {
        let rest = row.drop_first();
        assert(rest[p - 1] == row[p]);
        assert forall|j: int| 0 <= j < p - 1 implies (#[trigger] rest[j]).name != name by {
            assert(rest[j] == row[j + 1]);
        }
        assert(row[0].name != name);
        lemma_row_value_found(rest, name, p - 1);
    }
}

proof fn lemma_row_value_absent(row: Seq<FieldModel>, name: Seq<char>)
    requires
        forall|j: int| 0 <= j < row.len() ==> (#[trigger] row[j]).name != name,
    ensures
        row_value(row, name).is_none(),
    decreases row.len(),
{
    if row.len() > 0 {
        let rest = row.drop_first();
        assert forall|j: int| 0 <= j < rest.len() implies (#[trigger] rest[j]).name != name by {
            assert(rest[j] == row[j + 1]);
        }
        assert(row[0].name != name);
        lemma_row_value_absent(rest, name);
    }
}

impl Row {
    /// The value that the row holds for the feature `name`.
    pub fn value(&self, name: &String) -> (found: Option<i64>)
        ensures
            found == row_value(self@, name@),
    {
        let mut i: usize = 0;
        proof {
            assert(self@.skip(0) =~= self@);
        }
        while i < self.fields.len()
            invariant
                0 <= i <= self.fields@.len(),
                row_value(self@, name@) == row_value(self@.skip(i as int), name@),
            decreases self.fields.len() - i,
        {
            proof {
                assert(self@.skip(i as int).drop_first() =~= self@.skip(i + 1));
                assert(self@.skip(i as int)[0] == self@[i as int]);
            }
            if self.fields[i].name == *name {
                return self.fields[i].value;
            }
            i = i + 1;
        }
        proof {
            assert(self@.skip(i as int) =~= Seq::<FieldModel>::empty());
        }
        None
    }
}

impl Node {
    /// What the subtree at this node predicts for `row`.
    pub fn predict(&self, row: &Row) -> (found: Option<Leaf>)
        ensures
            found == predict_from(self@, row@),
        decreases *self,
    {
        match self {
            Node::Leaf(leaf) => Some(*leaf),
            Node::Internal { rule, higher, lower } => match row.value(&rule.dimension) {
                None => None,
                Some(v) => if 2 * (v as i128) >= rule.cutoff.twice {
                    higher.predict(row)
                } else {
                    lower.predict(row)
                },
            },
        }
    }
}

/// A decision tree: at most one root node with all that hangs from it. A
/// tree without a root is the model that could not be trained.
#[derive(Debug)]
pub struct Tree {
    pub root: Option<Node>,
}

impl View for Tree {
    type V = Option<NodeModel>;

    open spec fn view(&self) -> Option<NodeModel> {
        node_view(self.root)
    }
}

impl Tree {
    /// The tree without a node.
    pub fn new() -> (tree: Tree)
        ensures
            tree@.is_none(),
            tree.root.is_none(),
    {
        Tree { root: None }
    }

    /// The tree whose root is `node`.
    pub fn from_node(node: Node) -> (tree: Tree)
        ensures
            tree@ == Some(node@),
            tree.root == Some(node),
    {
        Tree { root: Some(node) }
    }

    /// Whether the tree has no node.
    pub fn is_empty(&self) -> (b: bool)
        ensures
            b == self@.is_none(),
    {
        self.root.is_none()
    }

    /// Walks from the root to the leaf that the rules lead to for `row` and
    /// returns its class and confidence.
    ///
    /// At each rule the row's value for the rule's feature decides: not
    /// below the threshold, the higher child; below it, the lower child.
    /// Where the row holds no value for that feature, and for the tree
    /// without a node, there is no prediction.
    pub fn predict(&self, row: &Row) -> (found: Option<Leaf>)
        ensures
            found == tree_prediction(self@, row@),
            self@.is_none() ==> found.is_none(),
    {
        match &self.root {
            Some(node) => node.predict(row),
            None => None,
        }
    }
}

impl Table {
    /// Row `i` as a row to predict for.
    pub fn row(&self, i: usize) -> (row: Row)
        ensures
            row@ == row_of(self@, i as int),
    {
        let mut fields: Vec<Field> = Vec::new();
        let mut c: usize = 0;
        while c < self.width()
            invariant
                0 <= c <= self@.len(),
                fields@.len() == c,
                forall|j: int| 0 <= j < c ==> (#[trigger] fields@[j])@ == row_of(self@, i as int)[j],
            decreases self@.len() - c,
        {
            match self.column(c) {
                Some(column) => {
                    let value: Option<i64> = match &column.values {
                        Values::Continuous(v) => if i < v.len() {
                            v[i]
                        } else {
                            None
                        },
                        Values::Categorical(_) => None,
                    };
                    fields.push(Field { name: column.name.clone(), value });
                },
                None => {},
            }
            c = c + 1;
        }
        let row = Row { fields };
        assert(row@ =~= row_of(self@, i as int));
        row
    }
}

} // verus!
