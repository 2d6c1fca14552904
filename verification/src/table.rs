use vstd::prelude::*;

verus! {

/// The entries of `values` in the rows that `mask` marks, in their order.
pub open spec fn select<T>(values: Seq<T>, mask: Seq<bool>) -> Seq<T>
    decreases values.len(),
{
    if values.len() == 0 {
        Seq::empty()
    } else if mask.len() >= values.len() && mask[values.len() - 1] {
        select(values.drop_last(), mask).push(values.last())
    } else {
        select(values.drop_last(), mask)
    }
}

/// How many of the first `n` rows `mask` marks.
pub open spec fn marked(mask: Seq<bool>, n: int) -> nat
    decreases n,
{
    if n <= 0 || n > mask.len() {
        0
    } else {
        marked(mask, n - 1) + if mask[n - 1] {
            1nat
        } else {
            0nat
        }
    }
}

/// The row from which entry `k` of a selection was taken.
pub proof fn lemma_select_origin<T>(values: Seq<T>, mask: Seq<bool>, k: int) -> (i: int)
    requires
        mask.len() >= values.len(),
        0 <= k < select(values, mask).len(),
    ensures
        0 <= i < values.len(),
        mask[i],
        marked(mask, i) == k,
        select(values, mask)[k] == values[i],
    decreases values.len(),
{
    let n = values.len() - 1;
    let front = values.drop_last();
    lemma_select(front, mask);
    if k < select(front, mask).len() {
        lemma_select_origin(front, mask, k)
    } else {
        n
    }
}

/// Selecting keeps one entry for each marked row, at the place that the
/// number of marked rows before it gives.
pub proof fn lemma_select<T>(values: Seq<T>, mask: Seq<bool>)
    requires
        mask.len() >= values.len(),
    ensures
        select(values, mask).len() == marked(mask, values.len() as int),
        select(values, mask).len() <= values.len(),
        forall|i: int|
            0 <= i < values.len() && mask[i] ==> 0 <= #[trigger] marked(mask, i) < select(
                values,
                mask,
            ).len() && select(values, mask)[marked(mask, i) as int] == values[i],
    decreases values.len(),
{
    if values.len() > 0 {
        let n = values.len() - 1;
        let front = values.drop_last();
        lemma_select(front, mask);
        assert forall|i: int| 0 <= i < values.len() && mask[i] implies 0 <= #[trigger] marked(
            mask,
            i,
        ) < select(values, mask).len() && select(values, mask)[marked(mask, i) as int]
            == values[i] by {
            if i < n {
                assert(front[i] == values[i]);
            }
        }
    }
}

/// The entries of `values` in the rows that `mask` marks. A row for which
/// the mask has no mark is not kept.
pub fn select_rows<T: Copy>(values: &Vec<T>, mask: &Vec<bool>) -> (kept: Vec<T>)
    ensures
        kept@ == select(values@, mask@),
{
    let mut kept: Vec<T> = Vec::new();
    let mut i: usize = 0;
    while i < values.len()
        invariant
            0 <= i <= values.len(),
            kept@ == select(values@.take(i as int), mask@),
        decreases values.len() - i,
    {
        proof {
            assert(values@.take(i + 1).drop_last() =~= values@.take(i as int));
        }
        if i < mask.len() && mask[i] {
            kept.push(values[i]);
        }
        i = i + 1;
    }
    proof {
        assert(values@.take(values.len() as int) =~= values@);
    }
    kept
}

/// What a column holds, row by row; a missing entry is `None`.
#[derive(Debug)]
pub enum Values {
    /// Ordered numbers.
    Continuous(Vec<Option<i64>>),
    /// Class codes.
    Categorical(Vec<Option<u32>>),
}

/// The mathematical content of `Values`.
pub enum ValuesModel {
    Continuous(Seq<Option<i64>>),
    Categorical(Seq<Option<u32>>),
}

impl ValuesModel {
    /// The number of rows.
    pub open spec fn len(self) -> nat {
        match self {
            ValuesModel::Continuous(v) => v.len(),
            ValuesModel::Categorical(v) => v.len(),
        }
    }

    /// The rows that `mask` marks.
    pub open spec fn select(self, mask: Seq<bool>) -> ValuesModel {
        match self {
            ValuesModel::Continuous(v) => ValuesModel::Continuous(select(v, mask)),
            ValuesModel::Categorical(v) => ValuesModel::Categorical(select(v, mask)),
        }
    }
}

impl View for Values {
    type V = ValuesModel;

    open spec fn view(&self) -> ValuesModel {
        match self {
            Values::Continuous(v) => ValuesModel::Continuous(v@),
            Values::Categorical(v) => ValuesModel::Categorical(v@),
        }
    }
}

/// A named column.
#[derive(Debug)]
pub struct Column {
    pub name: String,
    pub values: Values,
}

/// The mathematical content of a `Column`.
pub struct ColumnModel {
    pub name: Seq<char>,
    pub values: ValuesModel,
}

impl View for Column {
    type V = ColumnModel;

    open spec fn view(&self) -> ColumnModel {
        ColumnModel { name: self.name@, values: self.values@ }
    }
}

/// The number of rows of a sequence of columns: that of the first one.
pub open spec fn rows_of(columns: Seq<ColumnModel>) -> nat {
    if columns.len() == 0 {
        0
    } else {
        columns[0].values.len()
    }
}

/// All columns have the same number of rows.
pub open spec fn aligned(columns: Seq<ColumnModel>) -> bool {
    forall|i: int| 0 <= i < columns.len() ==> (#[trigger] columns[i]).values.len() == rows_of(columns)
}

/// The place of the first column called `name`.
pub open spec fn position(columns: Seq<ColumnModel>, name: Seq<char>) -> Option<int>
    decreases columns.len(),
{
    if columns.len() == 0 {
        None
    } else {
        match position(columns.drop_last(), name) {
            Some(i) => Some(i),
            None => if columns.last().name == name {
                Some(columns.len() - 1)
            } else {
                None
            },
        }
    }
}

/// The entries of the first column called `name`, where it is continuous.
pub open spec fn continuous_of(columns: Seq<ColumnModel>, name: Seq<char>) -> Option<
    Seq<Option<i64>>,
> {
    match position(columns, name) {
        Some(i) => match columns[i].values {
            ValuesModel::Continuous(v) => Some(v),
            ValuesModel::Categorical(_) => None,
        },
        None => None,
    }
}

/// The entries of the first column called `name`, where it is categorical.
pub open spec fn categorical_of(columns: Seq<ColumnModel>, name: Seq<char>) -> Option<
    Seq<Option<u32>>,
> {
    match position(columns, name) {
        Some(i) => match columns[i].values {
            ValuesModel::Continuous(_) => None,
            ValuesModel::Categorical(v) => Some(v),
        },
        None => None,
    }
}

/// The columns restricted to the rows that `mask` marks.
pub open spec fn select_columns(columns: Seq<ColumnModel>, mask: Seq<bool>) -> Seq<ColumnModel> {
    Seq::new(
        columns.len(),
        |i: int| ColumnModel { name: columns[i].name, values: columns[i].values.select(mask) },
    )
}

/// Where `position` finds a column, it is the first one of that name.
pub proof fn lemma_position(columns: Seq<ColumnModel>, name: Seq<char>)
    ensures
        match position(columns, name) {
            Some(i) => 0 <= i < columns.len() && columns[i].name == name && forall|j: int|
                0 <= j < i ==> (#[trigger] columns[j]).name != name,
            None => forall|j: int| 0 <= j < columns.len() ==> (#[trigger] columns[j]).name != name,
        },
    decreases columns.len(),
{
    if columns.len() > 0 {
        lemma_position(columns.drop_last(), name);
        match position(columns.drop_last(), name) {
            Some(i) => {
                assert(columns.drop_last()[i] == columns[i]);
                assert forall|j: int| 0 <= j < i implies (#[trigger] columns[j]).name != name by {
                    assert(columns.drop_last()[j] == columns[j]);
                }
            },
            None => {
                assert forall|j: int| 0 <= j < columns.len() - 1 implies (#[trigger] columns[j]).name
                    != name by {
                    assert(columns.drop_last()[j] == columns[j]);
                }
            },
        }
    }
}

/// A selection holds as many entries as rows are marked, among those rows
/// for which there is both an entry and a mark.
pub proof fn lemma_select_length<T>(values: Seq<T>, mask: Seq<bool>)
    ensures
        select(values, mask).len() == marked(
            mask,
            if values.len() <= mask.len() {
                values.len() as int
            } else {
                mask.len() as int
            },
        ),
    decreases values.len(),
{
    if values.len() <= mask.len() {
        lemma_select(values, mask);
    } else {
        lemma_select_length(values.drop_last(), mask);
    }
}

/// Restricting rows keeps the names and kinds of the columns, and keeps
/// them aligned.
pub proof fn lemma_select_columns(columns: Seq<ColumnModel>, mask: Seq<bool>, name: Seq<char>)
    requires
        aligned(columns),
    ensures
        aligned(select_columns(columns, mask)),
        columns.len() > 0 && mask.len() == rows_of(columns) ==> rows_of(
            select_columns(columns, mask),
        ) == marked(mask, mask.len() as int),
        position(select_columns(columns, mask), name) == position(columns, name),
        continuous_of(select_columns(columns, mask), name) == match continuous_of(columns, name) {
            Some(v) => Some(select(v, mask)),
            None => None,
        },
        categorical_of(select_columns(columns, mask), name) == match categorical_of(columns, name) {
            Some(v) => Some(select(v, mask)),
            None => None,
        },
{
    let kept = select_columns(columns, mask);
    let n = if rows_of(columns) <= mask.len() {
        rows_of(columns) as int
    } else {
        mask.len() as int
    };
    assert forall|i: int| 0 <= i < kept.len() implies (#[trigger] kept[i]).values.len() == marked(
        mask,
        n,
    ) by {
        assert(columns[i].values.len() == rows_of(columns));
        match columns[i].values {
            ValuesModel::Continuous(v) => lemma_select_length(v, mask),
            ValuesModel::Categorical(v) => lemma_select_length(v, mask),
        }
    }
    lemma_position_names(columns, kept, name);
    lemma_position(columns, name);
}

proof fn lemma_position_names(a: Seq<ColumnModel>, b: Seq<ColumnModel>, name: Seq<char>)
    requires
        a.len() == b.len(),
        forall|i: int| 0 <= i < a.len() ==> (#[trigger] a[i]).name == b[i].name,
    ensures
        position(a, name) == position(b, name),
    decreases a.len(),
{
    if a.len() > 0 {
        assert forall|i: int| 0 <= i < a.len() - 1 implies (#[trigger] a.drop_last()[i]).name
            == b.drop_last()[i].name by {
            assert(a[i].name == b[i].name);
        }
        lemma_position_names(a.drop_last(), b.drop_last(), name);
        assert(a[a.len() - 1].name == b[a.len() - 1].name);
    }
}

/// The mathematical content of each column.
pub open spec fn models(columns: Seq<Column>) -> Seq<ColumnModel> {
    Seq::new(columns.len(), |i: int| columns[i]@)
}

/// A table: named columns that are aligned row by row.
#[derive(Debug)]
pub struct Table {
    columns: Vec<Column>,
}

impl View for Table {
    type V = Seq<ColumnModel>;

    closed spec fn view(&self) -> Seq<ColumnModel> {
        models(self.columns@)
    }
}

impl Table {
    /// What holds of every table: its columns are aligned.
    #[verifier::type_invariant]
    pub open spec fn well_formed(self) -> bool {
        aligned(self@)
    }

    /// A table without columns, and so without rows.
    pub fn new() -> (table: Table)
        ensures
            table@ == Seq::<ColumnModel>::empty(),
    {
        let table = Table { columns: Vec::new() };
        assert(table@ =~= Seq::<ColumnModel>::empty());
        table
    }

    /// The number of rows.
    pub fn rows(&self) -> (n: usize)
        ensures
            n == rows_of(self@),
    {
        if self.columns.len() == 0 {
            0
        } else {
            match &self.columns[0].values {
                Values::Continuous(v) => v.len(),
                Values::Categorical(v) => v.len(),
            }
        }
    }

    /// The number of columns.
    pub fn width(&self) -> (n: usize)
        ensures
            n == self@.len(),
    {
        self.columns.len()
    }

    /// Whether a column of `rows` rows can be added: the table has no
    /// column yet, or its columns have that many rows.
    pub open spec fn admits(self, rows: nat) -> bool {
        self@.len() == 0 || rows_of(self@) == rows
    }

    /// The table with one more column, or nothing when the length of the
    /// column differs from that of the columns present.
    pub fn with_column(self, name: String, values: Values) -> (result: Option<Table>)
        ensures
            result.is_some() == self.admits(values@.len()),
            result matches Some(table) ==> table@ == self@.push(
                ColumnModel { name: name@, values: values@ },
            ),
    {
        proof {
            use_type_invariant(&self);
        }
        let n: usize = match &values {
            Values::Continuous(v) => v.len(),
            Values::Categorical(v) => v.len(),
        };
        if self.columns.len() == 0 || self.rows() == n {
            let ghost before = self@;
            let mut columns = self.columns;
            columns.push(Column { name, values });
            proof {
                let after = models(columns@);
                assert(after =~= before.push(ColumnModel { name: name@, values: values@ }));
                assert forall|i: int| 0 <= i < after.len() implies (#[trigger] after[i]).values.len()
                    == rows_of(after) by {
                    if i < before.len() {
                        assert(before[i].values.len() == rows_of(before));
                    }
                }
            }
            Some(Table { columns })
        } else {
            None
        }
    }

    /// Column `i`, if there are that many.
    pub fn column(&self, i: usize) -> (column: Option<&Column>)
        ensures
            match column {
                Some(c) => i < self@.len() && c@ == self@[i as int] && c@.values.len() == rows_of(
                    self@,
                ),
                None => i >= self@.len(),
            },
    {
        proof {
            use_type_invariant(self);
        }
        if i < self.columns.len() {
            assert(self@[i as int].values.len() == rows_of(self@));
            Some(&self.columns[i])
        } else {
            None
        }
    }

    /// The first column called `name`, if there is one.
    pub fn lookup(&self, name: &String) -> (column: Option<&Column>)
        ensures
            match position(self@, name@) {
                Some(i) => column matches Some(c) && c@ == self@[i] && c@.values.len() == rows_of(
                    self@,
                ),
                None => column.is_none(),
            },
    {
        match self.find(name) {
            Some(i) => self.column(i),
            None => None,
        }
    }

    /// The place of the first column called `name`.
    pub fn find(&self, name: &String) -> (found: Option<usize>)
        ensures
            match found {
                Some(i) => position(self@, name@) == Some(i as int) && i < self@.len(),
                None => position(self@, name@).is_none(),
            },
    {
        let mut i: usize = 0;
        while i < self.columns.len()
            invariant
                0 <= i <= self.columns@.len(),
                position(self@.take(i as int), name@).is_none(),
            decreases self.columns.len() - i,
        {
            proof {
                assert(self@.take(i + 1).drop_last() =~= self@.take(i as int));
            }
            if self.columns[i].name == *name {
                proof {
                    lemma_position_prefix(self@, name@, i + 1);
                }
                return Some(i);
            }
            i = i + 1;
        }
        proof {
            assert(self@.take(i as int) =~= self@);
        }
        None
    }

    /// The entries of the first column called `name`, where it is continuous.
    pub fn continuous(&self, name: &String) -> (found: Option<&Vec<Option<i64>>>)
        ensures
            match found {
                Some(v) => continuous_of(self@, name@) == Some(v@) && v@.len() == rows_of(self@),
                None => continuous_of(self@, name@).is_none(),
            },
    {
        proof {
            lemma_position(self@, name@);
        }
        match self.lookup(name) {
            Some(column) => match &column.values {
                Values::Continuous(v) => Some(v),
                Values::Categorical(_) => None,
            },
            None => None,
        }
    }

    /// The entries of the first column called `name`, where it is categorical.
    pub fn categorical(&self, name: &String) -> (found: Option<&Vec<Option<u32>>>)
        ensures
            match found {
                Some(v) => categorical_of(self@, name@) == Some(v@) && v@.len() == rows_of(self@),
                None => categorical_of(self@, name@).is_none(),
            },
    {
        proof {
            lemma_position(self@, name@);
        }
        match self.lookup(name) {
            Some(column) => match &column.values {
                Values::Continuous(_) => None,
                Values::Categorical(v) => Some(v),
            },
            None => None,
        }
    }

    /// The table restricted to the rows that `mask` marks, with all its
    /// columns. A row for which the mask has no mark is not kept.
    pub fn filter(&self, mask: &Vec<bool>) -> (kept: Table)
        ensures
            kept@ == select_columns(self@, mask@),
    {
        proof {
            use_type_invariant(self);
        }
        let mut columns: Vec<Column> = Vec::new();
        let mut i: usize = 0;
        while i < self.columns.len()
            invariant
                0 <= i <= self.columns@.len(),
                aligned(self@),
                columns@.len() == i,
                forall|j: int| 0 <= j < i ==> (#[trigger] columns@[j])@ == select_columns(self@, mask@)[j],
            decreases self.columns.len() - i,
        {
            assert(self@[i as int].values.len() == rows_of(self@));
            let values = match &self.columns[i].values {
                Values::Continuous(v) => Values::Continuous(select_rows(v, mask)),
                Values::Categorical(v) => Values::Categorical(select_rows(v, mask)),
            };
            columns.push(Column { name: self.columns[i].name.clone(), values });
            i = i + 1;
        }
        proof {
            assert(models(columns@) =~= select_columns(self@, mask@));
            lemma_select_columns(self@, mask@, Seq::empty());
        }
        Table { columns }
    }
}

proof fn lemma_position_prefix(columns: Seq<ColumnModel>, name: Seq<char>, n: int)
    requires
        0 <= n <= columns.len(),
        position(columns.take(n), name).is_some(),
    ensures
        position(columns, name) == position(columns.take(n), name),
    decreases columns.len(),
{
    if n < columns.len() {
        assert(columns.drop_last().take(n) =~= columns.take(n));
        lemma_position_prefix(columns.drop_last(), name, n);
    } else {
        assert(columns.take(n) =~= columns);
    }
}

} // verus!
