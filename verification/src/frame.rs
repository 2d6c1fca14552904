use polars::prelude::{DataFrame, DataType, Series};
use vstd::prelude::*;
use crate::table::{rows_of, ColumnModel, Table, Values, ValuesModel};

verus! {

/// A frame of polars, opaque to the verifier: it is read through the functions
/// below and never looked into.
#[verifier::external_type_specification]
#[verifier::external_body]
pub struct ExDataFrame(DataFrame);

/// A column of a frame of polars, opaque to the verifier. It is declared
/// because the type of frames refers to it; nothing here handles one.
#[verifier::external_type_specification]
#[verifier::external_body]
pub struct ExSeries(Series);

/// What a frame holds, column by column: the name of the column, its
/// entries where it holds 64-bit signed integers, and its class codes where
/// it holds 32-bit unsigned integers or categories.
pub uninterp spec fn frame_columns(data: DataFrame) -> Seq<
    (Seq<char>, Option<Seq<Option<i64>>>, Option<Seq<Option<u32>>>),
>;

/// Calls `DataFrame::width`: the number of columns.
#[verifier::external_body]
fn frame_width(data: &DataFrame) -> (n: usize)
    ensures
        n == frame_columns(*data).len(),
{
    data.width()
}

/// Calls `DataFrame::get_columns` and `Series::name`: the name of column
/// `i`.
#[verifier::external_body]
fn column_name(data: &DataFrame, i: usize) -> (name: String)
    requires
        i < frame_columns(*data).len(),
    ensures
        name@ == frame_columns(*data)[i as int].0,
{
    data.get_columns()[i].name().to_string()
}

/// Calls `Series::dtype` and `Series::i64` on column `i` and walks what it
/// holds: the entries of a column of 64-bit signed integers, a missing one
/// as `None`; nothing for a column of another type.
#[verifier::external_body]
fn column_numbers(data: &DataFrame, i: usize) -> (numbers: Option<Vec<Option<i64>>>)
    requires
        i < frame_columns(*data).len(),
    ensures
        seen(numbers) == frame_columns(*data)[i as int].1,
{
    let series = &data.get_columns()[i];
    match series.dtype() {
        DataType::Int64 => series.i64().ok().map(|entries| entries.into_iter().collect()),
        _ => None,
    }
}

/// Calls `Series::dtype`, `Series::u32`, `Series::categorical` and
/// `CategoricalChunked::physical` on column `i` and walks what it holds: the
/// entries of a column of 32-bit unsigned integers, or the codes of a
/// column of categories, a missing one as `None`; nothing for a column of
/// another type.
#[verifier::external_body]
fn column_codes(data: &DataFrame, i: usize) -> (codes: Option<Vec<Option<u32>>>)
    requires
        i < frame_columns(*data).len(),
    ensures
        seen(codes) == frame_columns(*data)[i as int].2,
{
    let series = &data.get_columns()[i];
    match series.dtype() {
        DataType::UInt32 => series.u32().ok().map(|entries| entries.into_iter().collect()),
        DataType::Categorical(_, _) => series.categorical().ok().map(
            |entries| entries.physical().into_iter().collect(),
        ),
        _ => None,
    }
}

/// The entries of what was read, if anything was.
pub open spec fn seen<T>(read: Option<Vec<T>>) -> Option<Seq<T>> {
    match read {
        Some(entries) => Some(entries@),
        None => None,
    }
}

/// The columns with what was read of one more column put behind them: a
/// continuous column where numbers were read, a categorical one where codes
/// were, and no column else. There is no result where the length of what
/// was read differs from that of the columns present.
pub open spec fn placed(
    columns: Seq<ColumnModel>,
    name: Seq<char>,
    numbers: Option<Seq<Option<i64>>>,
    codes: Option<Seq<Option<u32>>>,
) -> Option<Seq<ColumnModel>> {
    match numbers {
        Some(entries) => if columns.len() == 0 || rows_of(columns) == entries.len() {
            Some(columns.push(ColumnModel { name, values: ValuesModel::Continuous(entries) }))
        } else {
            None
        },
        None => match codes {
            Some(entries) => if columns.len() == 0 || rows_of(columns) == entries.len() {
                Some(columns.push(ColumnModel { name, values: ValuesModel::Categorical(entries) }))
            } else {
                None
            },
            None => Some(columns),
        },
    }
}

/// The columns that the first `upto` columns read from a frame give.
pub open spec fn frame_table(
    read: Seq<(Seq<char>, Option<Seq<Option<i64>>>, Option<Seq<Option<u32>>>)>,
    upto: nat,
) -> Option<Seq<ColumnModel>>
    decreases upto,
{
    if upto == 0 {
        Some(Seq::empty())
    } else {
        match frame_table(read, (upto - 1) as nat) {
            Some(columns) => placed(columns, read[upto - 1].0, read[upto - 1].1, read[upto - 1].2),
            None => None,
        }
    }
}

impl Table {
    /// The table with what was read of one more column put behind its
    /// columns.
    pub fn place(
        self,
        name: String,
        numbers: Option<Vec<Option<i64>>>,
        codes: Option<Vec<Option<u32>>>,
    ) -> (result: Option<Table>)
        ensures
            match placed(self@, name@, seen(numbers), seen(codes)) {
                Some(columns) => result matches Some(table) && table@ == columns,
                None => result.is_none(),
            },
    {
        match numbers {
            Some(entries) => self.with_column(name, Values::Continuous(entries)),
            None => match codes {
                Some(entries) => self.with_column(name, Values::Categorical(entries)),
                None => Some(self),
            },
        }
    }

    /// The table that a frame holds for the library: its columns of 64-bit
    /// signed integers as continuous columns and its columns of 32-bit
    /// unsigned integers or categories as categorical ones, in their order
    /// and under their names. Columns of other types are left out. There is
    /// no table where the columns differ in length.
    pub fn from_frame(data: &DataFrame) -> (result: Option<Table>)
        ensures
            match frame_table(frame_columns(*data), frame_columns(*data).len()) {
                Some(columns) => result matches Some(table) && table@ == columns,
                None => result.is_none(),
            },
    {
        let width: usize = frame_width(data);
        let mut table = Table::new();
        let mut i: usize = 0;
        while i < width
            invariant
                0 <= i <= width,
                width == frame_columns(*data).len(),
                frame_table(frame_columns(*data), i as nat) == Some(table@),
            decreases width - i,
        {
            let name = column_name(data, i);
            let numbers = column_numbers(data, i);
            let codes = column_codes(data, i);
            table = match table.place(name, numbers, codes) {
                Some(table) => table,
                None => {
                    proof {
                        lemma_frame_table_none(
                            frame_columns(*data),
                            (i + 1) as nat,
                            width as nat,
                        );
                    }
                    return None;
                },
            };
            i = i + 1;
        }
        Some(table)
    }
}

proof fn lemma_frame_table_none(
    read: Seq<(Seq<char>, Option<Seq<Option<i64>>>, Option<Seq<Option<u32>>>)>,
    at: nat,
    upto: nat,
)
    requires
        at <= upto,
        frame_table(read, at).is_none(),
    ensures
        frame_table(read, upto).is_none(),
    decreases upto,
{
    if at < upto {
        lemma_frame_table_none(read, at, (upto - 1) as nat);
    }
}

} // verus!
