//! Tables of features, and how a table is read from text.
//!
//! The text of a table is cut into lines and each line into fields. The
//! first line is the header. Of every line the first two fields belong to
//! the coordinate, longitude before latitude; each further field of the
//! header is the title of a column, and each further field of another
//! line is the value of the row in that column.

use vstd::prelude::*;
use crate::error::ParseError;
use crate::number::{float_chars, is_float_text, unsigned_chars, unsigned_of};
use crate::text::{chars_of, fields_of, lines_of, split, split_lines, string_of, FIELD_SEPARATOR};

verus! {

/// A column of a table.
#[derive(Debug, PartialEq, Eq)]
pub struct Column {
    /// The title that the header gives the column.
    pub title: String,
    /// Whether every row holds an unsigned integer in this column.
    pub numeric: bool,
}

/// What a column stands for.
pub struct ColumnView {
    pub title: Seq<char>,
    pub numeric: bool,
}

/// A row of a table: a coordinate and one value for each column.
#[derive(Debug, PartialEq, Eq)]
pub struct Feature {
    /// The longitude, as a decimal floating-point literal.
    pub longitude: String,
    /// The latitude, as a decimal floating-point literal.
    pub latitude: String,
    /// The values of the row, in the order of the columns.
    pub attributes: Vec<String>,
}

/// What a feature stands for.
pub struct FeatureView {
    pub longitude: Seq<char>,
    pub latitude: Seq<char>,
    pub attributes: Seq<Seq<char>>,
}

/// The columns and the rows of one layer.
#[derive(Debug, PartialEq, Eq)]
pub struct Table {
    columns: Vec<Column>,
    rows: Vec<Feature>,
}

/// What a table stands for.
pub struct TableView {
    pub columns: Seq<ColumnView>,
    pub rows: Seq<FeatureView>,
}

impl View for Column {
    type V = ColumnView;

    open spec fn view(&self) -> ColumnView {
        ColumnView { title: self.title@, numeric: self.numeric }
    }
}

impl DeepView for Column {
    type V = ColumnView;

    open spec fn deep_view(&self) -> ColumnView {
        self@
    }
}

impl View for Feature {
    type V = FeatureView;

    open spec fn view(&self) -> FeatureView {
        FeatureView {
            longitude: self.longitude@,
            latitude: self.latitude@,
            attributes: self.attributes.deep_view(),
        }
    }
}

impl DeepView for Feature {
    type V = FeatureView;

    open spec fn deep_view(&self) -> FeatureView {
        self@
    }
}

impl View for Table {
    type V = TableView;

    closed spec fn view(&self) -> TableView {
        TableView { columns: self.columns.deep_view(), rows: self.rows.deep_view() }
    }
}

impl DeepView for Table {
    type V = TableView;

    open spec fn deep_view(&self) -> TableView {
        self@
    }
}

impl FeatureView {
    /// Whether the feature fits a table of `columns` columns: it has one
    /// value for each column, and its coordinate is written as two decimal
    /// floating-point literals.
    pub open spec fn fits(self, columns: nat) -> bool {
        &&& self.attributes.len() == columns
        &&& is_float_text(self.longitude)
        &&& is_float_text(self.latitude)
    }
}

impl TableView {
    /// Whether every row fits the columns of the table.
    pub open spec fn well_formed(self) -> bool {
        forall|row: int| 0 <= row < self.rows.len() ==> (#[trigger] self.rows[row]).fits(self.columns.len())
    }
}

/// The records of `text`: the fields of each of its lines.
pub open spec fn records_of(text: Seq<char>) -> Seq<Seq<Seq<char>>> {
    lines_of(text).map_values(|line: Seq<char>| fields_of(line))
}

/// Whether the record `row` has a value in the column `column` and that
/// value is an unsigned integer.
pub open spec fn numeric_at(records: Seq<Seq<Seq<char>>>, row: int, column: int) -> bool {
    column + 2 < records[row].len() && unsigned_of(records[row][column + 2]) is Some
}

/// Whether the column `column` is numeric: every record after the header
/// holds an unsigned integer in it.
pub open spec fn column_is_numeric(records: Seq<Seq<Seq<char>>>, column: int) -> bool {
    forall|row: int| 1 <= row < records.len() ==> #[trigger] numeric_at(records, row, column)
}

/// Whether each of the records `1..n` holds an unsigned integer in the
/// column `column`.
pub open spec fn numeric_before(records: Seq<Seq<Seq<char>>>, n: int, column: int) -> bool
    decreases n,
{
    n <= 1 || (numeric_before(records, n - 1, column) && numeric_at(records, n - 1, column))
}

/// The number of columns under a header of `fields` fields.
pub open spec fn column_count(fields: nat) -> nat {
    if fields >= 2 {
        (fields - 2) as nat
    } else {
        0
    }
}

/// The columns that `records` describe: one for each field of the header
/// after the first two, with that field as its title.
pub open spec fn columns_in(records: Seq<Seq<Seq<char>>>) -> Seq<ColumnView> {
    if records.len() == 0 {
        Seq::empty()
    } else {
        Seq::new(
            column_count(records[0].len()),
            |column: int|
                ColumnView {
                    title: records[0][column + 2],
                    numeric: column_is_numeric(records, column),
                },
        )
    }
}

/// What is wrong with the record `fields`, which stands on line `line`
/// under a header of `header` fields; `None` if it is a row.
pub open spec fn row_error(header: nat, fields: Seq<Seq<char>>, line: int) -> Option<ParseError> {
    if fields.len() != header {
        Some(ParseError::FieldCount { line: line as usize })
    } else if fields.len() < 2 || !is_float_text(fields[0]) || !is_float_text(fields[1]) {
        Some(ParseError::Coordinate { line: line as usize })
    } else {
        None
    }
}

/// What is wrong with the first of the records `1..n` that is no row;
/// `None` if all of them are rows.
pub open spec fn error_before(records: Seq<Seq<Seq<char>>>, n: int) -> Option<ParseError>
    decreases n,
{
    if n <= 1 {
        None
    } else if error_before(records, n - 1) is Some {
        error_before(records, n - 1)
    } else {
        row_error(records[0].len(), records[n - 1], n - 1)
    }
}

/// Why `records` are no table; `None` if they are one. A table has a
/// header and at least one row.
pub open spec fn error_in(records: Seq<Seq<Seq<char>>>) -> Option<ParseError> {
    if records.len() < 2 {
        Some(ParseError::TooFewLines)
    } else {
        error_before(records, records.len() as int)
    }
}

/// The error of the first of the records `1..n` that has more or fewer
/// fields than the header; `None` if all of them are as wide as it.
pub open spec fn shape_error_before(records: Seq<Seq<Seq<char>>>, n: int) -> Option<ParseError>
    decreases n,
{
    if n <= 1 {
        None
    } else if shape_error_before(records, n - 1) is Some {
        shape_error_before(records, n - 1)
    } else if records[n - 1].len() != records[0].len() {
        Some(ParseError::FieldCount { line: (n - 1) as usize })
    } else {
        None
    }
}

/// Why `records` have no columns to speak of: there is no header or no
/// record after it, or a record is not as wide as the header. `None` if
/// they have the shape of a table. What the coordinate fields hold does
/// not count here.
pub open spec fn shape_error_in(records: Seq<Seq<Seq<char>>>) -> Option<ParseError> {
    if records.len() < 2 {
        Some(ParseError::TooFewLines)
    } else {
        shape_error_before(records, records.len() as int)
    }
}

/// The feature that the record `fields` describes.
pub open spec fn feature_of(fields: Seq<Seq<char>>) -> FeatureView {
    FeatureView { longitude: fields[0], latitude: fields[1], attributes: fields.skip(2) }
}

/// The features that `records` describe: one for each record after the
/// header, in order.
pub open spec fn rows_in(records: Seq<Seq<Seq<char>>>) -> Seq<FeatureView> {
    Seq::new((records.len() - 1) as nat, |row: int| feature_of(records[row + 1]))
}

/// The columns of the table that `text` holds.
pub open spec fn columns_of(text: Seq<char>) -> Seq<ColumnView> {
    columns_in(records_of(text))
}

/// The rows of the table that `text` holds.
pub open spec fn rows_of(text: Seq<char>) -> Seq<FeatureView> {
    rows_in(records_of(text))
}

/// Why `text` holds no table; `None` if it holds one.
pub open spec fn parse_error_of(text: Seq<char>) -> Option<ParseError> {
    error_in(records_of(text))
}

/// Why `text` has not the shape of a table: it has fewer than two lines,
/// or a line after the first has more or fewer fields than the first.
/// `None` if it has the shape.
pub open spec fn shape_error_of(text: Seq<char>) -> Option<ParseError> {
    shape_error_in(records_of(text))
}

/// The table that `text` holds.
pub open spec fn table_of(text: Seq<char>) -> TableView {
    TableView { columns: columns_of(text), rows: rows_of(text) }
}

/// Each of the records `1..n` holds an unsigned integer in a column
/// exactly if every one of them does.
pub proof fn lemma_numeric_before(records: Seq<Seq<Seq<char>>>, n: int, column: int)
    ensures
        numeric_before(records, n, column) <==> forall|row: int|
            1 <= row < n ==> #[trigger] numeric_at(records, row, column),
        n == records.len() ==> numeric_before(records, n, column) == column_is_numeric(
            records,
            column,
        ),
    decreases n,
{
    if n > 1 {
        lemma_numeric_before(records, n - 1, column);
        if !numeric_before(records, n - 1, column) {
            let row = choose|row: int| 1 <= row < n - 1 && !numeric_at(records, row, column);
            assert(!numeric_at(records, row, column));
        }
    }
}

/// Where no record before `n` is in error, each of them is a row.
pub proof fn lemma_error_before(records: Seq<Seq<Seq<char>>>, n: int, row: int)
    requires
        error_before(records, n) is None,
        1 <= row < n,
    ensures
        row_error(records[0].len(), records[row], row) is None,
    decreases n,
{
    if row < n - 1 {
        lemma_error_before(records, n - 1, row);
    }
}

/// Where no record before `n` is wider or narrower than the header, each
/// of them is as wide as it.
pub proof fn lemma_shape_error_before(records: Seq<Seq<Seq<char>>>, n: int, row: int)
    requires
        shape_error_before(records, n) is None,
        1 <= row < n,
    ensures
        records[row].len() == records[0].len(),
    decreases n,
{
    if row < n - 1 {
        lemma_shape_error_before(records, n - 1, row);
    }
}

/// A text that holds a table has the shape of one: whatever is wrong with
/// the shape of a text makes it no table.
pub proof fn lemma_table_has_shape(text: Seq<char>)
    requires
        parse_error_of(text) is None,
    ensures
        shape_error_of(text) is None,
{
    let records = records_of(text);
    lemma_rows_have_shape(records, records.len() as int);
}

/// Where each of the records `1..n` is a row, each is as wide as the
/// header.
proof fn lemma_rows_have_shape(records: Seq<Seq<Seq<char>>>, n: int)
    requires
        error_before(records, n) is None,
    ensures
        shape_error_before(records, n) is None,
    decreases n,
{
    if n > 1 {
        lemma_rows_have_shape(records, n - 1);
    }
}

/// The table of a text that holds one is well formed.
pub proof fn lemma_table_of_well_formed(text: Seq<char>)
    requires
        parse_error_of(text) is None,
    ensures
        table_of(text).well_formed(),
{
    let records = records_of(text);
    let table = table_of(text);
    assert forall|row: int| 0 <= row < table.rows.len() implies (#[trigger] table.rows[row]).fits(
        table.columns.len(),
    ) by {
        lemma_error_before(records, records.len() as int, row + 1);
    }
}

impl Clone for Column {
    fn clone(&self) -> (copy: Self)
        ensures
            copy@ == self@,
    {
        Column { title: self.title.clone(), numeric: self.numeric }
    }
}

/// Copies of `texts`.
pub(crate) fn clone_texts(texts: &Vec<String>) -> (copy: Vec<String>)
    ensures
        copy.deep_view() == texts.deep_view(),
{
    let mut copy: Vec<String> = Vec::new();
    let mut i: usize = 0;
    while i < texts.len()
        invariant
            i <= texts.len(),
            copy.deep_view() == texts.deep_view().take(i as int),
        decreases texts.len() - i,
    {
        let ghost done = copy.deep_view();
        copy.push(texts[i].clone());
        assert(copy.deep_view() =~= done.push(texts[i as int]@));
        assert(texts.deep_view().take(i + 1) =~= done.push(texts[i as int]@));
        i += 1;
    }
    assert(texts.deep_view().take(i as int) == texts.deep_view());
    copy
}

impl Clone for Feature {
    fn clone(&self) -> (copy: Self)
        ensures
            copy@ == self@,
    {
        Feature {
            longitude: self.longitude.clone(),
            latitude: self.latitude.clone(),
            attributes: clone_texts(&self.attributes),
        }
    }
}

/// Copies of `columns`.
pub(crate) fn clone_columns(columns: &Vec<Column>) -> (copy: Vec<Column>)
    ensures
        copy.deep_view() == columns.deep_view(),
{
    let mut copy: Vec<Column> = Vec::new();
    let mut i: usize = 0;
    while i < columns.len()
        invariant
            i <= columns.len(),
            copy.deep_view() == columns.deep_view().take(i as int),
        decreases columns.len() - i,
    {
        let ghost done = copy.deep_view();
        copy.push(columns[i].clone());
        assert(copy.deep_view() =~= done.push(columns[i as int]@));
        assert(columns.deep_view().take(i + 1) =~= done.push(columns[i as int]@));
        i += 1;
    }
    assert(columns.deep_view().take(i as int) == columns.deep_view());
    copy
}

/// Copies of `features`.
pub(crate) fn clone_features(features: &Vec<Feature>) -> (copy: Vec<Feature>)
    ensures
        copy.deep_view() == features.deep_view(),
{
    let mut copy: Vec<Feature> = Vec::new();
    let mut i: usize = 0;
    while i < features.len()
        invariant
            i <= features.len(),
            copy.deep_view() == features.deep_view().take(i as int),
        decreases features.len() - i,
    {
        let ghost done = copy.deep_view();
        copy.push(features[i].clone());
        assert(copy.deep_view() =~= done.push(features[i as int]@));
        assert(features.deep_view().take(i + 1) =~= done.push(features[i as int]@));
        i += 1;
    }
    assert(features.deep_view().take(i as int) == features.deep_view());
    copy
}

impl Table {
    /// Every row of a table fits its columns.
    #[verifier::type_invariant]
    spec fn fitting(self) -> bool {
        self@.well_formed()
    }

    /// The table of the columns `columns` and the rows `rows`, if every
    /// row fits the columns.
    pub fn new(columns: Vec<Column>, rows: Vec<Feature>) -> (table: Option<Table>)
        ensures
            table is Some <==> (TableView {
                columns: columns.deep_view(),
                rows: rows.deep_view(),
            }).well_formed(),
            table matches Some(t) ==> t@.columns == columns.deep_view() && t@.rows
                == rows.deep_view(),
    {
        let ghost model = TableView { columns: columns.deep_view(), rows: rows.deep_view() };
        let mut i: usize = 0;
        while i < rows.len()
            invariant
                i <= rows.len(),
                model == (TableView { columns: columns.deep_view(), rows: rows.deep_view() }),
                forall|row: int| 0 <= row < i ==> (#[trigger] model.rows[row]).fits(model.columns.len()),
            decreases rows.len() - i,
        {
            let row = &rows[i];
            assert(model.rows[i as int] == row@);
            let longitude = chars_of(row.longitude.as_str());
            let latitude = chars_of(row.latitude.as_str());
            if row.attributes.len() != columns.len() || !float_chars(&longitude) || !float_chars(
                &latitude,
            ) {
                return None;
            }
            i += 1;
        }
        Some(Table { columns, rows })
    }

    /// The columns of the table.
    pub fn columns(&self) -> (columns: &Vec<Column>)
        ensures
            columns.deep_view() == self@.columns,
    {
        &self.columns
    }

    /// The rows of the table.
    pub fn rows(&self) -> (rows: &Vec<Feature>)
        ensures
            rows.deep_view() == self@.rows,
            self@.well_formed(),
    {
        proof {
            use_type_invariant(self);
        }
        &self.rows
    }
}

impl Clone for Table {
    fn clone(&self) -> (copy: Self)
        ensures
            copy@ == self@,
    {
        proof {
            use_type_invariant(self);
        }
        Table { columns: clone_columns(&self.columns), rows: clone_features(&self.rows) }
    }
}

/// Cuts `text` into its records.
pub fn records(text: &str) -> (out: Vec<Vec<Vec<char>>>)
    ensures
        out.deep_view() == records_of(text@),
{
    let chars = chars_of(text);
    let lines = split_lines(&chars);
    let mut out: Vec<Vec<Vec<char>>> = Vec::new();
    let mut i: usize = 0;
    while i < lines.len()
        invariant
            i <= lines.len(),
            out.deep_view() == lines.deep_view().take(i as int).map_values(
                |line: Seq<char>| fields_of(line),
            ),
        decreases lines.len() - i,
    {
        let ghost done = out.deep_view();
        let ghost cut = fields_of(lines[i as int]@);
        out.push(split(&lines[i], FIELD_SEPARATOR));
        assert(lines.deep_view()[i as int] =~= lines[i as int]@);
        assert(out.deep_view() =~~= done.push(cut));
        assert(lines.deep_view().take(i + 1).map_values(|line: Seq<char>| fields_of(line))
            =~= done.push(cut));
        i += 1;
    }
    assert(lines.deep_view().take(i as int) == lines.deep_view());
    out
}

/// The columns that `records` describe.
fn columns_from(records: &Vec<Vec<Vec<char>>>) -> (columns: Vec<Column>)
    ensures
        columns.deep_view() == columns_in(records.deep_view()),
{
    let ghost model = records.deep_view();
    let mut columns: Vec<Column> = Vec::new();
    if records.len() == 0 {
        assert(columns.deep_view() =~= columns_in(model));
        return columns;
    }
    let header = &records[0];
    assert(model[0] =~~= header.deep_view());
    let count: usize = if header.len() >= 2 {
        header.len() - 2
    } else {
        0
    };
    let mut numeric: Vec<bool> = Vec::new();
    let mut column: usize = 0;
    while column < count
        invariant
            column <= count,
            numeric.len() == column,
            forall|c: int| 0 <= c < column ==> numeric@[c],
        decreases count - column,
    {
        numeric.push(true);
        column += 1;
    }
    let mut row: usize = 1;
    while row < records.len()
        invariant
            1 <= row <= records.len(),
            model == records.deep_view(),
            numeric.len() == count,
            count <= usize::MAX - 2,
            forall|c: int| 0 <= c < count ==> numeric@[c] == numeric_before(model, row as int, c),
        decreases records.len() - row,
    {
        let fields = &records[row];
        assert(model[row as int] =~~= fields.deep_view());
        let mut column: usize = 0;
        while column < count
            invariant
                column <= count,
                1 <= row < records.len(),
                model == records.deep_view(),
                model[row as int] == fields.deep_view(),
                numeric.len() == count,
                count <= usize::MAX - 2,
                forall|c: int|
                    0 <= c < column ==> numeric@[c] == numeric_before(model, row + 1, c),
                forall|c: int|
                    column <= c < count ==> numeric@[c] == numeric_before(model, row as int, c),
            decreases count - column,
        {
            if numeric[column] {
                let holds = column + 2 < fields.len() && unsigned_chars(
                    &fields[column + 2],
                ).is_some();
                assert(holds == numeric_at(model, row as int, column as int)) by {
                    if column + 2 < fields.len() {
                        assert(fields.deep_view()[column + 2] =~= fields[column + 2]@);
                    }
                }
                numeric.set(column, holds);
            }
            column += 1;
        }
        row += 1;
    }
    let mut column: usize = 0;
    while column < count
        invariant
            column <= count,
            count == column_count(header.len() as nat),
            count <= usize::MAX - 2,
            records.len() > 0,
            model == records.deep_view(),
            model[0] == header.deep_view(),
            numeric.len() == count,
            forall|c: int|
                0 <= c < count ==> numeric@[c] == numeric_before(model, records.len() as int, c),
            columns.deep_view() == columns_in(model).take(column as int),
        decreases count - column,
    {
        let ghost done = columns.deep_view();
        let title = string_of(&header[column + 2]);
        assert(header.deep_view()[column + 2] =~= header[column + 2]@);
        proof {
            lemma_numeric_before(model, records.len() as int, column as int);
        }
        columns.push(Column { title, numeric: numeric[column] });
        assert(columns.deep_view() =~= done.push(columns_in(model)[column as int]));
        assert(columns_in(model).take(column + 1) =~= done.push(columns_in(model)[column as int]));
        column += 1;
    }
    assert(columns_in(model).take(column as int) == columns_in(model));
    columns
}

/// The feature that the record `fields` describes.
fn feature_from(fields: &Vec<Vec<char>>) -> (feature: Feature)
    requires
        fields.len() >= 2,
    ensures
        feature@ == feature_of(fields.deep_view()),
{
    let ghost model = fields.deep_view();
    let mut attributes: Vec<String> = Vec::new();
    let mut i: usize = 2;
    while i < fields.len()
        invariant
            2 <= i <= fields.len(),
            model == fields.deep_view(),
            attributes.deep_view() == model.subrange(2, i as int),
        decreases fields.len() - i,
    {
        let ghost done = attributes.deep_view();
        attributes.push(string_of(&fields[i]));
        assert(model[i as int] =~= fields[i as int]@);
        assert(attributes.deep_view() =~= done.push(model[i as int]));
        assert(model.subrange(2, i + 1) =~= done.push(model[i as int]));
        i += 1;
    }
    assert(model.subrange(2, i as int) == model.skip(2));
    assert(model[0] =~= fields[0]@ && model[1] =~= fields[1]@);
    Feature { longitude: string_of(&fields[0]), latitude: string_of(&fields[1]), attributes }
}

/// The features that `records` describe, or why they are no table.
fn features_from(records: &Vec<Vec<Vec<char>>>) -> (result: Result<Vec<Feature>, ParseError>)
    ensures
        result is Err <==> error_in(records.deep_view()) is Some,
        result matches Err(e) ==> error_in(records.deep_view()) == Some(e),
        result matches Ok(rows) ==> rows.deep_view() == rows_in(records.deep_view()),
{
    let ghost model = records.deep_view();
    if records.len() < 2 {
        return Err(ParseError::TooFewLines);
    }
    let header = records[0].len();
    assert(model[0].len() == header);
    let mut rows: Vec<Feature> = Vec::new();
    let mut line: usize = 1;
    while line < records.len()
        invariant
            1 <= line <= records.len(),
            model == records.deep_view(),
            model[0].len() == header,
            error_before(model, line as int) is None,
            rows.deep_view() == rows_in(model).take(line - 1),
        decreases records.len() - line,
    {
        let fields = &records[line];
        assert(model[line as int] =~~= fields.deep_view());
        assert(fields.len() >= 2 ==> fields.deep_view()[0] =~= fields[0]@ && fields.deep_view()[1]
            =~= fields[1]@);
        if fields.len() != header {
            proof {
                lemma_error_found(model, line as int);
            }
            return Err(ParseError::FieldCount { line });
        }
        if fields.len() < 2 || !float_chars(&fields[0]) || !float_chars(&fields[1]) {
            proof {
                lemma_error_found(model, line as int);
            }
            return Err(ParseError::Coordinate { line });
        }
        let ghost done = rows.deep_view();
        rows.push(feature_from(fields));
        assert(rows.deep_view() =~= done.push(rows_in(model)[line - 1]));
        assert(rows_in(model).take(line as int) =~= done.push(rows_in(model)[line - 1]));
        line += 1;
    }
    assert(rows_in(model).take(line - 1) == rows_in(model));
    Ok(rows)
}

/// The error of the first record that is no row is the error of the
/// records as a whole.
proof fn lemma_error_found(records: Seq<Seq<Seq<char>>>, line: int)
    requires
        1 <= line < records.len(),
        error_before(records, line) is None,
        row_error(records[0].len(), records[line], line) is Some,
    ensures
        error_in(records) == row_error(records[0].len(), records[line], line),
{
    lemma_error_kept(records, line + 1, records.len() as int);
}

/// An error among the records before `n` is the error among the records
/// before any later `m`.
proof fn lemma_error_kept(records: Seq<Seq<Seq<char>>>, n: int, m: int)
    requires
        n <= m,
        error_before(records, n) is Some,
    ensures
        error_before(records, m) == error_before(records, n),
    decreases m - n,
{
    if n < m {
        lemma_error_kept(records, n, m - 1);
    }
}

/// An error among the records before `n` is the error among the records
/// before any later `m`.
proof fn lemma_shape_error_kept(records: Seq<Seq<Seq<char>>>, n: int, m: int)
    requires
        n <= m,
        shape_error_before(records, n) is Some,
    ensures
        shape_error_before(records, m) == shape_error_before(records, n),
    decreases m - n,
{
    if n < m {
        lemma_shape_error_kept(records, n, m - 1);
    }
}

/// What is wrong with the shape of `records`, if anything.
fn shape_error(records: &Vec<Vec<Vec<char>>>) -> (error: Option<ParseError>)
    ensures
        error == shape_error_in(records.deep_view()),
{
    let ghost model = records.deep_view();
    if records.len() < 2 {
        return Some(ParseError::TooFewLines);
    }
    let header = records[0].len();
    assert(model[0].len() == header);
    let mut line: usize = 1;
    while line < records.len()
        invariant
            1 <= line <= records.len(),
            model == records.deep_view(),
            model[0].len() == header,
            shape_error_before(model, line as int) is None,
        decreases records.len() - line,
    {
        assert(model[line as int].len() == records[line as int].len());
        if records[line].len() != header {
            proof {
                lemma_shape_error_kept(model, line + 1, records.len() as int);
            }
            return Some(ParseError::FieldCount { line });
        }
        line += 1;
    }
    None
}

/// Reads the columns of the table that `text` holds: one for each field
/// of its first line after the first two, with that field as its title.
/// A column is numeric exactly if every later line holds an unsigned
/// integer in it.
///
/// Fails with `TooFewLines` if the text has no header or no line after
/// it, and with `FieldCount` at the first line that is wider or narrower
/// than the header. The coordinate fields are not read.
pub fn get_columns(text: &String) -> (result: Result<Vec<Column>, ParseError>)
    ensures
        result is Err <==> shape_error_of(text@) is Some,
        result matches Err(e) ==> shape_error_of(text@) == Some(e),
        result matches Ok(columns) ==> {
            let records = records_of(text@);
            &&& columns.deep_view() == columns_of(text@)
            &&& columns.len() == column_count(records[0].len())
            &&& forall|i: int|
                0 <= i < columns.len() ==> (#[trigger] columns[i]).title@ == records[0][i + 2]
            &&& forall|i: int|
                0 <= i < columns.len() ==> ((#[trigger] columns[i]).numeric <==> forall|row: int|
                    1 <= row < records.len() ==> unsigned_of(
                        (#[trigger] records[row])[i + 2],
                    ) is Some)
        },
{
    let cut = records(text.as_str());
    match shape_error(&cut) {
        Some(e) => Err(e),
        None => {
            let columns = columns_from(&cut);
            proof {
                let records = records_of(text@);
                assert(columns.deep_view().len() == columns.len());
                assert forall|i: int| 0 <= i < columns.len() implies (#[trigger] columns[i])@
                    == columns_of(text@)[i] by {
                    assert(columns.deep_view()[i] == columns[i]@);
                }
                assert forall|i: int| 0 <= i < columns.len() implies ((#[trigger] columns[i]).numeric
                    <==> forall|row: int|
                    1 <= row < records.len() ==> unsigned_of((#[trigger] records[row])[i + 2])
                        is Some) by {
                    assert(columns[i].numeric == column_is_numeric(records, i));
                    assert(i + 2 < records[0].len());
                    if column_is_numeric(records, i) {
                        assert forall|row: int| 1 <= row < records.len() implies unsigned_of(
                            (#[trigger] records[row])[i + 2],
                        ) is Some by {
                            assert(numeric_at(records, row, i));
                        }
                    } else {
                        let row = choose|row: int|
                            1 <= row < records.len() && !numeric_at(records, row, i);
                        lemma_shape_error_before(records, records.len() as int, row);
                        assert(!(unsigned_of(records[row][i + 2]) is Some));
                    }
                }
            }
            Ok(columns)
        },
    }
}

/// Reads the rows of the table that `text` holds, or says why it holds
/// none.
pub fn get_features(text: &String) -> (result: Result<Vec<Feature>, ParseError>)
    ensures
        result is Err <==> parse_error_of(text@) is Some,
        result matches Err(e) ==> parse_error_of(text@) == Some(e),
        result matches Ok(rows) ==> rows.deep_view() == rows_of(text@),
{
    let cut = records(text.as_str());
    features_from(&cut)
}

/// Reads the table that `text` holds, or says why it holds none.
pub fn parse_table(text: &str) -> (result: Result<Table, ParseError>)
    ensures
        result is Err <==> parse_error_of(text@) is Some,
        result matches Err(e) ==> parse_error_of(text@) == Some(e),
        result matches Ok(table) ==> table@ == table_of(text@),
{
    let cut = records(text);
    match features_from(&cut) {
        Err(e) => Err(e),
        Ok(rows) => {
            let columns = columns_from(&cut);
            proof {
                lemma_table_of_well_formed(text@);
            }
            Ok(Table { columns, rows })
        },
    }
}

} // verus!
