//! Queries on the tables of a store: the attributes of a layer, sorted by
//! a column, and the fields of one feature.

use vstd::prelude::*;
use crate::error::QueryError;
use crate::mirror::{is_mirror, lemma_descending_mirrors_ascending, lemma_mirror, mirror};
use crate::number::{unsigned_chars, unsigned_of};
use crate::order::{
    is_stable_order, lemma_stable_order_unique, stable_order, text_rank, KeyView, Rank, SortKey,
};
use crate::store::LayerStore;
use crate::table::{
    clone_texts, numeric_at, parse_error_of, records_of, table_of, Column, Feature, Table,
    TableView,
};
use crate::text::chars_of;

verus! {

/// The direction of a sort.
#[derive(Debug, Clone, Copy, PartialEq, Eq, Structural)]
pub enum SortDirection {
    /// The smallest key first.
    Ascending,
    /// The greatest key first.
    Descending,
}

impl SortDirection {
    /// Whether the greatest key comes first.
    pub open spec fn descending(self) -> bool {
        self == SortDirection::Descending
    }
}

/// The title of a column beside the value of one feature in that column.
#[derive(Debug, PartialEq, Eq)]
pub struct Field {
    /// The title of the column.
    pub name: String,
    /// The value of the feature.
    pub value: String,
}

/// What a field stands for.
pub struct FieldView {
    pub name: Seq<char>,
    pub value: Seq<char>,
}

impl View for Field {
    type V = FieldView;

    open spec fn view(&self) -> FieldView {
        FieldView { name: self.name@, value: self.value@ }
    }
}

impl DeepView for Field {
    type V = FieldView;

    open spec fn deep_view(&self) -> FieldView {
        self@
    }
}

/// The direction that `text` names: `asc` the ascending one, `desc` the
/// descending one, any other text none.
pub open spec fn direction_of(text: Seq<char>) -> Option<SortDirection> {
    if text == seq!['a', 's', 'c'] {
        Some(SortDirection::Ascending)
    } else if text == seq!['d', 'e', 's', 'c'] {
        Some(SortDirection::Descending)
    } else {
        None
    }
}

/// The key by which a row with the value `value` is sorted: in a numeric
/// column the number that the value denotes, which a value that denotes
/// none does not have; in another column the value itself.
pub open spec fn key_of(value: Seq<char>, numeric: bool) -> Option<KeyView> {
    if numeric {
        match unsigned_of(value) {
            Some(n) => Some(KeyView::Number(n)),
            None => None,
        }
    } else {
        Some(KeyView::Text(value))
    }
}

/// The key of the row `row` of `table` under the column `column`.
pub open spec fn key_at(table: TableView, column: int, row: int) -> Option<KeyView> {
    key_of(table.rows[row].attributes[column], table.columns[column].numeric)
}

/// Whether each row of `table` has a key under the column `column`.
pub open spec fn sortable(table: TableView, column: int) -> bool {
    forall|row: int| 0 <= row < table.rows.len() ==> (#[trigger] key_at(table, column, row)) is Some
}

/// The keys of the rows of `table` under the column `column`.
pub open spec fn keys_of(table: TableView, column: int) -> Seq<KeyView> {
    Seq::new(table.rows.len(), |row: int| key_at(table, column, row)->0)
}

/// The titles of the columns of `table`.
pub open spec fn titles_of(table: TableView) -> Seq<Seq<char>> {
    Seq::new(table.columns.len(), |column: int| table.columns[column].title)
}

/// The attributes of the rows of `table` at the positions `order`.
pub open spec fn attributes_in(table: TableView, order: Seq<usize>) -> Seq<Seq<Seq<char>>> {
    Seq::new(order.len(), |i: int| table.rows[order[i] as int].attributes)
}

/// The matrix of `table` with its rows in the order `order`: the titles
/// of the columns, and then the attributes of each row. It holds no
/// coordinate.
pub open spec fn matrix_in(table: TableView, order: Seq<usize>) -> Seq<Seq<Seq<char>>> {
    seq![titles_of(table)] + attributes_in(table, order)
}

/// Whether `matrix` is the matrix of `table` sorted by the column
/// `column` in the direction `direction`: its rows stand in the stable
/// order of their keys.
pub open spec fn is_sorted_matrix(
    table: TableView,
    column: int,
    direction: SortDirection,
    matrix: Seq<Seq<Seq<char>>>,
) -> bool {
    exists|order: Seq<usize>|
        #![trigger matrix_in(table, order)]
        is_stable_order(keys_of(table, column), direction.descending(), order) && matrix
            == matrix_in(table, order)
}

/// Why `table` has no matrix sorted by the column `column`: there is no
/// such column, or the column is marked numeric and holds a value that is
/// no number. `None` if it has one.
pub open spec fn matrix_error(table: TableView, column: int) -> Option<QueryError> {
    if column >= table.columns.len() {
        Some(QueryError::IndexOutOfRange)
    } else if !sortable(table, column) {
        Some(QueryError::SortError)
    } else {
        None
    }
}

/// Why `table` has no sorted matrix for the column `column` and the
/// direction that `direction` names. Of several reasons the first of
/// these counts: the column is missing, a value of a numeric column is no
/// number, the text names no direction.
pub open spec fn table_error(table: TableView, column: int, direction: Seq<char>) -> Option<
    QueryError,
> {
    if matrix_error(table, column) is Some {
        matrix_error(table, column)
    } else if direction_of(direction) is None {
        Some(QueryError::InvalidArgument)
    } else {
        None
    }
}

/// Why the store `layers` has no sorted matrix for the layer `id`, the
/// column `column` and the direction that `direction` names: the layer is
/// missing, or its table has none.
pub open spec fn attributes_error(
    layers: Map<Seq<char>, TableView>,
    id: Seq<char>,
    column: int,
    direction: Seq<char>,
) -> Option<QueryError> {
    if !layers.contains_key(id) {
        Some(QueryError::NotFound)
    } else {
        table_error(layers[id], column, direction)
    }
}

/// The fields of the row `row` of `table`: for each column its title and
/// the value of the row.
pub open spec fn fields_in(table: TableView, row: int) -> Seq<FieldView> {
    Seq::new(
        table.columns.len(),
        |column: int|
            FieldView {
                name: table.columns[column].title,
                value: table.rows[row].attributes[column],
            },
    )
}

/// A table that was read from text can be sorted by each of its columns:
/// a column is marked numeric only where every row holds a number in it,
/// so no sort of such a table ends in `SortError`.
pub proof fn lemma_read_table_sortable(text: Seq<char>, column: int)
    requires
        parse_error_of(text) is None,
        0 <= column < table_of(text).columns.len(),
    ensures
        sortable(table_of(text), column),
        matrix_error(table_of(text), column) is None,
{
    let records = records_of(text);
    let table = table_of(text);
    assert forall|row: int| 0 <= row < table.rows.len() implies (#[trigger] key_at(
        table,
        column,
        row,
    )) is Some by {
        if table.columns[column].numeric {
            assert(numeric_at(records, row + 1, column));
        }
    }
}

/// A table has one sorted matrix only for each column and direction:
/// sorting it twice gives the same matrix twice.
pub proof fn lemma_sorted_matrix_unique(
    table: TableView,
    column: int,
    direction: SortDirection,
    a: Seq<Seq<Seq<char>>>,
    b: Seq<Seq<Seq<char>>>,
)
    requires
        is_sorted_matrix(table, column, direction, a),
        is_sorted_matrix(table, column, direction, b),
    ensures
        a == b,
{
    let keys = keys_of(table, column);
    let first = choose|order: Seq<usize>|
        #![trigger matrix_in(table, order)]
        is_stable_order(keys, direction.descending(), order) && a == matrix_in(table, order);
    let second = choose|order: Seq<usize>|
        #![trigger matrix_in(table, order)]
        is_stable_order(keys, direction.descending(), order) && b == matrix_in(table, order);
    lemma_stable_order_unique(keys, direction.descending(), first, second);
}

/// Whether the rows of `table` that share a key under the column `column`
/// read the same from either end: each row has the attributes of its
/// mirror among the rows with its key. It is so where no two rows share a
/// key, and where the rows that share one are equal.
pub open spec fn ties_mirrored(table: TableView, column: int) -> bool {
    forall|p: int, q: int|
        #![trigger table.rows[p], table.rows[q]]
        0 <= p < table.rows.len() && is_mirror(keys_of(table, column), p, q)
            ==> table.rows[q].attributes == table.rows[p].attributes
}

/// The matrix `matrix` with its rows after the first in reverse order.
pub open spec fn rows_reversed(matrix: Seq<Seq<Seq<char>>>) -> Seq<Seq<Seq<char>>> {
    seq![matrix[0]] + matrix.skip(1).reverse()
}

/// The matrix sorted in descending direction is the matrix sorted in
/// ascending direction with its rows in reverse order, the titles staying
/// first, exactly if the rows that share a key read the same from either
/// end. Both directions keep such rows in the order of the table, so a
/// table in which they differ has two matrices that are no reverse of
/// each other.
pub proof fn lemma_descending_reverses_ascending(
    table: TableView,
    column: int,
    ascending: Seq<Seq<Seq<char>>>,
    descending: Seq<Seq<Seq<char>>>,
)
    requires
        table.rows.len() <= usize::MAX,
        is_sorted_matrix(table, column, SortDirection::Ascending, ascending),
        is_sorted_matrix(table, column, SortDirection::Descending, descending),
    ensures
        descending == rows_reversed(ascending) <==> ties_mirrored(table, column),
{
    let keys = keys_of(table, column);
    let n = table.rows.len() as int;
    let up = choose|order: Seq<usize>|
        #![trigger matrix_in(table, order)]
        is_stable_order(keys, false, order) && ascending == matrix_in(table, order);
    let down = choose|order: Seq<usize>|
        #![trigger matrix_in(table, order)]
        is_stable_order(keys, true, order) && descending == matrix_in(table, order);
    lemma_descending_mirrors_ascending(keys, up, down);
    let reversed = rows_reversed(ascending);
    assert(ascending.skip(1) =~= attributes_in(table, up));
    assert(reversed.len() == n + 1 && descending.len() == n + 1);
    assert(reversed[0] == descending[0]);
    assert forall|i: int| 0 <= i < n implies #[trigger] reversed[i + 1]
        == table.rows[up[n - 1 - i] as int].attributes && #[trigger] descending[i + 1]
        == table.rows[mirror(keys, up[n - 1 - i] as int)].attributes by {
        assert(ascending.skip(1).reverse()[i] == ascending.skip(1)[n - 1 - i]);
        assert(descending[i + 1] == attributes_in(table, down)[i]);
        assert(down[i] == mirror(keys, up[n - 1 - i] as int));
        lemma_mirror(keys, up[n - 1 - i] as int);
    }
    if ties_mirrored(table, column) {
        assert forall|i: int| 0 <= i < n + 1 implies reversed[i] == descending[i] by {
            if i > 0 {
                let p = up[n - i] as int;
                lemma_mirror(keys, p);
                assert(reversed[(i - 1) + 1] == table.rows[p].attributes);
                assert(descending[(i - 1) + 1] == table.rows[mirror(keys, p)].attributes);
                assert(table.rows[mirror(keys, p)].attributes == table.rows[p].attributes);
            }
        }
        assert(descending =~= reversed);
    }
    if descending == reversed {
        assert forall|p: int, q: int|
            #![trigger table.rows[p], table.rows[q]]
            0 <= p < n && is_mirror(keys, p, q) implies table.rows[q].attributes
            == table.rows[p].attributes by {
            lemma_mirror(keys, p);
            assert(up.contains(p as usize));
            let j = choose|j: int| 0 <= j < up.len() && up[j] == p as usize;
            let i = n - 1 - j;
            assert(reversed[i + 1] == table.rows[up[n - 1 - i] as int].attributes);
            assert(descending[i + 1] == table.rows[mirror(keys, up[n - 1 - i] as int)].attributes);
        }
    }
}

/// Where no two rows share a key, the matrix sorted in descending
/// direction is the matrix sorted in ascending direction with its rows in
/// reverse order.
pub proof fn lemma_descending_reverses_ascending_without_ties(
    table: TableView,
    column: int,
    ascending: Seq<Seq<Seq<char>>>,
    descending: Seq<Seq<Seq<char>>>,
)
    requires
        table.rows.len() <= usize::MAX,
        is_sorted_matrix(table, column, SortDirection::Ascending, ascending),
        is_sorted_matrix(table, column, SortDirection::Descending, descending),
        forall|p: int, q: int|
            0 <= p < q < table.rows.len() ==> keys_of(table, column)[p] != keys_of(
                table,
                column,
            )[q],
    ensures
        descending == rows_reversed(ascending),
{
    lemma_descending_reverses_ascending(table, column, ascending, descending);
}

/// The direction that `text` names; `InvalidArgument` if it names none.
pub fn sort_direction(text: &str) -> (result: Result<SortDirection, QueryError>)
    ensures
        result is Ok <==> direction_of(text@) is Some,
        result matches Ok(direction) ==> direction_of(text@) == Some(direction),
        result matches Err(e) ==> e == QueryError::InvalidArgument,
{
    let chars = chars_of(text);
    let ascending = vec!['a', 's', 'c'];
    let descending = vec!['d', 'e', 's', 'c'];
    assert(ascending@ == seq!['a', 's', 'c'] && descending@ == seq!['d', 'e', 's', 'c']);
    match text_rank(&chars, &ascending) {
        Rank::Same => Ok(SortDirection::Ascending),
        _ => match text_rank(&chars, &descending) {
            Rank::Same => Ok(SortDirection::Descending),
            _ => Err(QueryError::InvalidArgument),
        },
    }
}

/// The keys of the rows under the column `column`; `SortError` if a row
/// has none.
fn sort_keys(table: &Table, column: usize) -> (result: Result<Vec<SortKey>, QueryError>)
    requires
        column < table@.columns.len(),
    ensures
        result is Ok <==> sortable(table@, column as int),
        result matches Ok(keys) ==> keys.deep_view() == keys_of(table@, column as int),
        result matches Err(e) ==> e == QueryError::SortError,
{
    let columns = table.columns();
    let rows = table.rows();
    let ghost model = table@;
    assert(columns.deep_view()[column as int] == columns[column as int]@);
    let numeric = columns[column].numeric;
    let mut keys: Vec<SortKey> = Vec::new();
    let mut row: usize = 0;
    while row < rows.len()
        invariant
            row <= rows.len(),
            model == table@,
            model.well_formed(),
            rows.deep_view() == model.rows,
            column < model.columns.len(),
            numeric == model.columns[column as int].numeric,
            forall|r: int| 0 <= r < row ==> (#[trigger] key_at(model, column as int, r)) is Some,
            keys.deep_view() == keys_of(model, column as int).take(row as int),
        decreases rows.len() - row,
    {
        let ghost done = keys.deep_view();
        assert(model.rows[row as int] == rows[row as int]@);
        assert(model.rows[row as int].fits(model.columns.len()));
        let value = &rows[row].attributes[column];
        assert(rows[row as int].attributes.deep_view()[column as int] == value@);
        let chars = chars_of(value.as_str());
        let key = if numeric {
            match unsigned_chars(&chars) {
                Some(n) => SortKey::Number(n),
                None => {
                    assert(key_at(model, column as int, row as int) is None);
                    return Err(QueryError::SortError);
                },
            }
        } else {
            SortKey::Text(chars)
        };
        assert(key@ == key_at(model, column as int, row as int)->0);
        keys.push(key);
        assert(keys.deep_view() =~= done.push(key@));
        assert(keys_of(model, column as int).take(row + 1) =~= done.push(key@));
        row += 1;
    }
    assert(keys_of(model, column as int).take(row as int) == keys_of(model, column as int));
    Ok(keys)
}

/// The titles of `columns`.
fn titles(columns: &Vec<Column>) -> (out: Vec<String>)
    ensures
        out.deep_view() == Seq::new(
            columns.deep_view().len(),
            |column: int| columns.deep_view()[column].title,
        ),
{
    let ghost all = Seq::new(
        columns.deep_view().len(),
        |column: int| columns.deep_view()[column].title,
    );
    let mut out: Vec<String> = Vec::new();
    let mut i: usize = 0;
    while i < columns.len()
        invariant
            i <= columns.len(),
            all == Seq::new(
                columns.deep_view().len(),
                |column: int| columns.deep_view()[column].title,
            ),
            out.deep_view() == all.take(i as int),
        decreases columns.len() - i,
    {
        let ghost done = out.deep_view();
        out.push(columns[i].title.clone());
        assert(out.deep_view() =~= done.push(all[i as int]));
        assert(all.take(i + 1) =~= done.push(all[i as int]));
        i += 1;
    }
    assert(all.take(i as int) == all);
    out
}

/// The matrix of `table` with its rows in the stable order of `keys`.
fn matrix_by(table: &Table, keys: &Vec<SortKey>, direction: SortDirection) -> (matrix: Vec<
    Vec<String>,
>)
    requires
        keys.deep_view().len() == table@.rows.len(),
    ensures
        exists|order: Seq<usize>|
            #![trigger matrix_in(table@, order)]
            is_stable_order(keys.deep_view(), direction.descending(), order) && matrix.deep_view()
                == matrix_in(table@, order),
        matrix.len() == table@.rows.len() + 1,
{
    let columns = table.columns();
    let rows = table.rows();
    let ghost model = table@;
    let descending = match direction {
        SortDirection::Ascending => false,
        SortDirection::Descending => true,
    };
    let order = stable_order(keys, descending);
    let mut matrix: Vec<Vec<String>> = Vec::new();
    matrix.push(titles(columns));
    assert(matrix.deep_view() =~= seq![titles_of(model)]);
    let mut i: usize = 0;
    while i < order.len()
        invariant
            i <= order.len(),
            model == table@,
            rows.deep_view() == model.rows,
            order.len() == rows.len(),
            forall|k: int| 0 <= k < order.len() ==> order@[k] < rows.len(),
            matrix.deep_view() == seq![titles_of(model)] + attributes_in(model, order@).take(
                i as int,
            ),
        decreases order.len() - i,
    {
        let ghost done = matrix.deep_view();
        let ghost next = attributes_in(model, order@)[i as int];
        assert(model.rows[order@[i as int] as int] == rows[order@[i as int] as int]@);
        matrix.push(clone_texts(&rows[order[i]].attributes));
        assert(matrix.deep_view() =~= done.push(next));
        assert(attributes_in(model, order@).take(i + 1) =~= attributes_in(model, order@).take(
            i as int,
        ).push(next));
        assert(seq![titles_of(model)] + attributes_in(model, order@).take(i + 1) =~= done.push(
            next,
        ));
        i += 1;
    }
    assert(attributes_in(model, order@).take(i as int) == attributes_in(model, order@));
    assert(matrix.deep_view() == matrix_in(model, order@));
    matrix
}

/// The matrix of `table`, sorted by the column `sort_col` in the
/// direction `direction`: the titles of the columns, and then the
/// attributes of each row, without its coordinate. The rows stand by
/// ascending or descending key; rows with equal keys stand as in the
/// table. In a numeric column the key of a row is the number that its
/// value denotes, in another column the value as a text.
///
/// Fails with `IndexOutOfRange` if the table has no column `sort_col`,
/// and with `SortError` if that column is marked numeric and holds a
/// value that is no number.
pub fn attribute_matrix(table: &Table, sort_col: usize, direction: SortDirection) -> (result:
    Result<Vec<Vec<String>>, QueryError>)
    ensures
        result is Err <==> matrix_error(table@, sort_col as int) is Some,
        result matches Err(e) ==> matrix_error(table@, sort_col as int) == Some(e),
        result matches Ok(matrix) ==> is_sorted_matrix(
            table@,
            sort_col as int,
            direction,
            matrix.deep_view(),
        ),
        result matches Ok(matrix) ==> matrix.len() == table@.rows.len() + 1,
{
    if sort_col >= table.columns().len() {
        return Err(QueryError::IndexOutOfRange);
    }
    match sort_keys(table, sort_col) {
        Ok(keys) => Ok(matrix_by(table, &keys, direction)),
        Err(e) => Err(e),
    }
}

/// The fields of the feature at `feature_index`: for each column of the
/// table its title beside the value of the feature, in the order of the
/// columns and without the coordinate. Fails with `IndexOutOfRange` if
/// the table has no such row.
pub fn feature_fields(table: &Table, feature_index: usize) -> (result: Result<
    Vec<Field>,
    QueryError,
>)
    ensures
        result is Ok <==> feature_index < table@.rows.len(),
        result matches Ok(fields) ==> fields.deep_view() == fields_in(
            table@,
            feature_index as int,
        ),
        result matches Err(e) ==> e == QueryError::IndexOutOfRange,
{
    let columns = table.columns();
    let rows = table.rows();
    let ghost model = table@;
    if feature_index >= rows.len() {
        return Err(QueryError::IndexOutOfRange);
    }
    let feature: &Feature = &rows[feature_index];
    assert(model.rows[feature_index as int] == feature@);
    assert(model.rows[feature_index as int].fits(model.columns.len()));
    let ghost all = fields_in(model, feature_index as int);
    let mut fields: Vec<Field> = Vec::new();
    let mut i: usize = 0;
    while i < columns.len()
        invariant
            i <= columns.len(),
            columns.deep_view() == model.columns,
            model.rows[feature_index as int] == feature@,
            feature.attributes.len() == columns.len(),
            all == fields_in(model, feature_index as int),
            fields.deep_view() == all.take(i as int),
        decreases columns.len() - i,
    {
        let ghost done = fields.deep_view();
        assert(columns.deep_view()[i as int] == columns[i as int]@);
        assert(feature.attributes.deep_view()[i as int] == feature.attributes[i as int]@);
        fields.push(Field { name: columns[i].title.clone(), value: feature.attributes[i].clone() });
        assert(fields.deep_view() =~= done.push(all[i as int]));
        assert(all.take(i + 1) =~= done.push(all[i as int]));
        i += 1;
    }
    assert(all.take(i as int) == all);
    Ok(fields)
}

/// The sorted matrix of `table`, as [`attribute_matrix`] gives it, for the
/// direction that `sort_dir` names: `asc` or `desc`.
///
/// Fails with `IndexOutOfRange` or `SortError` as `attribute_matrix` does,
/// and with `InvalidArgument` if `sort_dir` names no direction; where two
/// of these hold, with the first of them.
pub fn layer_attributes(table: &Table, sort_col: usize, sort_dir: &str) -> (result: Result<
    Vec<Vec<String>>,
    QueryError,
>)
    ensures
        result is Err <==> table_error(table@, sort_col as int, sort_dir@) is Some,
        result matches Err(e) ==> table_error(table@, sort_col as int, sort_dir@) == Some(e),
        result matches Ok(matrix) ==> is_sorted_matrix(
            table@,
            sort_col as int,
            direction_of(sort_dir@)->0,
            matrix.deep_view(),
        ),
{
    if sort_col >= table.columns().len() {
        return Err(QueryError::IndexOutOfRange);
    }
    let keys = match sort_keys(table, sort_col) {
        Ok(keys) => keys,
        Err(e) => {
            return Err(e);
        },
    };
    match sort_direction(sort_dir) {
        Ok(direction) => Ok(matrix_by(table, &keys, direction)),
        Err(e) => Err(e),
    }
}

/// The sorted matrix of the layer `layer_id` of `store`: see
/// [`attribute_matrix`]. `sort_dir` names the direction, `asc` or `desc`.
///
/// Fails with `NotFound` if the store has no such layer, with
/// `IndexOutOfRange` or `SortError` as `attribute_matrix` does, and with
/// `InvalidArgument` if `sort_dir` names no direction; where several of
/// these hold, with the first of them.
pub fn get_layer_attributes(
    store: &LayerStore,
    layer_id: &str,
    sort_col: usize,
    sort_dir: &str,
) -> (result: Result<Vec<Vec<String>>, QueryError>)
    ensures
        result is Err <==> attributes_error(store@, layer_id@, sort_col as int, sort_dir@)
            is Some,
        result matches Err(e) ==> attributes_error(store@, layer_id@, sort_col as int, sort_dir@)
            == Some(e),
        result matches Ok(matrix) ==> is_sorted_matrix(
            store@[layer_id@],
            sort_col as int,
            direction_of(sort_dir@)->0,
            matrix.deep_view(),
        ),
{
    match store.find(layer_id) {
        Some(table) => layer_attributes(table, sort_col, sort_dir),
        None => Err(QueryError::NotFound),
    }
}

/// The fields of the feature `feature_id` of the layer `layer_id` of
/// `store`: see [`feature_fields`]. Fails with `NotFound` if the store has
/// no such layer, and with `IndexOutOfRange` if the layer has no such
/// feature.
pub fn get_feature_attributes(store: &LayerStore, layer_id: &str, feature_id: usize) -> (result:
    Result<Vec<Field>, QueryError>)
    ensures
        result is Ok <==> store@.contains_key(layer_id@) && feature_id < store@[layer_id@].rows.len(),
        result matches Ok(fields) ==> fields.deep_view() == fields_in(
            store@[layer_id@],
            feature_id as int,
        ),
        result matches Err(e) ==> e == (if store@.contains_key(layer_id@) {
            QueryError::IndexOutOfRange
        } else {
            QueryError::NotFound
        }),
{
    match store.find(layer_id) {
        Some(table) => feature_fields(table, feature_id),
        None => Err(QueryError::NotFound),
    }
}

/// Removes the layer `layer_id` from `store`. A layer that is not there
/// is no error: the store then stays as it is.
pub fn delete_layer(store: &mut LayerStore, layer_id: &str)
    ensures
        final(store)@ == old(store)@.remove(layer_id@),
{
    store.delete(layer_id);
}

} // verus!
