//! Taking the text of a file in as a new layer.

use vstd::prelude::*;
use crate::error::ParseError;
use crate::number::is_digit;
use crate::store::LayerStore;
use crate::table::{
    clone_features, parse_error_of, parse_table, rows_of, table_of, Feature, Table,
};
use crate::text::{file_name, file_name_of};

verus! {

/// What taking a file in yields: the identifier under which the new layer
/// stands in the store, the name under which to show it, and its features.
#[derive(Debug, PartialEq, Eq)]
pub struct IngestOutcome {
    /// The identifier of the layer.
    pub layer_id: String,
    /// The name of the file, without the directories before it.
    pub display_name: String,
    /// The rows of the table, in the order of the file.
    pub features: Vec<Feature>,
}

/// Whether `c` is a digit of base sixteen, with lower-case letters.
pub open spec fn is_hex_digit(c: char) -> bool {
    is_digit(c) || ('a' <= c && c <= 'f')
}

/// Whether `id` has the form of a layer identifier: 32 digits of base
/// sixteen in groups of 8, 4, 4, 4 and 12, with a hyphen between the
/// groups.
pub open spec fn is_layer_id(id: Seq<char>) -> bool {
    &&& id.len() == 36
    &&& forall|i: int|
        0 <= i < 36 ==> if i == 8 || i == 13 || i == 18 || i == 23 {
            id[i] == '-'
        } else {
            is_hex_digit(#[trigger] id[i])
        }
}

/// A new identifier for a layer: `uuid::Uuid::new_v4` draws a random
/// UUID, and `to_string` writes it in the hyphenated lower-case form.
/// Nothing is claimed of which identifier comes out, and two calls may
/// give the same one, however unlikely that is. The call stops the
/// program if the operating system has no random bytes to give.
#[verifier::external_body]
fn fresh_layer_id() -> (id: String)
    ensures
        is_layer_id(id@),
{
    uuid::Uuid::new_v4().to_string()
}

/// Puts `table` into `store` as a new layer and names the identifier
/// that the layer got. The identifier is drawn at random; should the
/// store hold a layer under it already, the new layer takes its place.
pub fn add_layer(store: &mut LayerStore, table: Table) -> (layer_id: String)
    ensures
        is_layer_id(layer_id@),
        final(store)@ == old(store)@.insert(layer_id@, table@),
{
    let layer_id = fresh_layer_id();
    store.put(layer_id.clone(), table);
    layer_id
}

/// Puts `table`, read from the file of the path `path`, into `store`
/// under `layer_id`, and says what taking the file in has yielded.
fn store_table(store: &mut LayerStore, layer_id: String, path: &str, table: Table) -> (outcome:
    IngestOutcome)
    ensures
        outcome.layer_id@ == layer_id@,
        outcome.display_name@ == file_name_of(path@),
        outcome.features.deep_view() == table@.rows,
        final(store)@ == old(store)@.insert(layer_id@, table@),
{
    let features = clone_features(table.rows());
    store.put(layer_id.clone(), table);
    IngestOutcome { layer_id, display_name: file_name(path), features }
}

/// Reads the table that `text` holds and puts it into `store` under
/// `layer_id`. `path` is the path of the file that the text is from; its
/// last component becomes the display name. A text that holds no table
/// leaves the store as it is.
pub fn ingest_as(store: &mut LayerStore, layer_id: String, path: &str, text: &str) -> (result:
    Result<IngestOutcome, ParseError>)
    ensures
        result is Err <==> parse_error_of(text@) is Some,
        result matches Err(e) ==> parse_error_of(text@) == Some(e) && final(store)@ == old(
            store,
        )@,
        result matches Ok(outcome) ==> {
            &&& outcome.layer_id@ == layer_id@
            &&& outcome.display_name@ == file_name_of(path@)
            &&& outcome.features.deep_view() == rows_of(text@)
            &&& final(store)@ == old(store)@.insert(layer_id@, table_of(text@))
        },
{
    match parse_table(text) {
        Err(e) => Err(e),
        Ok(table) => Ok(store_table(store, layer_id, path, table)),
    }
}

/// Reads the table that `text` holds and puts it into `store` under a
/// new identifier, which the outcome names. `path` is the path of the
/// file that the text is from. A text that holds no table leaves the
/// store as it is.
pub fn ingest(store: &mut LayerStore, path: &str, text: &str) -> (result: Result<
    IngestOutcome,
    ParseError,
>)
    ensures
        result is Err <==> parse_error_of(text@) is Some,
        result matches Err(e) ==> parse_error_of(text@) == Some(e) && final(store)@ == old(
            store,
        )@,
        result matches Ok(outcome) ==> {
            &&& is_layer_id(outcome.layer_id@)
            &&& outcome.display_name@ == file_name_of(path@)
            &&& outcome.features.deep_view() == rows_of(text@)
            &&& final(store)@ == old(store)@.insert(outcome.layer_id@, table_of(text@))
        },
{
    match parse_table(text) {
        Err(e) => Err(e),
        Ok(table) => Ok(store_table(store, fresh_layer_id(), path, table)),
    }
}

} // verus!
