//! Ingestion: a database read from a JSON document. The document is an
//! object that maps a table's name to an array of rows; a row is an object
//! with an unsigned integer under `id`, and every other member of it is a
//! column. A column that holds no scalar is stored as such: the table
//! can be loaded, but not read by a query.
//!
//! The document is parsed and held by `serde_json`. What its functions
//! return is taken on trust, as the contracts of the private functions at
//! the head of this file say; the walk over the document is verified
//! against them.

use crate::database::{with_row, Cell, CellModel, Database, Row, RowModel, Table};
use crate::grammar::{Scalar, ValueModel};
use crate::parser::{Const, Value};
use crate::text::same_text;
use crate::text_map::TextMap;
use serde_json::Map as JsonMap;
use serde_json::Value as JsonValue;
use vstd::prelude::*;

verus! {

/// `serde_json::Value`: a JSON value.
#[verifier::external_type_specification]
#[verifier::external_body]
pub struct ExJsonValue(JsonValue);

/// `serde_json::Map`: the members of a JSON object.
#[verifier::external_type_specification]
#[verifier::external_body]
#[verifier::reject_recursive_types(K)]
#[verifier::reject_recursive_types(V)]
pub struct ExJsonMap<K, V>(JsonMap<K, V>);

/// `serde_json::Error`: why a text is not JSON.
#[verifier::external_type_specification]
#[verifier::external_body]
pub struct ExJsonError(serde_json::Error);

/// A JSON number, as far as the row store reads it: the number as a signed
/// and as an unsigned 64-bit integer, where it is one.
pub struct NumberModel {
    pub signed: Option<i64>,
    pub unsigned: Option<u64>,
}

/// What a JSON value holds. The members of an object stand in the order
/// in which the object is walked.
pub enum JsonModel {
    Null,
    Bool(bool),
    Number(NumberModel),
    Text(Seq<char>),
    Array(Seq<JsonModel>),
    Object(Seq<(Seq<char>, JsonModel)>),
}

/// Why a text is not a database.
#[derive(Debug, Clone, Copy, PartialEq, Eq, Structural)]
pub enum LoadError {
    /// The text is not JSON.
    InvalidJson,
}

/// What a `serde_json::Value` holds.
pub uninterp spec fn json_model(value: JsonValue) -> JsonModel;

/// What a `serde_json::Map` holds: its members, in the order in which it
/// is walked.
pub uninterp spec fn json_members(map: JsonMap<String, JsonValue>) -> Seq<(Seq<char>, JsonModel)>;

/// The JSON value that a text denotes, if it is JSON: what
/// `serde_json::from_str` makes of it.
pub uninterp spec fn json_document(text: Seq<char>) -> Option<JsonModel>;

/// What a list of values holds.
pub open spec fn items_model(items: Seq<JsonValue>) -> Seq<JsonModel> {
    items.map_values(|v: JsonValue| json_model(v))
}

/// What a list of members holds.
pub open spec fn entries_model(entries: Seq<(&String, &JsonValue)>) -> Seq<(Seq<char>, JsonModel)> {
    entries.map_values(|e: (&String, &JsonValue)| (e.0@, json_model(*e.1)))
}

/// The value of the first member that has the key, if there is one.
pub open spec fn member(members: Seq<(Seq<char>, JsonModel)>, key: Seq<char>) -> Option<JsonModel>
    decreases members.len(),
{
    if members.len() == 0 {
        None
    } else if members[0].0 == key {
        Some(members[0].1)
    } else {
        member(members.drop_first(), key)
    }
}

/// Calls `serde_json::from_str` at the type `serde_json::Value`. Taken on
/// trust: the call returns `Ok` on the texts that denote a JSON value, with
/// that value, and `Err` on all others. Which texts these are is left to
/// `serde_json`.
#[verifier::external_body]
fn json_from_str(text: &str) -> (r: Result<JsonValue, serde_json::Error>)
    ensures
        match r {
            Ok(value) => json_document(text@) == Some(json_model(value)),
            Err(_) => json_document(text@) is None,
        },
{
    serde_json::from_str::<JsonValue>(text)
}

/// Calls `serde_json::Value::as_object`. Taken on trust: the call returns
/// the members of an object, and `None` for any other value.
#[verifier::external_body]
fn json_as_object(value: &JsonValue) -> (r: Option<&JsonMap<String, JsonValue>>)
    ensures
        match json_model(*value) {
            JsonModel::Object(members) => r matches Some(map) && json_members(*map) == members,
            _ => r is None,
        },
{
    value.as_object()
}

/// Calls `serde_json::Value::as_array`. Taken on trust: the call returns
/// the items of an array, and `None` for any other value.
#[verifier::external_body]
fn json_as_array(value: &JsonValue) -> (r: Option<&Vec<JsonValue>>)
    ensures
        match json_model(*value) {
            JsonModel::Array(items) => r matches Some(v) && items_model(v@) == items,
            _ => r is None,
        },
{
    value.as_array()
}

/// Calls `serde_json::Value::as_u64`. Taken on trust: the call returns a
/// number as an unsigned 64-bit integer where it is one, and `None` for
/// any other value.
#[verifier::external_body]
fn json_as_u64(value: &JsonValue) -> (r: Option<u64>)
    ensures
        r == match json_model(*value) {
            JsonModel::Number(n) => n.unsigned,
            _ => None,
        },
{
    value.as_u64()
}

/// Calls `serde_json::Value::as_i64`. Taken on trust: the call returns a
/// number as a signed 64-bit integer where it is one, and `None` for any
/// other value.
#[verifier::external_body]
fn json_as_i64(value: &JsonValue) -> (r: Option<i64>)
    ensures
        r == match json_model(*value) {
            JsonModel::Number(n) => n.signed,
            _ => None,
        },
{
    value.as_i64()
}

/// Calls `serde_json::Value::as_str`. Taken on trust: the call returns the
/// text of a string, and `None` for any other value.
#[verifier::external_body]
fn json_as_str(value: &JsonValue) -> (r: Option<&str>)
    ensures
        match json_model(*value) {
            JsonModel::Text(t) => r matches Some(s) && s@ == t,
            _ => r is None,
        },
{
    value.as_str()
}

/// Calls `serde_json::Map::get`. Taken on trust: the call returns the
/// value of the member that has the key, and `None` if no member has it.
#[verifier::external_body]
fn json_map_get<'a>(map: &'a JsonMap<String, JsonValue>, key: &str) -> (r: Option<&'a JsonValue>)
    ensures
        match member(json_members(*map), key@) {
            Some(found) => r matches Some(value) && json_model(*value) == found,
            None => r is None,
        },
{
    map.get(key)
}

/// Calls `serde_json::Map::iter` and collects what it yields. Taken on
/// trust: the call yields the members of the map, each once, in the order
/// in which the map is walked.
#[verifier::external_body]
fn json_map_iter(map: &JsonMap<String, JsonValue>) -> (r: Vec<(&String, &JsonValue)>)
    ensures
        entries_model(r@) == json_members(*map),
{
    map.iter().collect()
}

/// The scalar that a JSON value stands for in a column: an integer that
/// fits in 64 bits, signed, or a text.
pub open spec fn cell_scalar(j: JsonModel) -> Option<Scalar> {
    match j {
        JsonModel::Number(n) => match n.signed {
            Some(i) => Some(Scalar::Integer(i)),
            None => None,
        },
        JsonModel::Text(t) => Some(Scalar::Text(t)),
        _ => None,
    }
}

/// The id of a row: the unsigned integer under the member `id`.
pub open spec fn row_id(members: Seq<(Seq<char>, JsonModel)>) -> Option<u64> {
    match member(members, "id"@) {
        Some(JsonModel::Number(n)) => n.unsigned,
        _ => None,
    }
}

/// What a JSON value is in a column: its scalar, or no scalar.
pub open spec fn cell_model(j: JsonModel) -> CellModel {
    match cell_scalar(j) {
        Some(s) => CellModel::Scalar(s),
        None => CellModel::Other,
    }
}

/// The columns of a row: what every member but `id` is in a column.
pub open spec fn row_columns(members: Seq<(Seq<char>, JsonModel)>) -> Map<Seq<char>, CellModel>
    decreases members.len(),
{
    if members.len() == 0 {
        Map::empty()
    } else if members.last().0 == "id"@ {
        row_columns(members.drop_last())
    } else {
        row_columns(members.drop_last()).insert(members.last().0, cell_model(members.last().1))
    }
}

/// The row that a JSON value stands for. A value that is no object, or
/// has no unsigned integer under `id`, stands for none.
pub open spec fn row_of(j: JsonModel) -> Option<RowModel> {
    match j {
        JsonModel::Object(members) => match row_id(members) {
            None => None,
            Some(id) => Some(RowModel { id: id as u128, columns: row_columns(members) }),
        },
        _ => None,
    }
}

/// The rows of a table: those that the items stand for, each added in
/// its turn.
pub open spec fn rows_of(items: Seq<JsonModel>) -> Seq<RowModel>
    decreases items.len(),
{
    if items.len() == 0 {
        Seq::empty()
    } else {
        match row_of(items.last()) {
            None => rows_of(items.drop_last()),
            Some(row) => with_row(rows_of(items.drop_last()), row),
        }
    }
}

/// The table that a JSON value stands for: the rows of an array; a value
/// that is no array stands for an empty table.
pub open spec fn table_of(j: JsonModel) -> Seq<RowModel> {
    match j {
        JsonModel::Array(items) => rows_of(items),
        _ => Seq::empty(),
    }
}

/// The tables that the members of an object stand for, each inserted in
/// its turn.
pub open spec fn tables_of(members: Seq<(Seq<char>, JsonModel)>) -> Map<Seq<char>, Seq<RowModel>>
    decreases members.len(),
{
    if members.len() == 0 {
        Map::empty()
    } else {
        tables_of(members.drop_last()).insert(members.last().0, table_of(members.last().1))
    }
}

/// The database that a JSON value stands for: the tables of an object; a
/// value that is no object stands for an empty database.
pub open spec fn database_of(j: JsonModel) -> Map<Seq<char>, Seq<RowModel>> {
    match j {
        JsonModel::Object(members) => tables_of(members),
        _ => Map::empty(),
    }
}

impl Value {
    /// Converts a serde JSON value to a `Value`: a number that is a 64-bit
    /// signed integer and a string become constants; nothing else does.
    pub fn from_serde_value(value: &JsonValue) -> (r: Option<Value>)
        ensures
            match cell_scalar(json_model(*value)) {
                Some(s) => r matches Some(v) && v@ == ValueModel::Const(s),
                None => r is None,
            },
    {
        match json_as_i64(value) {
            Some(n) => Some(Value::Const(Const::Number(n))),
            None => match json_as_str(value) {
                Some(s) => Some(Value::Const(Const::String(s.to_owned()))),
                None => None,
            },
        }
    }
}

/// Converts a serde JSON value to what it is in a column of a row.
pub fn cell_from_json(value: &JsonValue) -> (cell: Cell)
    ensures
        cell@ == cell_model(json_model(*value)),
{
    match Value::from_serde_value(value) {
        Some(Value::Const(c)) => Cell::Scalar(c),
        _ => Cell::Other,
    }
}

/// Reads the columns of a row.
fn columns_from_entries(entries: &Vec<(&String, &JsonValue)>) -> (columns: TextMap<Cell>)
    ensures
        columns@ == row_columns(entries_model(entries@)),
{
    let ghost members = entries_model(entries@);
    let mut columns: TextMap<Cell> = TextMap::new();
    let mut i: usize = 0;
    while i < entries.len()
        invariant
            i <= entries.len(),
            members == entries_model(entries@),
            columns@ == row_columns(members.take(i as int)),
        decreases entries.len() - i,
    {
        proof {
            assert(members.take(i + 1).drop_last() =~= members.take(i as int));
            assert(members.take(i + 1).last() == members[i as int]);
        }
        if !same_text(entries[i].0.as_str(), "id") {
            columns.insert(entries[i].0.clone(), cell_from_json(entries[i].1));
        }
        i += 1;
    }
    proof {
        assert(members.take(entries.len() as int) =~= members);
    }
    columns
}

/// Reads a row from a JSON value, if the value stands for one.
pub fn row_from_json(value: &JsonValue) -> (r: Option<Row>)
    ensures
        match row_of(json_model(*value)) {
            Some(row) => r matches Some(x) && x@ == row,
            None => r is None,
        },
{
    let map = match json_as_object(value) {
        Some(map) => map,
        None => {
            return None;
        },
    };
    let id = match json_map_get(map, "id") {
        Some(found) => match json_as_u64(found) {
            Some(id) => id,
            None => {
                return None;
            },
        },
        None => {
            return None;
        },
    };
    let entries = json_map_iter(map);
    Some(Row { id: id as u128, columns: columns_from_entries(&entries) })
}

/// Reads a table from a JSON value.
pub fn table_from_json(value: &JsonValue) -> (table: Table)
    ensures
        table@ == table_of(json_model(*value)),
{
    let mut table = Table::new();
    let items = match json_as_array(value) {
        Some(items) => items,
        None => {
            return table;
        },
    };
    let ghost models = items_model(items@);
    let mut i: usize = 0;
    while i < items.len()
        invariant
            i <= items.len(),
            models == items_model(items@),
            table@ == rows_of(models.take(i as int)),
        decreases items.len() - i,
    {
        proof {
            assert(models.take(i + 1).drop_last() =~= models.take(i as int));
            assert(models.take(i + 1).last() == json_model(items@[i as int]));
        }
        match row_from_json(&items[i]) {
            Some(row) => {
                table.add_row(row.id, row.columns);
            },
            None => {},
        }
        i += 1;
    }
    proof {
        assert(models.take(items.len() as int) =~= models);
    }
    table
}

/// Reads a database from a JSON value.
pub fn database_from_json(value: &JsonValue) -> (db: Database)
    ensures
        db@ == database_of(json_model(*value)),
{
    let mut db = Database::new();
    let map = match json_as_object(value) {
        Some(map) => map,
        None => {
            return db;
        },
    };
    let entries = json_map_iter(map);
    let ghost members = entries_model(entries@);
    let mut i: usize = 0;
    while i < entries.len()
        invariant
            i <= entries.len(),
            members == entries_model(entries@),
            db@ == tables_of(members.take(i as int)),
        decreases entries.len() - i,
    {
        proof {
            assert(members.take(i + 1).drop_last() =~= members.take(i as int));
            assert(members.take(i + 1).last() == members[i as int]);
        }
        let table = table_from_json(entries[i].1);
        db.insert_table(entries[i].0.clone(), table);
        i += 1;
    }
    proof {
        assert(members.take(entries.len() as int) =~= members);
    }
    db
}

/// Loads a database from the text of a JSON document.
pub fn load_database(json: &str) -> (r: Result<Database, LoadError>)
    ensures
        match json_document(json@) {
            None => r matches Err(e) && e == LoadError::InvalidJson,
            Some(document) => r matches Ok(db) && db@ == database_of(document),
        },
{
    match json_from_str(json) {
        Err(_) => Err(LoadError::InvalidJson),
        Ok(value) => Ok(database_from_json(&value)),
    }
}

} // verus!
