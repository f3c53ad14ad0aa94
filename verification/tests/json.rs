use minisql::database::{Cell, Database};
use minisql::engine::{ResolutionError, View};
use minisql::json::{
    cell_from_json, database_from_json, load_database, row_from_json, table_from_json, LoadError,
};
use minisql::parser::{parse_query, Const, Value};

fn shown(value: &Const) -> String {
    match value {
        Const::Number(n) => format!("{}", n),
        Const::String(s) => format!("'{}'", s),
    }
}

fn run(text: &str, db: &Database) -> Vec<Vec<(String, String)>> {
    let query = parse_query(text).unwrap();
    let view = View::execute(&query, db).unwrap();
    view.rows
        .iter()
        .map(|row| (0..row.len()).map(|i| (row.key(i).clone(), shown(row.value(i)))).collect())
        .collect()
}

fn cells(pairs: &[(&str, &str)]) -> Vec<(String, String)> {
    pairs.iter().map(|(k, v)| (k.to_string(), v.to_string())).collect()
}

fn json(text: &str) -> serde_json::Value {
    serde_json::from_str(text).unwrap()
}

#[test]
fn database_is_loaded_from_json_text() {
    let db = load_database(
        r#"{
            "users": [
                {"id": 2, "name": "Bob", "age": 41},
                {"id": 1, "name": "Ann", "age": -3}
            ],
            "empty": []
        }"#,
    )
    .unwrap();
    assert_eq!(db.table("users").unwrap().len(), 2);
    assert_eq!(db.table("empty").unwrap().len(), 0);
    assert!(db.table("other").is_none());
    assert_eq!(
        run("SELECT users.id, users.name, users.age FROM users", &db),
        vec![
            cells(&[("users.age", "-3"), ("users.id", "1"), ("users.name", "'Ann'")]),
            cells(&[("users.age", "41"), ("users.id", "2"), ("users.name", "'Bob'")]),
        ]
    );
}

#[test]
fn text_that_is_not_json_is_refused() {
    assert_eq!(load_database("").unwrap_err(), LoadError::InvalidJson);
    assert_eq!(load_database("{\"t\": [").unwrap_err(), LoadError::InvalidJson);
    assert_eq!(load_database("{} trailing").unwrap_err(), LoadError::InvalidJson);
}

#[test]
fn document_that_is_no_object_is_an_empty_database() {
    for doc in ["[]", "null", "3", "\"t\"", "true", "{}"] {
        let db = load_database(doc).unwrap();
        assert_eq!(db.tables.len(), 0);
    }
}

#[test]
fn table_that_is_no_array_is_empty() {
    let db = load_database(r#"{"a": 3, "b": {"id": 1}, "c": "x", "d": null}"#).unwrap();
    assert_eq!(db.tables.len(), 4);
    for name in ["a", "b", "c", "d"] {
        assert_eq!(db.table(name).unwrap().len(), 0);
    }
}

#[test]
fn rows_without_an_unsigned_id_are_passed_over() {
    let db = load_database(
        r#"{"t": [
            {"a": 1},
            {"id": -1, "a": 2},
            {"id": "3", "a": 3},
            {"id": 4.5, "a": 4},
            {"id": null, "a": true},
            7,
            [{"id": 8}],
            {"id": 5, "a": 5}
        ]}"#,
    )
    .unwrap();
    assert_eq!(run("SELECT t.id, t.a FROM t", &db), vec![cells(&[("t.a", "5"), ("t.id", "5")])]);
}

#[test]
fn first_row_of_an_id_stays() {
    let db = load_database(r#"{"t": [{"id": 1, "a": "first"}, {"id": 1, "a": "second"}]}"#).unwrap();
    assert_eq!(run("SELECT t.a FROM t", &db), vec![cells(&[("t.a", "'first'")])]);
}

#[test]
fn columns_hold_integers_and_texts_only() {
    for cell in ["true", "null", "1.5", "[1]", "{\"x\": 1}", "9223372036854775808", "1e3"] {
        let doc = format!(
            "{{\"t\": [{{\"id\": 1, \"a\": {}}}], \"u\": [{{\"id\": 1, \"a\": 7}}]}}",
            cell
        );
        let db = load_database(&doc).unwrap();
        assert_eq!(db.table("t").unwrap().len(), 1);
        assert!(matches!(db.table("t").unwrap().row(0).columns.get("a"), Some(Cell::Other)));
        let query = parse_query("SELECT t.a FROM t").unwrap();
        assert_eq!(
            View::execute(&query, &db).unwrap_err(),
            ResolutionError::UnsupportedValue
        );
        assert_eq!(run("SELECT u.a FROM u", &db), vec![cells(&[("u.a", "7")])]);
    }
    let db = load_database(r#"{"t": [{"id": 1, "a": 9223372036854775807, "b": -9223372036854775808}]}"#)
        .unwrap();
    assert_eq!(
        run("SELECT t.a, t.b FROM t", &db),
        vec![cells(&[("t.a", "9223372036854775807"), ("t.b", "-9223372036854775808")])]
    );
}

#[test]
fn large_ids_wrap_into_signed_integers() {
    let db = load_database(r#"{"t": [{"id": 18446744073709551615}, {"id": 9223372036854775808}]}"#)
        .unwrap();
    assert_eq!(db.table("t").unwrap().row(1).id, 18446744073709551615u128);
    assert_eq!(
        run("SELECT t.id FROM t", &db),
        vec![cells(&[("t.id", "-9223372036854775808")]), cells(&[("t.id", "-1")])]
    );
}

#[test]
fn json_values_become_constants() {
    match Value::from_serde_value(&json("-7")) {
        Some(Value::Const(Const::Number(n))) => assert_eq!(n, -7),
        _ => panic!("Expected number constant"),
    }
    match Value::from_serde_value(&json("9223372036854775807")) {
        Some(Value::Const(Const::Number(n))) => assert_eq!(n, i64::MAX),
        _ => panic!("Expected number constant"),
    }
    match Value::from_serde_value(&json("\"x\"")) {
        Some(Value::Const(Const::String(s))) => assert_eq!(s, "x"),
        _ => panic!("Expected text constant"),
    }
    match cell_from_json(&json("12")) {
        Cell::Scalar(Const::Number(n)) => assert_eq!(n, 12),
        _ => panic!("Expected number constant"),
    }
    for text in ["null", "true", "18446744073709551615", "0.5", "-1e2", "[]", "{}", "[1]"] {
        assert!(Value::from_serde_value(&json(text)).is_none());
        assert!(matches!(cell_from_json(&json(text)), Cell::Other));
    }
}

#[test]
fn database_is_read_from_a_json_value() {
    let doc = json(
        r#"{
            "t": [{"id": 2, "a": 20}, null, {"a": "ten", "id": 1}],
            "u": false,
            "t2": []
        }"#,
    );
    let db = database_from_json(&doc);
    assert_eq!(db.tables.len(), 3);
    assert_eq!(
        run("SELECT t.id, t.a FROM t", &db),
        vec![cells(&[("t.a", "'ten'"), ("t.id", "1")]), cells(&[("t.a", "20"), ("t.id", "2")])]
    );
    let mixed = database_from_json(&json(r#"{"s": [], "t": [{"id": 1, "a": null}]}"#));
    assert_eq!(mixed.table("t").unwrap().len(), 1);
    assert_eq!(mixed.table("s").unwrap().len(), 0);
    assert_eq!(table_from_json(&json(r#"[{"b": true, "id": 3}]"#)).len(), 1);
    assert_eq!(table_from_json(&json(r#"[{"b": null}]"#)).len(), 0);
    assert_eq!(table_from_json(&json(r#"{"id": 1}"#)).len(), 0);
}

#[test]
fn row_is_read_from_a_json_value() {
    let row = row_from_json(&json(r#"{"b": "x", "id": 7, "a": -1, "c": [1]}"#)).unwrap();
    assert_eq!(row.id, 7);
    assert_eq!(row.columns.len(), 3);
    assert_eq!(row.columns.key(0), "a");
    assert!(matches!(row.columns.value(0), Cell::Scalar(Const::Number(-1))));
    assert_eq!(row.columns.key(1), "b");
    match row.columns.value(1) {
        Cell::Scalar(c) => assert_eq!(shown(c), "'x'"),
        Cell::Other => panic!("Expected text constant"),
    }
    assert!(matches!(row.columns.value(2), Cell::Other));
    assert!(row.columns.get("id").is_none());
    assert!(row_from_json(&json(r#"{"a": 1}"#)).is_none());
    assert!(row_from_json(&json(r#"{"id": -7, "a": null}"#)).is_none());
    assert!(row_from_json(&json("[1]")).is_none());
}

#[test]
fn last_of_two_members_with_one_key_stays() {
    let db = load_database(r#"{"t": [{"id": "x", "id": 1, "a": 5, "a": 6}], "t": [{"id": 2}]}"#)
        .unwrap();
    assert_eq!(run("SELECT t.id, t.a FROM t", &db), vec![cells(&[("t.id", "2")])]);
    let table = table_from_json(&json(r#"[{"id": "x", "id": 1, "a": 5, "a": 6}]"#));
    assert_eq!(table.len(), 1);
    assert!(matches!(table.row(0).columns.value(0), Cell::Scalar(Const::Number(6))));
}
