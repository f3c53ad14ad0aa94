use minisql::database::{Cell, Database, Table};
use minisql::engine::{copy_row, merge_rows, project_row, qualify_row, ResolutionError, View};
use minisql::parser::{parse_query, Column, Comparison, Const, Query, Value};
use minisql::text_map::TextMap;

fn number(n: i64) -> Const {
    Const::Number(n)
}

fn text(s: &str) -> Const {
    Const::String(s.to_string())
}

fn columns(cells: Vec<(&str, Const)>) -> TextMap<Const> {
    let mut map = TextMap::new();
    for (name, value) in cells {
        map.insert(name.to_string(), value);
    }
    map
}

fn stored(cells: Vec<(&str, Const)>) -> TextMap<Cell> {
    let mut map = TextMap::new();
    for (name, value) in cells {
        map.insert(name.to_string(), Cell::Scalar(value));
    }
    map
}

fn table(rows: Vec<(u128, Vec<(&str, Const)>)>) -> Table {
    let mut table = Table::new();
    for (id, cells) in rows {
        table.add_row(id, stored(cells));
    }
    table
}

fn database(tables: Vec<(&str, Table)>) -> Database {
    let mut db = Database::new();
    for (name, table) in tables {
        db.insert_table(name.to_string(), table);
    }
    db
}

fn shown(value: &Const) -> String {
    match value {
        Const::Number(n) => format!("{}", n),
        Const::String(s) => format!("'{}'", s),
    }
}

fn row_cells(row: &TextMap<Const>) -> Vec<(String, String)> {
    let mut cells = Vec::new();
    let mut i = 0;
    while i < row.len() {
        cells.push((row.key(i).clone(), shown(row.value(i))));
        i += 1;
    }
    cells
}

fn cells(pairs: &[(&str, &str)]) -> Vec<(String, String)> {
    pairs.iter().map(|(k, v)| (k.to_string(), v.to_string())).collect()
}

fn run(text: &str, db: &Database) -> Result<Vec<Vec<(String, String)>>, ResolutionError> {
    let query = parse_query(text).unwrap();
    let view = View::execute(&query, db)?;
    Ok(view.rows.iter().map(row_cells).collect())
}

fn two_rows() -> Database {
    database(vec![(
        "t",
        table(vec![(1, vec![("a", number(10))]), (2, vec![("a", number(20))])]),
    )])
}

fn shop() -> Database {
    database(vec![
        (
            "orders",
            table(vec![
                (1, vec![("user_id", number(1)), ("total", number(30))]),
                (2, vec![("user_id", number(2)), ("total", number(5))]),
                (3, vec![("user_id", number(1)), ("total", number(12))]),
                (4, vec![("user_id", number(9)), ("total", number(7))]),
            ]),
        ),
        (
            "users",
            table(vec![
                (1, vec![("name", text("Ann"))]),
                (2, vec![("name", text("Bob"))]),
                (3, vec![("name", text("Cy"))]),
            ]),
        ),
    ])
}

#[test]
fn select_one_column() {
    let rows = run("SELECT t.a FROM t", &two_rows()).unwrap();
    assert_eq!(rows, vec![cells(&[("t.a", "10")]), cells(&[("t.a", "20")])]);
}

#[test]
fn filter_by_equality() {
    let rows = run("SELECT t.a FROM t WHERE t.a = 20", &two_rows()).unwrap();
    assert_eq!(rows, vec![cells(&[("t.a", "20")])]);
}

#[test]
fn join_two_tables() {
    let db = database(vec![
        ("orders", table(vec![(1, vec![("user_id", number(1))])])),
        ("users", table(vec![(1, vec![("name", text("Ann"))])])),
    ]);
    let rows = run(
        "SELECT orders.id, users.name FROM orders JOIN users ON orders.user_id = users.id",
        &db,
    )
    .unwrap();
    assert_eq!(rows, vec![cells(&[("orders.id", "1"), ("users.name", "'Ann'")])]);
}

#[test]
fn left_row_without_match_gives_no_row() {
    let rows = run(
        "SELECT orders.id, users.name FROM orders JOIN users ON orders.user_id = users.id",
        &shop(),
    )
    .unwrap();
    assert_eq!(
        rows,
        vec![
            cells(&[("orders.id", "1"), ("users.name", "'Ann'")]),
            cells(&[("orders.id", "2"), ("users.name", "'Bob'")]),
            cells(&[("orders.id", "3"), ("users.name", "'Ann'")]),
        ]
    );
}

#[test]
fn unknown_table() {
    let result = run("SELECT t.a FROM nonexistent", &two_rows());
    assert_eq!(result, Err(ResolutionError::UnknownTable));
}

#[test]
fn unknown_joined_table() {
    let result = run("SELECT t.a FROM t JOIN u ON t.a = u.a", &two_rows());
    assert_eq!(result, Err(ResolutionError::UnknownTable));
}

#[test]
fn unresolved_column_in_filter_and_join() {
    assert_eq!(
        run("SELECT t.a FROM t WHERE t.b = 1", &two_rows()),
        Err(ResolutionError::UnresolvedColumn)
    );
    assert_eq!(
        run("SELECT orders.id FROM orders JOIN users ON orders.user_id = users.nope", &shop()),
        Err(ResolutionError::UnresolvedColumn)
    );
}

#[test]
fn unresolved_column_is_not_met_without_rows() {
    let db = database(vec![("t", Table::new()), ("u", table(vec![(1, vec![])]))]);
    assert_eq!(run("SELECT u.id FROM u", &db), Ok(vec![cells(&[("u.id", "1")])]));
    assert_eq!(run("SELECT t.a FROM t WHERE t.b = 1", &db), Ok(vec![]));
    assert_eq!(run("SELECT t.a FROM t JOIN u ON t.b = u.c", &db), Ok(vec![]));
}

#[test]
fn join_counts_matching_pairs_in_order() {
    let rows = run(
        "SELECT orders.id, users.id FROM orders JOIN users ON orders.user_id <= users.id",
        &shop(),
    )
    .unwrap();
    assert_eq!(
        rows,
        vec![
            cells(&[("orders.id", "1"), ("users.id", "1")]),
            cells(&[("orders.id", "1"), ("users.id", "2")]),
            cells(&[("orders.id", "1"), ("users.id", "3")]),
            cells(&[("orders.id", "2"), ("users.id", "2")]),
            cells(&[("orders.id", "2"), ("users.id", "3")]),
            cells(&[("orders.id", "3"), ("users.id", "1")]),
            cells(&[("orders.id", "3"), ("users.id", "2")]),
            cells(&[("orders.id", "3"), ("users.id", "3")]),
        ]
    );
}

#[test]
fn joined_row_holds_the_keys_of_both_rows() {
    let query = parse_query(
        "SELECT orders.id FROM orders JOIN users ON orders.user_id = users.id",
    )
    .unwrap();
    let db = shop();
    let view = View { rows: Vec::new(), parsed_query: &query, database: &db };
    let joined = view.from().unwrap().joins().unwrap();
    assert_eq!(joined.rows.len(), 3);
    assert_eq!(
        row_cells(&joined.rows[0]),
        cells(&[
            ("orders.id", "1"),
            ("orders.total", "30"),
            ("orders.user_id", "1"),
            ("users.id", "1"),
            ("users.name", "'Ann'"),
        ])
    );
}

#[test]
fn self_join_lets_the_right_row_win() {
    let rows = run("SELECT t.a, t.id FROM t JOIN t ON t.a < 100", &two_rows()).unwrap();
    assert_eq!(
        rows,
        vec![
            cells(&[("t.a", "10"), ("t.id", "1")]),
            cells(&[("t.a", "20"), ("t.id", "2")]),
            cells(&[("t.a", "10"), ("t.id", "1")]),
            cells(&[("t.a", "20"), ("t.id", "2")]),
        ]
    );
}

#[test]
fn several_joins_are_applied_in_turn() {
    let db = database(vec![
        ("a", table(vec![(1, vec![("x", number(1))]), (2, vec![("x", number(2))])])),
        ("b", table(vec![(1, vec![("x", number(2))]), (2, vec![("x", number(1))])])),
        ("c", table(vec![(7, vec![("x", number(2))])])),
    ]);
    let rows = run(
        "SELECT a.id, b.id, c.id FROM a JOIN b ON a.x = b.x JOIN c ON b.x = c.x",
        &db,
    )
    .unwrap();
    assert_eq!(rows, vec![cells(&[("a.id", "2"), ("b.id", "1"), ("c.id", "7")])]);
}

#[test]
fn filter_keeps_the_order_of_the_rows() {
    let rows = run("SELECT orders.id FROM orders WHERE orders.total > 6", &shop()).unwrap();
    assert_eq!(
        rows,
        vec![
            cells(&[("orders.id", "1")]),
            cells(&[("orders.id", "3")]),
            cells(&[("orders.id", "4")]),
        ]
    );
}

#[test]
fn filter_on_text() {
    let rows = run("SELECT users.id FROM users WHERE users.name >= 'Bob'", &shop()).unwrap();
    assert_eq!(rows, vec![cells(&[("users.id", "2")]), cells(&[("users.id", "3")])]);
    let rows = run("SELECT users.id FROM users WHERE 'Bob' <> users.name", &shop()).unwrap();
    assert_eq!(rows, vec![cells(&[("users.id", "1")]), cells(&[("users.id", "3")])]);
}

#[test]
fn mixed_comparison_never_holds() {
    let query = parse_query("SELECT t.a FROM t").unwrap();
    let db = two_rows();
    let view = View { rows: Vec::new(), parsed_query: &query, database: &db };
    let all = [
        Comparison::Eq,
        Comparison::Ne,
        Comparison::Lt,
        Comparison::Le,
        Comparison::Gt,
        Comparison::Ge,
    ];
    for comparison in all {
        assert!(!view.compare_values(&number(1), &comparison, &text("1")));
        assert!(!view.compare_values(&text("1"), &comparison, &number(1)));
    }
    assert_eq!(run("SELECT t.a FROM t WHERE t.a <> 'x'", &db), Ok(vec![]));
}

#[test]
fn comparison_of_integers_and_of_texts() {
    let query = parse_query("SELECT t.a FROM t").unwrap();
    let db = two_rows();
    let view = View { rows: Vec::new(), parsed_query: &query, database: &db };
    let table = [
        (Comparison::Eq, [false, true, false]),
        (Comparison::Ne, [true, false, true]),
        (Comparison::Lt, [true, false, false]),
        (Comparison::Le, [true, true, false]),
        (Comparison::Gt, [false, false, true]),
        (Comparison::Ge, [false, true, true]),
    ];
    for (comparison, expected) in table {
        assert_eq!(view.compare_values(&number(-5), &comparison, &number(3)), expected[0]);
        assert_eq!(view.compare_values(&number(3), &comparison, &number(3)), expected[1]);
        assert_eq!(view.compare_values(&number(3), &comparison, &number(-5)), expected[2]);
        assert_eq!(view.compare_values(&text("Ann"), &comparison, &text("Bob")), expected[0]);
        assert_eq!(view.compare_values(&text("Bob"), &comparison, &text("Bob")), expected[1]);
        assert_eq!(view.compare_values(&text("Bob"), &comparison, &text("Ann")), expected[2]);
    }
}

#[test]
fn projection_is_idempotent() {
    let query = parse_query("SELECT orders.total, orders.missing FROM orders").unwrap();
    let db = shop();
    let view = View { rows: Vec::new(), parsed_query: &query, database: &db };
    let once = view.from().unwrap().select();
    let first: Vec<Vec<(String, String)>> = once.rows.iter().map(row_cells).collect();
    let twice = once.select();
    let second: Vec<Vec<(String, String)>> = twice.rows.iter().map(row_cells).collect();
    assert_eq!(first, second);
    assert_eq!(
        first,
        vec![
            cells(&[("orders.total", "30")]),
            cells(&[("orders.total", "5")]),
            cells(&[("orders.total", "12")]),
            cells(&[("orders.total", "7")]),
        ]
    );
}

#[test]
fn selected_key_that_a_row_lacks_is_left_out() {
    let db = database(vec![(
        "t",
        table(vec![(1, vec![("a", number(1)), ("b", number(2))]), (2, vec![("a", number(3))])]),
    )]);
    let rows = run("SELECT t.b, t.a FROM t", &db).unwrap();
    assert_eq!(rows, vec![cells(&[("t.a", "1"), ("t.b", "2")]), cells(&[("t.a", "3")])]);
    let rows = run("SELECT u.a FROM t", &db).unwrap();
    assert_eq!(rows, vec![cells(&[]), cells(&[])]);
}

#[test]
fn source_rows_carry_qualified_keys_and_the_id() {
    let query = Query::new("");
    let db = database(vec![(
        "t",
        table(vec![(7, vec![("b", text("x")), ("a", number(1)), ("id", number(99))])]),
    )]);
    let view = View { rows: Vec::new(), parsed_query: &query, database: &db };
    let rows = view.table_to_vec("t").unwrap();
    assert_eq!(rows.len(), 1);
    assert_eq!(row_cells(&rows[0]), cells(&[("t.a", "1"), ("t.b", "'x'"), ("t.id", "7")]));
    assert_eq!(view.table_to_vec("u").unwrap_err(), ResolutionError::UnknownTable);
}

#[test]
fn id_is_the_low_64_bits_as_a_signed_integer() {
    let mut t = Table::new();
    t.add_row(u64::MAX as u128, stored(vec![]));
    t.add_row((1u128 << 64) + 5, stored(vec![]));
    t.add_row(1u128 << 63, stored(vec![]));
    t.add_row(i64::MAX as u128, stored(vec![]));
    let rows: Vec<Vec<(String, String)>> =
        (0..t.len()).map(|i| row_cells(&qualify_row("t", t.row(i)).unwrap())).collect();
    assert_eq!(
        rows,
        vec![
            cells(&[("t.id", "9223372036854775807")]),
            cells(&[("t.id", "-9223372036854775808")]),
            cells(&[("t.id", "-1")]),
            cells(&[("t.id", "5")]),
        ]
    );
}

#[test]
fn operands_are_looked_up_by_qualified_key() {
    let query = Query::new("");
    let db = Database::new();
    let view = View { rows: Vec::new(), parsed_query: &query, database: &db };
    let row = columns(vec![("t.a", number(4)), ("t.b", text("x"))]);
    let column = |table: &str, name: &str| {
        Value::Column(Column { table_name: table.to_string(), column_name: name.to_string() })
    };
    assert_eq!(view.get_column_value(&row, &column("t", "a")).map(|c| shown(&c)), Some("4".to_string()));
    assert_eq!(view.get_column_value(&row, &column("t", "b")).map(|c| shown(&c)), Some("'x'".to_string()));
    assert!(view.get_column_value(&row, &column("t", "c")).is_none());
    assert!(view.get_column_value(&row, &column("u", "a")).is_none());
    assert_eq!(
        view.get_column_value(&row, &Value::Const(number(9))).map(|c| shown(&c)),
        Some("9".to_string())
    );
}

#[test]
fn rows_are_copied_merged_and_projected() {
    let left = columns(vec![("t.a", number(1)), ("t.b", number(2))]);
    let right = columns(vec![("t.b", number(20)), ("u.c", text("z"))]);
    assert_eq!(row_cells(&copy_row(&left)), cells(&[("t.a", "1"), ("t.b", "2")]));
    assert_eq!(
        row_cells(&merge_rows(&left, &right)),
        cells(&[("t.a", "1"), ("t.b", "20"), ("u.c", "'z'")])
    );
    assert_eq!(
        row_cells(&merge_rows(&right, &left)),
        cells(&[("t.a", "1"), ("t.b", "2"), ("u.c", "'z'")])
    );
    let select = vec![
        Column { table_name: "u".to_string(), column_name: "c".to_string() },
        Column { table_name: "t".to_string(), column_name: "a".to_string() },
        Column { table_name: "t".to_string(), column_name: "zz".to_string() },
    ];
    assert_eq!(
        row_cells(&project_row(&merge_rows(&left, &right), &select)),
        cells(&[("t.a", "1"), ("u.c", "'z'")])
    );
    assert_eq!(row_cells(&project_row(&left, &Vec::new())), cells(&[]));
}

#[test]
fn execution_leaves_the_query_and_the_database_as_they_were() {
    let db = shop();
    let query = parse_query("SELECT users.name FROM users WHERE users.id > 1").unwrap();
    let first = View::execute(&query, &db).unwrap();
    let second = View::execute(&query, &db).unwrap();
    let a: Vec<Vec<(String, String)>> = first.rows.iter().map(row_cells).collect();
    let b: Vec<Vec<(String, String)>> = second.rows.iter().map(row_cells).collect();
    assert_eq!(a, b);
    assert_eq!(a, vec![cells(&[("users.name", "'Bob'")]), cells(&[("users.name", "'Cy'")])]);
    assert_eq!(db.table("users").unwrap().len(), 3);
}

fn with_other_cell() -> Database {
    let mut broken = Table::new();
    broken.add_row(1, stored(vec![("a", number(1))]));
    let mut row = stored(vec![("a", number(2))]);
    row.insert("b".to_string(), Cell::Other);
    broken.add_row(2, row);
    database(vec![
        ("broken", broken),
        ("t", table(vec![(1, vec![("a", number(10))])])),
    ])
}

#[test]
fn table_with_a_value_that_is_no_scalar_cannot_be_read() {
    let db = with_other_cell();
    assert_eq!(
        run("SELECT broken.a FROM broken", &db),
        Err(ResolutionError::UnsupportedValue)
    );
    assert_eq!(
        run("SELECT t.a FROM t JOIN broken ON t.a = broken.a", &db),
        Err(ResolutionError::UnsupportedValue)
    );
    assert_eq!(
        run("SELECT t.a FROM broken JOIN nowhere ON t.a = t.a", &db),
        Err(ResolutionError::UnsupportedValue)
    );
    assert!(qualify_row("broken", db.table("broken").unwrap().row(0)).is_some());
    assert!(qualify_row("broken", db.table("broken").unwrap().row(1)).is_none());
}

#[test]
fn other_tables_of_that_database_can_be_read() {
    let db = with_other_cell();
    assert_eq!(run("SELECT t.a FROM t", &db), Ok(vec![cells(&[("t.a", "10")])]));
    assert_eq!(
        run("SELECT t.a FROM t WHERE t.a > 5", &db),
        Ok(vec![cells(&[("t.a", "10")])])
    );
}
