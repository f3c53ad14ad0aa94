use minisql::parser::{parse_query, Column, Comparison, Const, Input, ParseError, Query, Value};

/// Tests parsing of the SELECT clause.
#[test]
fn test_parse_select() {
    let mut query = Query::new("SELECT table1.col1, table2.col2 FROM table1");
    query.parse_select().unwrap();
    assert_eq!(query.select.len(), 2);
    assert_eq!(query.select[0].table_name, "table1");
    assert_eq!(query.select[0].column_name, "col1");
    assert_eq!(query.select[1].table_name, "table2");
    assert_eq!(query.select[1].column_name, "col2");
}

/// Tests parsing of the FROM clause.
#[test]
fn test_parse_from() {
    let mut query = Query::new("FROM table1");
    query.parse_from().unwrap();
    assert_eq!(query.from, "table1");
}

/// Tests parsing of the WHERE clause.
#[test]
fn test_parse_where() {
    let mut query = Query::new("WHERE table1.col1 = 42");
    query.parse_where().unwrap();
    let where_clause = query.where_clause.unwrap();
    match where_clause.left {
        Value::Column(Column {
            table_name,
            column_name,
        }) => {
            assert_eq!(table_name, "table1");
            assert_eq!(column_name, "col1");
        }
        _ => panic!("Expected column value"),
    }
    assert_eq!(where_clause.comparison, Comparison::Eq);
    match where_clause.right {
        Value::Const(Const::Number(n)) => assert_eq!(n, 42),
        _ => panic!("Expected number constant"),
    }
}

fn column_of(value: &Value) -> (String, String) {
    match value {
        Value::Column(c) => (c.table_name.clone(), c.column_name.clone()),
        Value::Const(_) => panic!("Expected column value"),
    }
}

fn names(pair: (&str, &str)) -> (String, String) {
    (pair.0.to_string(), pair.1.to_string())
}

#[test]
fn parse_query_reads_every_clause_in_order() {
    let query = parse_query(
        "SELECT orders.id, users.name, items.price FROM orders \
         JOIN users ON orders.user_id = users.id \
         JOIN items ON orders.item_id = items.id \
         WHERE items.price >= 100",
    )
    .unwrap();
    let selected: Vec<(String, String)> = query
        .select
        .iter()
        .map(|c| (c.table_name.clone(), c.column_name.clone()))
        .collect();
    assert_eq!(
        selected,
        vec![names(("orders", "id")), names(("users", "name")), names(("items", "price"))]
    );
    assert_eq!(query.from, "orders");
    assert_eq!(query.joins.len(), 2);
    assert_eq!(query.joins[0].table_name, "users");
    assert_eq!(column_of(&query.joins[0].on.left), names(("orders", "user_id")));
    assert_eq!(query.joins[0].on.comparison, Comparison::Eq);
    assert_eq!(column_of(&query.joins[0].on.right), names(("users", "id")));
    assert_eq!(query.joins[1].table_name, "items");
    assert_eq!(column_of(&query.joins[1].on.left), names(("orders", "item_id")));
    assert_eq!(column_of(&query.joins[1].on.right), names(("items", "id")));
    let filter = query.where_clause.unwrap();
    assert_eq!(column_of(&filter.left), names(("items", "price")));
    assert_eq!(filter.comparison, Comparison::Ge);
    match filter.right {
        Value::Const(Const::Number(n)) => assert_eq!(n, 100),
        _ => panic!("Expected number constant"),
    }
}

#[test]
fn parse_query_without_optional_clauses() {
    let query = parse_query("SELECT t.a FROM t").unwrap();
    assert_eq!(query.select.len(), 1);
    assert_eq!(query.from, "t");
    assert!(query.joins.is_empty());
    assert!(query.where_clause.is_none());
}

#[test]
fn parse_query_accepts_line_breaks_between_tokens() {
    let query = parse_query("  SELECT t.a,\r\n  t.b\r\nFROM t\r\nWHERE t.a <> 'x y'\r\n").unwrap();
    assert_eq!(query.select.len(), 2);
    assert_eq!(query.select[1].column_name, "b");
    assert_eq!(query.from, "t");
    let filter = query.where_clause.unwrap();
    assert_eq!(filter.comparison, Comparison::Ne);
    match filter.right {
        Value::Const(Const::String(s)) => assert_eq!(s, "x y"),
        _ => panic!("Expected text constant"),
    }
}

#[test]
fn nothing_but_white_space_follows_the_last_clause() {
    assert_eq!(
        parse_query("SELECT t.a FROM t ORDER BY t.a").unwrap_err(),
        ParseError::UnexpectedCharacter
    );
    assert_eq!(
        parse_query("SELECT t.a FROM t WHERE t.a = 1 x").unwrap_err(),
        ParseError::UnexpectedCharacter
    );
    assert_eq!(
        parse_query("SELECT t.a FROM t WHERE t.a = 1 WHERE t.a = 2").unwrap_err(),
        ParseError::UnexpectedCharacter
    );
    let query = parse_query("SELECT t.a FROM t WHERE t.a = 1 \t\r\n ").unwrap();
    assert_eq!(query.input.offset(), 36);
    let query = parse_query("SELECT t.a FROM t\n").unwrap();
    assert_eq!(query.from, "t");
    assert_eq!(query.input.offset(), 18);
}

#[test]
fn join_behind_the_filter_is_refused() {
    assert_eq!(
        parse_query("SELECT t.a FROM t WHERE t.a = 1 JOIN u ON t.a = u.a").unwrap_err(),
        ParseError::UnexpectedCharacter
    );
    let mut query = Query::new("SELECT t.a FROM t WHERE t.a = 1 JOIN u ON t.a = u.a");
    assert_eq!(query.parse(), Err(ParseError::UnexpectedCharacter));
    assert!(query.select.is_empty());
    assert!(query.where_clause.is_none());
    assert_eq!(query.input.offset(), 0);
    let query = parse_query("SELECT t.a FROM t JOIN u ON t.a = u.a WHERE t.a = 1").unwrap();
    assert_eq!(query.joins.len(), 1);
    assert!(query.where_clause.is_some());
}

#[test]
fn join_predicate_may_hold_a_constant() {
    let query = parse_query("SELECT t.a FROM t JOIN u ON u.kind = 'x' WHERE 3 < t.a").unwrap();
    match &query.joins[0].on.right {
        Value::Const(Const::String(s)) => assert_eq!(s, "x"),
        _ => panic!("Expected text constant"),
    }
    let filter = query.where_clause.unwrap();
    match filter.left {
        Value::Const(Const::Number(n)) => assert_eq!(n, 3),
        _ => panic!("Expected number constant"),
    }
    assert_eq!(filter.comparison, Comparison::Lt);
}

#[test]
fn every_comparator_is_read() {
    let cases = [
        ("=", Comparison::Eq),
        ("<>", Comparison::Ne),
        ("<=", Comparison::Le),
        (">=", Comparison::Ge),
        ("<", Comparison::Lt),
        (">", Comparison::Gt),
    ];
    for (token, expected) in cases {
        let text = format!("SELECT t.a FROM t WHERE t.a {} 1", token);
        let query = parse_query(&text).unwrap();
        assert_eq!(query.where_clause.unwrap().comparison, expected);
        assert_eq!(Comparison::from_str(token), Ok(expected));
    }
    assert_eq!(Comparison::from_str("=="), Err(()));
    assert_eq!(Comparison::from_str(""), Err(()));
}

#[test]
fn keywords_are_case_sensitive() {
    assert_eq!(parse_query("select t.a FROM t").unwrap_err(), ParseError::UnexpectedCharacter);
    assert_eq!(parse_query("SELECT t.a from t").unwrap_err(), ParseError::UnexpectedCharacter);
}

#[test]
fn clause_order_is_fixed() {
    assert_eq!(
        parse_query("SELECT t.a WHERE t.a = 1 FROM t").unwrap_err(),
        ParseError::UnexpectedCharacter
    );
    assert_eq!(parse_query("FROM t SELECT t.a").unwrap_err(), ParseError::UnexpectedCharacter);
}

#[test]
fn source_that_ends_inside_a_keyword() {
    assert_eq!(parse_query("SEL").unwrap_err(), ParseError::UnexpectedEnd);
    assert_eq!(parse_query("").unwrap_err(), ParseError::UnexpectedEnd);
    assert_eq!(parse_query("SELECT t.a ").unwrap_err(), ParseError::UnexpectedEnd);
    assert_eq!(
        parse_query("SELECT t.a FROM t JOIN u O").unwrap_err(),
        ParseError::UnexpectedEnd
    );
}

#[test]
fn missing_delimiters() {
    assert_eq!(parse_query("SELECT a FROM t").unwrap_err(), ParseError::DelimiterNotFound);
    assert_eq!(
        parse_query("SELECT t.a FROM t WHERE t.a = 'open").unwrap_err(),
        ParseError::DelimiterNotFound
    );
    assert_eq!(
        parse_query("SELECT t.a FROM t WHERE a = 1").unwrap_err(),
        ParseError::DelimiterNotFound
    );
}

#[test]
fn invalid_comparator() {
    assert_eq!(
        parse_query("SELECT t.a FROM t WHERE t.a == 1").unwrap_err(),
        ParseError::InvalidComparison
    );
    assert_eq!(
        parse_query("SELECT t.a FROM t JOIN u ON t.a != u.a").unwrap_err(),
        ParseError::InvalidComparison
    );
}

#[test]
fn invalid_numbers() {
    assert_eq!(
        parse_query("SELECT t.a FROM t WHERE t.a = 12x").unwrap_err(),
        ParseError::InvalidNumber
    );
    assert_eq!(
        parse_query("SELECT t.a FROM t WHERE t.a = 9223372036854775808").unwrap_err(),
        ParseError::InvalidNumber
    );
    let query = parse_query("SELECT t.a FROM t WHERE t.a = 9223372036854775807").unwrap();
    match query.where_clause.unwrap().right {
        Value::Const(Const::Number(n)) => assert_eq!(n, i64::MAX),
        _ => panic!("Expected number constant"),
    }
}

#[test]
fn a_failed_clause_leaves_the_query_as_it_was() {
    let mut query = Query::new("SELECT t.a, b FROM t");
    assert_eq!(query.parse_select(), Err(ParseError::DelimiterNotFound));
    assert!(query.select.is_empty());
    assert_eq!(query.input.offset(), 0);
    assert_eq!(query.parse(), Err(ParseError::DelimiterNotFound));
    assert!(query.select.is_empty());
    assert_eq!(query.from, "");
    assert_eq!(query.input.offset(), 0);
}

#[test]
fn clauses_are_parsed_one_after_the_other() {
    let mut query = Query::new("SELECT t.a FROM t JOIN u ON t.a = u.a WHERE u.b > 2");
    query.parse_select().unwrap();
    assert_eq!(query.input.offset(), 11);
    query.parse_from().unwrap();
    assert_eq!(query.from, "t");
    query.parse_joins().unwrap();
    assert_eq!(query.joins.len(), 1);
    query.parse_where().unwrap();
    assert!(query.where_clause.is_some());
    assert_eq!(query.input.offset(), 51);
}

#[test]
fn parse_value_reads_the_three_kinds_of_operand() {
    let mut query = Query::new("  'it is' 17 t.c");
    match query.parse_value().unwrap() {
        Value::Const(Const::String(s)) => assert_eq!(s, "it is"),
        _ => panic!("Expected text constant"),
    }
    match query.parse_value().unwrap() {
        Value::Const(Const::Number(n)) => assert_eq!(n, 17),
        _ => panic!("Expected number constant"),
    }
    assert_eq!(column_of(&query.parse_value().unwrap()), names(("t", "c")));
    assert_eq!(query.parse_value().unwrap_err(), ParseError::DelimiterNotFound);
}

#[test]
fn input_primitives() {
    let mut input = Input::new(" \t\r\nab.c,d");
    assert_eq!(input.peek(), Some(' '));
    input.consume_whitespace();
    assert_eq!(input.offset(), 4);
    assert_eq!(input.peek(), Some('a'));
    assert!(input.looking_at("ab"));
    assert!(!input.looking_at("abc"));
    assert_eq!(input.consume_until('.'), Ok("ab".to_string()));
    assert_eq!(input.offset(), 6);
    assert_eq!(input.expect("."), Ok(()));
    assert_eq!(input.consume_until_any(&[',', ' ']), "c");
    assert_eq!(input.next(), Some(','));
    assert_eq!(input.consume_until('!'), Err(ParseError::DelimiterNotFound));
    assert_eq!(input.offset(), 9);
    assert_eq!(input.expect("dx"), Err(ParseError::UnexpectedEnd));
    assert_eq!(input.expect("x"), Err(ParseError::UnexpectedCharacter));
    assert_eq!(input.offset(), 9);
    assert_eq!(input.consume_until_any(&[' ']), "d");
    assert_eq!(input.next(), None);
    assert_eq!(input.peek(), None);
    assert_eq!(input.offset(), 10);
}

#[test]
fn input_counts_characters_not_bytes() {
    let mut input = Input::new("é\u{3000}ü.x");
    assert_eq!(input.next(), Some('é'));
    input.consume_whitespace();
    assert_eq!(input.offset(), 2);
    assert_eq!(input.consume_until('.'), Ok("ü".to_string()));
    assert_eq!(input.offset(), 3);
}

#[test]
fn value_accessors() {
    let column = Value::Column(Column {
        table_name: "orders".to_string(),
        column_name: "id".to_string(),
    });
    assert_eq!(column.get_table_name(), "orders");
    assert_eq!(column.get_column_name(), "id");
    assert!(column.get_const().is_none());
    assert_eq!(column.to_string(), "orders.id");
    let number = Value::Const(Const::Number(-42));
    match number.get_const() {
        Some(Const::Number(n)) => assert_eq!(n, -42),
        _ => panic!("Expected number constant"),
    }
    assert_eq!(number.to_string(), "-42");
    assert_eq!(Const::Number(0).to_string(), "0");
    assert_eq!(Const::Number(i64::MIN).to_string(), "-9223372036854775808");
    assert_eq!(Const::Number(i64::MAX).to_string(), "9223372036854775807");
    assert_eq!(Const::String("Ann".to_string()).to_string(), "Ann");
    match number.clone() {
        Value::Const(Const::Number(n)) => assert_eq!(n, -42),
        _ => panic!("Expected number constant"),
    }
}
