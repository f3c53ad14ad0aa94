use minisql::database::{Cell, Database, Table};
use minisql::parser::Const;
use minisql::text_map::TextMap;

fn one(name: &str, n: i64) -> TextMap<Const> {
    let mut map = TextMap::new();
    map.insert(name.to_string(), Const::Number(n));
    map
}

fn cell(name: &str, n: i64) -> TextMap<Cell> {
    let mut map = TextMap::new();
    map.insert(name.to_string(), Cell::Scalar(Const::Number(n)));
    map
}

fn cell_at(map: &TextMap<Cell>, key: &str) -> Option<i64> {
    match map.get(key) {
        Some(Cell::Scalar(Const::Number(n))) => Some(*n),
        _ => None,
    }
}

fn number_at(map: &TextMap<Const>, key: &str) -> Option<i64> {
    match map.get(key) {
        Some(Const::Number(n)) => Some(*n),
        _ => None,
    }
}

#[test]
fn text_map_keeps_its_keys_in_order() {
    let mut map: TextMap<Const> = TextMap::new();
    assert_eq!(map.len(), 0);
    assert!(map.get("a").is_none());
    for (i, key) in ["m", "b", "z", "a", "ma", "B", ""].iter().enumerate() {
        map.insert(key.to_string(), Const::Number(i as i64));
    }
    let keys: Vec<String> = (0..map.len()).map(|i| map.key(i).clone()).collect();
    assert_eq!(keys, vec!["", "B", "a", "b", "m", "ma", "z"]);
    assert_eq!(number_at(&map, "ma"), Some(4));
    assert_eq!(number_at(&map, ""), Some(6));
    assert_eq!(number_at(&map, "mb"), None);
    match map.value(1) {
        Const::Number(n) => assert_eq!(*n, 5),
        _ => panic!("Expected number constant"),
    }
}

#[test]
fn text_map_replaces_the_value_of_a_key() {
    let mut map = one("k", 1);
    map.insert("k".to_string(), Const::Number(2));
    map.insert("j".to_string(), Const::Number(3));
    map.insert("k".to_string(), Const::String("x".to_string()));
    assert_eq!(map.len(), 2);
    assert_eq!(number_at(&map, "j"), Some(3));
    match map.get("k") {
        Some(Const::String(s)) => assert_eq!(s, "x"),
        _ => panic!("Expected text constant"),
    }
}

#[test]
fn table_walks_its_rows_in_the_order_of_their_ids() {
    let mut table = Table::new();
    assert_eq!(table.len(), 0);
    for id in [5u128, 1, 9, 3, u128::MAX, 0] {
        table.add_row(id, cell("n", id as i64));
    }
    let ids: Vec<u128> = (0..table.len()).map(|i| table.row(i).id).collect();
    assert_eq!(ids, vec![0, 1, 3, 5, 9, u128::MAX]);
}

#[test]
fn table_keeps_the_first_row_of_an_id() {
    let mut table = Table::new();
    table.add_row(2, cell("n", 20));
    table.add_row(1, cell("n", 10));
    table.add_row(2, cell("n", 21));
    table.add_row(1, cell("m", 11));
    assert_eq!(table.len(), 2);
    assert_eq!(cell_at(&table.row(0).columns, "n"), Some(10));
    assert_eq!(cell_at(&table.row(0).columns, "m"), None);
    assert_eq!(cell_at(&table.row(1).columns, "n"), Some(20));
}

#[test]
fn database_holds_tables_by_name() {
    let mut db = Database::new();
    assert!(db.table("t").is_none());
    let mut t = db.create_table();
    assert_eq!(t.len(), 0);
    t.add_row(1, cell("a", 1));
    db.insert_table("t".to_string(), t);
    db.insert_table("u".to_string(), Table::new());
    assert_eq!(db.table("t").unwrap().len(), 1);
    assert_eq!(db.table("u").unwrap().len(), 0);
    assert!(db.table("T").is_none());
    db.insert_table("t".to_string(), Table::new());
    assert_eq!(db.table("t").unwrap().len(), 0);
    assert_eq!(db.tables.len(), 2);
}
