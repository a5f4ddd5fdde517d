use luna_core::catalog::ColumnDao;
use luna_core::model::TableDao;
use luna_core::query::{
    insert_statement, sql_literal, BuilderError, DataInsertQueryBuilder, DataQueryBuilder, Query,
};
use luna_core::service::{Delivery, ImportService, Provider};
use luna_core::value::ColumnValue;

fn cols(names: &[&str]) -> Vec<String> {
    names.iter().map(|s| s.to_string()).collect()
}

#[test]
fn select_with_pagination() {
    let b = DataQueryBuilder::new("orders", &cols(&["id", "total"]), cols(&["id"]), Some(10), Some(5), None)
        .unwrap();
    assert_eq!(
        b.build(),
        "select [id], [total]from orders order by  id offset 10 rows fetch next 5 rows only"
    );
}

#[test]
fn select_with_predicate_and_two_keys() {
    let p = "total > 100".to_string();
    let b = DataQueryBuilder::new("orders", &cols(&["a"]), cols(&["a", "b"]), Some(0), Some(18446744073709551615), Some(&p))
        .unwrap();
    assert_eq!(
        b.build(),
        "select [a]from orders where total > 100 order by  a, b offset 0 rows fetch next 18446744073709551615 rows only"
    );
}

#[test]
fn select_without_pagination_ignores_keys() {
    let b = DataQueryBuilder::new("t", &cols(&["x"]), Vec::new(), Some(3), None, None).unwrap();
    assert_eq!(b.build(), "select [x]from t");
}

#[test]
fn pagination_without_key_is_refused() {
    let r = DataQueryBuilder::new("t", &cols(&["x"]), Vec::new(), Some(3), Some(4), None);
    assert!(matches!(r, Err(BuilderError::MissingPrimaryKey)));
}

#[test]
fn insert_quotes_text_and_writes_null() {
    let b = DataInsertQueryBuilder::new(
        "people",
        &cols(&["id", "name", "nick"]),
        vec![
            ColumnValue::Integer(Some(3)),
            ColumnValue::String(Some("O'Brien".to_string())),
            ColumnValue::String(None),
        ],
    );
    assert_eq!(
        b.build(),
        "insert into people([id], [name], [nick]) values (3, 'O''Brien', NULL);"
    );
}

#[test]
fn literal_of_uuid_is_quoted() {
    assert_eq!(sql_literal(&ColumnValue::Uuid(Some(1))), "'00000000-0000-0000-0000-000000000001'");
    assert_eq!(sql_literal(&ColumnValue::Bool(Some(true))), "true");
}

#[test]
fn insert_statement_joins_literals() {
    assert_eq!(
        insert_statement("t", &cols(&["a", "b"]), &cols(&["1", "'x'"])),
        "insert into t([a], [b]) values (1, 'x');"
    );
}

#[test]
fn import_statements_start_with_marker() {
    let mut t = TableDao::new("items");
    t.add_columns(vec![
        ColumnDao::new("name".to_string(), "items".to_string(), "varchar".to_string(), 0, 20, None, 2, false),
        ColumnDao::new("id".to_string(), "items".to_string(), "int".to_string(), 10, 4, None, 1, true),
    ]);
    let rows = vec![
        vec![ColumnValue::Integer(Some(1)), ColumnValue::String(Some("pen".to_string()))],
        vec![ColumnValue::Integer(Some(2)), ColumnValue::String(None)],
    ];
    let out = ImportService::table_statements(&t, &rows);
    assert_eq!(
        out,
        vec![
            "-- Table items".to_string(),
            "insert into items([id], [name]) values (1, 'pen');".to_string(),
            "insert into items([id], [name]) values (2, NULL);".to_string(),
        ]
    );
}

struct Recorder {
    lines: Vec<String>,
    refuse: String,
}

impl Provider for Recorder {
    fn open_connection(&mut self) -> Result<(), String> {
        Ok(())
    }

    fn send(&mut self, data: &str) -> Result<(), String> {
        if data == self.refuse {
            Err("refused".to_string())
        } else {
            self.lines.push(data.to_string());
            Ok(())
        }
    }
}

#[test]
fn failed_statement_is_skipped_and_the_rest_sent() {
    let mut sink = Delivery::new(Recorder { lines: Vec::new(), refuse: "b".to_string() });
    let statements = cols(&["a", "b", "c", "b"]);
    let failed = ImportService::send_all(&mut sink, &statements);
    assert_eq!(sink.sink.lines, cols(&["a", "c"]));
    assert_eq!(failed.iter().map(|f| f.0).collect::<Vec<_>>(), vec![1, 3]);
    assert_eq!(failed[0].1, "refused");
}

#[test]
fn every_statement_reaches_the_sink() {
    let mut sink = Delivery::new(Recorder { lines: vec!["before".to_string()], refuse: String::new() });
    let statements = cols(&["-- Table t", "insert 1", "insert 2"]);
    assert!(ImportService::send_all(&mut sink, &statements).is_empty());
    assert_eq!(sink.sink.lines, cols(&["before", "-- Table t", "insert 1", "insert 2"]));
}
