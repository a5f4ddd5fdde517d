use luna_core::catalog::{Column, ColumnDao};
use luna_core::model::{build_model, Model, Table, TableDao};
use luna_core::reconcile::{check_model, fill_table_columns, Diagnostic};

fn dao(table: &str, name: &str, ty: &str, order: i16) -> ColumnDao {
    ColumnDao::new(name.to_string(), table.to_string(), ty.to_string(), 0, 0, None, order, order == 1)
}

fn db_model() -> Model {
    let tables = vec![TableDao::new("orders"), TableDao::new("customers")];
    let columns = vec![
        dao("orders", "id", "int", 1),
        dao("customers", "id", "int", 1),
        dao("orders", "total", "decimal", 2),
        dao("customers", "name", "varchar", 2),
    ];
    build_model("shop", tables, &columns)
}

fn file_model() -> Model {
    let mut m = Model::new("shop", "shop");
    let mut orders = Table::new("orders".to_string());
    let mut c = Column::from_dao(&dao("orders", "total", "money", 2));
    c.precision = None;
    orders.add_columns(vec![c, Column::from_dao(&dao("orders", "note", "varchar", 3))]);
    m.add(orders);
    m.add(Table::new("archive".to_string()));
    m
}

fn column_names(t: &Table) -> Vec<String> {
    t.get_columns().unwrap().iter().map(|c| c.column_name.clone()).collect()
}

#[test]
fn build_model_groups_columns_by_table() {
    let m = db_model();
    assert_eq!(m.get_tables().len(), 2);
    assert_eq!(column_names(m.get_table("orders").unwrap()), vec!["id", "total"]);
    assert_eq!(column_names(m.get_table("customers").unwrap()), vec!["id", "name"]);
    assert!(m.get_table("missing").is_none());
}

#[test]
fn check_reports_every_kind_of_finding() {
    let found = check_model(&db_model(), &file_model());
    assert_eq!(found.len(), 3);
    match &found[0] {
        Diagnostic::TypeMismatch { table, column, found, expected } => {
            assert_eq!(table, "orders");
            assert_eq!(column, "total");
            assert_eq!(found.as_deref(), Some("decimal"));
            assert_eq!(expected.as_deref(), Some("money"));
        }
        other => panic!("unexpected {:?}", other),
    }
    match &found[1] {
        Diagnostic::MissingColumn { table, column } => {
            assert_eq!(table, "orders");
            assert_eq!(column, "note");
        }
        other => panic!("unexpected {:?}", other),
    }
    match &found[2] {
        Diagnostic::MissingTable { table } => assert_eq!(table, "archive"),
        other => panic!("unexpected {:?}", other),
    }
}

#[test]
fn fill_appends_missing_columns_and_keeps_absent_tables() {
    let db = db_model();
    let mut file = file_model();
    let found = fill_table_columns(&db, &mut file);
    assert_eq!(column_names(file.get_table("orders").unwrap()), vec!["total", "note", "id"]);
    assert!(file.get_table("archive").unwrap().get_columns().is_none());
    assert_eq!(found.len(), 1);
    assert!(matches!(&found[0], Diagnostic::MissingTable { table } if table == "archive"));
}

#[test]
fn fill_twice_is_fill_once() {
    let db = db_model();
    let mut once = file_model();
    fill_table_columns(&db, &mut once);
    let mut twice = once.clone();
    fill_table_columns(&db, &mut twice);
    for (a, b) in once.get_tables().iter().zip(twice.get_tables().iter()) {
        assert_eq!(a.get_table_name(), b.get_table_name());
        assert_eq!(a.get_columns().map(|c| c.len()), b.get_columns().map(|c| c.len()));
    }
    assert_eq!(column_names(twice.get_table("orders").unwrap()), vec!["total", "note", "id"]);
}

#[test]
fn model_refuses_duplicate_table_names() {
    let mut m = Model::new("m", "m");
    assert!(m.add(Table::new("a".to_string())));
    assert!(!m.add(Table::new("a".to_string())));
    assert_eq!(m.get_tables().len(), 1);
    assert_eq!(m.display_name(), "m");
    assert_eq!(m.to_dao().model_name, "m");
}

#[test]
fn column_round_trips_through_dao() {
    let d = dao("orders", "id", "int", 1);
    let c = Column::from_dao(&d);
    assert_eq!(c.get_column_name(), "id");
    assert_eq!(c.get_type_name(), "int");
    assert_eq!(c.get_order(), 1);
    let back = c.to_dao();
    assert_eq!(back.column_name, "id");
    assert_eq!(back.data_type, "int");
    assert!(back.is_primary_key);
}

#[test]
fn fill_reports_unknown_database_columns_and_goes_on() {
    let mut db = Model::new("shop", "shop");
    db.add(Table::new("a".to_string()));
    let mut b = Table::new("b".to_string());
    b.add_columns(vec![Column::from_dao(&dao("b", "id", "int", 1))]);
    db.add(b);
    let mut file = Model::new("shop", "shop");
    let mut a = Table::new("a".to_string());
    a.add_columns(vec![Column::from_dao(&dao("a", "x", "int", 1))]);
    file.add(a);
    file.add(Table::new("b".to_string()));
    let found = fill_table_columns(&db, &mut file);
    assert!(matches!(&found[..], [Diagnostic::UnknownColumns { table }] if table == "a"));
    assert_eq!(column_names(file.get_table("a").unwrap()), vec!["x"]);
    assert_eq!(column_names(file.get_table("b").unwrap()), vec!["id"]);
}

#[test]
fn table_from_dao_keeps_its_id() {
    let mut t = TableDao::new("orders");
    t.id = Some("table:1".to_string());
    t.add_columns(vec![dao("orders", "id", "int", 1)]);
    let table = Table::from_dao(t);
    assert_eq!(table.id.as_deref(), Some("table:1"));
    assert_eq!(column_names(&table), vec!["id"]);
}

#[test]
fn stored_columns_are_keyed_by_name() {
    let mut t = TableDao::new("orders");
    t.add_columns(vec![
        dao("orders", "id", "int", 1),
        dao("orders", "total", "int", 2),
        dao("orders", "id", "bigint", 3),
    ]);
    let cols = t.columns.as_ref().unwrap();
    assert_eq!(cols.len(), 2);
    assert_eq!(cols[0].column_name, "id");
    assert_eq!(cols[0].data_type, "bigint");
    assert_eq!(cols[1].column_name, "total");
}

#[test]
fn fill_adds_each_database_name_once() {
    let tables = vec![TableDao::new("orders")];
    // A column in two foreign keys appears twice in the catalog.
    let columns = vec![
        dao("orders", "id", "int", 1),
        dao("orders", "customer", "int", 2),
        dao("orders", "customer", "int", 2),
    ];
    let db = build_model("shop", tables, &columns);
    assert_eq!(column_names(db.get_table("orders").unwrap()), vec!["id", "customer"]);
    let mut file = Model::new("shop", "shop");
    file.add(Table::new("orders".to_string()));
    fill_table_columns(&db, &mut file);
    assert_eq!(column_names(file.get_table("orders").unwrap()), vec!["id", "customer"]);
}

#[test]
fn build_model_keeps_first_table_of_a_name() {
    let mut second = TableDao::new("orders");
    second.id = Some("table:2".to_string());
    let mut first = TableDao::new("orders");
    first.id = Some("table:1".to_string());
    let db = build_model("shop", vec![first, second], &Vec::new());
    assert_eq!(db.get_tables().len(), 1);
    assert_eq!(db.get_tables()[0].id.as_deref(), Some("table:1"));
}
