use luna_core::catalog::{Column, ColumnDao, ForeignKey};
use luna_core::model::{Table, TableDao};
use luna_core::query::BuilderError;
use luna_core::parse::ValueKind;
use luna_core::service::ExportService;

fn create_table(table_name: &str) -> TableDao {
    let columns = vec![ColumnDao::new(
        "col1".to_string(),
        table_name.to_string(),
        String::new(),
        0,
        0,
        None,
        1,
        true,
    )];
    let mut table = TableDao::new(table_name);
    table.add_columns(columns);
    table
}

fn create_fk_table(table_name: &str, fk_table_name: &str) -> TableDao {
    let columns = vec![
        ColumnDao::new("col1".to_string(), table_name.to_string(), String::new(), 0, 0, None, 1, true),
        ColumnDao::new(
            "col2".to_string(),
            table_name.to_string(),
            String::new(),
            0,
            0,
            Some(ForeignKey::new("col1".to_string(), fk_table_name.to_string(), String::new())),
            2,
            true,
        ),
    ];
    let mut table = TableDao::new(table_name);
    table.add_columns(columns);
    table
}

fn column(name: &str, order: i16, pk: bool) -> Column {
    Column::from_dao(&ColumnDao::new(
        name.to_string(),
        "orders".to_string(),
        "int".to_string(),
        10,
        4,
        None,
        order,
        pk,
    ))
}

#[test]
fn test_sort_table() {
    let tables = vec![
        Table::from_dao(create_table("table1")),
        Table::from_dao(create_table("table2")),
        Table::from_dao(create_table("table3")),
        Table::from_dao(create_fk_table("table4", "table2")),
    ];

    let ordered_tables = ExportService::sort_tables(&tables).unwrap();

    assert_eq!(ordered_tables[0].get_table_name(), "table1");
    assert_eq!(ordered_tables[1].get_table_name(), "table4");
    assert_eq!(ordered_tables[2].get_table_name(), "table2");
    assert_eq!(ordered_tables[3].get_table_name(), "table3");
}

#[test]
fn locality_order_is_repeatable() {
    let tables = vec![
        Table::from_dao(create_fk_table("table1", "table3")),
        Table::from_dao(create_table("table2")),
        Table::from_dao(create_table("table3")),
        Table::from_dao(create_fk_table("table4", "table2")),
    ];
    let first = ExportService::sort_tables(&tables).unwrap();
    let second = ExportService::sort_tables(&tables).unwrap();
    let a: Vec<&str> = first.iter().map(|t| t.get_table_name()).collect();
    let b: Vec<&str> = second.iter().map(|t| t.get_table_name()).collect();
    assert_eq!(a, b);
    // table1 references table3, not placed yet: table3 is inserted at the
    // candidate, which does not move, so table1 lands in front of it; table4
    // lands in front of the already placed table2.
    assert_eq!(a, vec!["table1", "table3", "table4", "table2"]);
}

#[test]
fn locality_order_reports_missing_reference() {
    let tables = vec![Table::from_dao(create_fk_table("table1", "ghost"))];
    let err = ExportService::sort_tables(&tables).unwrap_err();
    assert_eq!(err.missing, vec!["ghost".to_string()]);
}

#[test]
fn table_query_orders_columns_by_ordinal() {
    let mut t = Table::new("orders".to_string());
    t.add_columns(vec![column("total", 2, false), column("id", 1, true)]);
    t.skip = Some(10);
    t.take = Some(5);
    let q = ExportService::table_query(&t).unwrap();
    assert_eq!(
        q,
        "select [id], [total]from orders order by  id offset 10 rows fetch next 5 rows only"
    );
}

#[test]
fn table_query_with_filter_and_no_pagination() {
    let mut t = Table::new("orders".to_string());
    t.add_columns(vec![column("id", 1, true)]);
    t.condition = Some("id > 3".to_string());
    assert_eq!(ExportService::table_query(&t).unwrap(), "select [id]from orders where id > 3");
}

#[test]
fn table_query_pagination_without_key_fails() {
    let mut t = Table::new("orders".to_string());
    t.add_columns(vec![column("id", 1, false)]);
    t.skip = Some(0);
    t.take = Some(1);
    assert_eq!(ExportService::table_query(&t), Err(BuilderError::MissingPrimaryKey));
}

#[test]
fn column_kinds_follow_query_columns() {
    let mut t = Table::new("orders".to_string());
    let mut total = column("total", 2, false);
    total.data_type = Some("decimal".to_string());
    let mut note = column("note", 3, false);
    note.data_type = Some("xml".to_string());
    t.add_columns(vec![note, total, column("id", 1, true)]);
    assert_eq!(
        ExportService::column_kinds(&t),
        vec![Some(ValueKind::Integer), Some(ValueKind::Decimal), None]
    );
}
