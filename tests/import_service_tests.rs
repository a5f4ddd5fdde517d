use luna_core::catalog::{ColumnDao, ForeignKey};
use luna_core::model::TableDao;
use luna_core::service::ImportService;

fn create_table(table_name: &str) -> TableDao {
    let columns = vec![ColumnDao::new(
        "col1".to_string(),
        table_name.to_string(),
        String::new(),
        0,
        0,
        None,
        1,
        true,
    )];
    let mut table = TableDao::new(table_name);
    table.add_columns(columns);
    table
}

fn create_fk_table(table_name: &str, fk_table_name: &str) -> TableDao {
    let columns = vec![
        create_column(table_name, "col1", 1, true),
        create_fk_column(table_name, fk_table_name, "col2", "col1", 2, true),
    ];
    let mut table = TableDao::new(table_name);
    table.add_columns(columns);
    table
}

fn create_two_fks_table(table_name: &str, fk_table_name1: &str, fk_table_name2: &str) -> TableDao {
    let columns = vec![
        create_column(table_name, "col1", 1, true),
        create_fk_column(table_name, fk_table_name1, "col2", "col1", 2, true),
        create_fk_column(table_name, fk_table_name2, "col3", "col1", 3, true),
    ];
    let mut table = TableDao::new(table_name);
    table.add_columns(columns);
    table
}

fn create_column(table_name: &str, column_name: &str, order: i16, is_primary_key: bool) -> ColumnDao {
    ColumnDao::new(
        column_name.to_string(),
        table_name.to_string(),
        String::new(),
        0,
        0,
        None,
        order,
        is_primary_key,
    )
}

fn create_fk_column(
    table_name: &str,
    fk_table_name: &str,
    column_name: &str,
    fk_column_name: &str,
    order: i16,
    is_primary_key: bool,
) -> ColumnDao {
    ColumnDao::new(
        column_name.to_string(),
        table_name.to_string(),
        String::new(),
        0,
        0,
        Some(ForeignKey::new(fk_column_name.to_string(), fk_table_name.to_string(), String::new())),
        order,
        is_primary_key,
    )
}

fn names(tables: &[TableDao]) -> Vec<&str> {
    tables.iter().map(|t| t.name.as_str()).collect()
}

#[test]
fn sort_tables_without_fk() {
    let tables = vec![
        create_table("table1"),
        create_table("table2"),
        create_table("table3"),
        create_table("table4"),
    ];

    let ordered_tables = ImportService::sort_tables(&tables).unwrap();

    assert_eq!(ordered_tables[0].name, "table1");
    assert_eq!(ordered_tables[1].name, "table2");
    assert_eq!(ordered_tables[2].name, "table3");
    assert_eq!(ordered_tables[3].name, "table4");
}

#[test]
fn sort_tables_one_fk() {
    let tables = vec![
        create_table("table1"),
        create_table("table2"),
        create_table("table3"),
        create_fk_table("table4", "table2"),
    ];

    let ordered_tables = ImportService::sort_tables(&tables).unwrap();

    assert_eq!(ordered_tables[0].name, "table1");
    assert_eq!(ordered_tables[1].name, "table2");
    assert_eq!(ordered_tables[2].name, "table4");
    assert_eq!(ordered_tables[3].name, "table3");
}

#[test]
fn sort_tables_two_fks() {
    let tables = vec![
        create_fk_table("table1", "table3"),
        create_table("table2"),
        create_table("table3"),
        create_fk_table("table4", "table2"),
    ];

    let ordered_tables = ImportService::sort_tables(&tables).unwrap();

    assert_eq!(ordered_tables[0].name, "table3");
    assert_eq!(ordered_tables[1].name, "table1");
    assert_eq!(ordered_tables[2].name, "table2");
    assert_eq!(ordered_tables[3].name, "table4");
}

#[test]
fn sort_tables_with_two_fks_same_table() {
    let tables = vec![
        create_table("table1"),
        create_two_fks_table("table2", "table1", "table4"),
        create_table("table3"),
        create_table("table4"),
    ];

    let ordered_tables = ImportService::sort_tables(&tables).unwrap();

    assert_eq!(ordered_tables[0].name, "table1");
    assert_eq!(ordered_tables[1].name, "table4");
    assert_eq!(ordered_tables[2].name, "table2");
    assert_eq!(ordered_tables[3].name, "table3");
}

// Foreign keys are taken in column order, so table2 is placed after table4 exactly
// as in the previous case; table5 then lands right after table1.
#[test]
fn sort_tables_with_two_fks_same_table_and_one_fk() {
    let tables = vec![
        create_table("table1"),
        create_two_fks_table("table2", "table1", "table4"),
        create_table("table3"),
        create_table("table4"),
        create_fk_table("table5", "table1"),
    ];

    let ordered_tables = ImportService::sort_tables(&tables).unwrap();

    assert_eq!(ordered_tables[0].name, "table1");
    assert_eq!(ordered_tables[1].name, "table5");
    assert_eq!(ordered_tables[2].name, "table4");
    assert_eq!(ordered_tables[3].name, "table2");
    assert_eq!(ordered_tables[4].name, "table3");
}

#[test]
fn constraint_safe_order_is_repeatable() {
    let tables = vec![
        create_fk_table("table1", "table3"),
        create_table("table2"),
        create_table("table3"),
        create_fk_table("table4", "table2"),
    ];
    let first = ImportService::sort_tables(&tables).unwrap();
    let second = ImportService::sort_tables(&tables).unwrap();
    assert_eq!(names(&first), names(&second));
}

#[test]
fn constraint_safe_order_puts_reference_first() {
    let tables = vec![
        create_fk_table("orders", "customers"),
        create_table("customers"),
        create_fk_table("lines", "orders"),
    ];
    let ordered = ImportService::sort_tables(&tables).unwrap();
    assert_eq!(names(&ordered), vec!["customers", "orders", "lines"]);
}

#[test]
fn unresolved_reference_is_an_error() {
    let tables = vec![
        create_table("table1"),
        create_fk_table("table2", "nowhere"),
        create_fk_table("table3", "elsewhere"),
    ];
    let err = ImportService::sort_tables(&tables).unwrap_err();
    assert_eq!(err.missing, vec!["nowhere".to_string(), "elsewhere".to_string()]);
}

#[test]
fn empty_table_list_orders_to_empty() {
    let tables: Vec<TableDao> = Vec::new();
    assert!(ImportService::sort_tables(&tables).unwrap().is_empty());
}

#[test]
fn duplicate_table_names_are_placed_once() {
    let tables = vec![create_table("table1"), create_table("table1"), create_table("table2")];
    let ordered = ImportService::sort_tables(&tables).unwrap();
    assert_eq!(names(&ordered), vec!["table1", "table2"]);
}

#[test]
fn foreign_keys_are_taken_by_ordinal() {
    // table2's columns are stored out of ordinal order: the key to table4 has
    // ordinal 3 and is stored first, the key to table1 has ordinal 2.
    let mut table2 = TableDao::new("table2");
    table2.add_columns(vec![
        create_fk_column("table2", "table4", "col3", "col1", 3, true),
        create_column("table2", "col1", 1, true),
        create_fk_column("table2", "table1", "col2", "col1", 2, true),
    ]);
    let tables = vec![create_table("table1"), table2, create_table("table3"), create_table("table4")];
    let ordered = ImportService::sort_tables(&tables).unwrap();
    assert_eq!(names(&ordered), vec!["table1", "table4", "table2", "table3"]);
}
