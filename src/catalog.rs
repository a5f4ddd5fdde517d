//! The schema catalog: models, tables, columns and foreign keys.
use vstd::prelude::*;

verus! {

/// A reference from a column to a column of another table.
#[derive(Clone, Debug)]
pub struct ForeignKey {
    pub id: Option<String>,
    pub column_name: String,
    pub table_name: String,
    pub data_type: String,
}

impl ForeignKey {
    pub fn new(column_name: String, table_name: String, data_type: String) -> (r: Self)
        ensures
            r.id is None,
            r.column_name == column_name,
            r.table_name == table_name,
            r.data_type == data_type,
    {
        ForeignKey { id: None, column_name, table_name, data_type }
    }

    /// A copy equal to `self` in every field.
    pub fn duplicate(&self) -> (r: Self)
        ensures
            r == *self,
    {
        ForeignKey {
            id: copy_opt_string(&self.id),
            column_name: self.column_name.clone(),
            table_name: self.table_name.clone(),
            data_type: self.data_type.clone(),
        }
    }
}

pub fn copy_opt_string(s: &Option<String>) -> (r: Option<String>)
    ensures
        r == *s,
{
    match s {
        Some(v) => Some(v.clone()),
        None => None,
    }
}

pub fn copy_opt_fk(f: &Option<ForeignKey>) -> (r: Option<ForeignKey>)
    ensures
        r == *f,
{
    match f {
        Some(v) => Some(v.duplicate()),
        None => None,
    }
}

/// A column as introspected from the live database: every field is known.
#[derive(Clone, Debug)]
pub struct ColumnDao {
    pub column_name: String,
    pub table_name: String,
    pub data_type: String,
    pub precision: u8,
    pub max_length: i16,
    pub foreign_key: Option<ForeignKey>,
    pub order: i16,
    pub is_primary_key: bool,
}

impl ColumnDao {
    pub fn new(
        column_name: String,
        table_name: String,
        data_type: String,
        precision: u8,
        max_length: i16,
        foreign_key: Option<ForeignKey>,
        order: i16,
        is_primary_key: bool,
    ) -> (r: Self)
        ensures
            r == (ColumnDao {
                column_name,
                table_name,
                data_type,
                precision,
                max_length,
                foreign_key,
                order,
                is_primary_key,
            }),
    {
        ColumnDao {
            column_name,
            table_name,
            data_type,
            precision,
            max_length,
            foreign_key,
            order,
            is_primary_key,
        }
    }

    pub fn duplicate(&self) -> (r: Self)
        ensures
            r == *self,
    {
        ColumnDao {
            column_name: self.column_name.clone(),
            table_name: self.table_name.clone(),
            data_type: self.data_type.clone(),
            precision: self.precision,
            max_length: self.max_length,
            foreign_key: copy_opt_fk(&self.foreign_key),
            order: self.order,
            is_primary_key: self.is_primary_key,
        }
    }
}

/// A column of a declared model; the fields that only introspection fills may be absent.
#[derive(Clone, Debug)]
pub struct Column {
    pub column_name: String,
    pub table_name: Option<String>,
    pub data_type: Option<String>,
    pub precision: Option<u8>,
    pub max_length: Option<i16>,
    pub foreign_key: Option<ForeignKey>,
    pub order: i16,
    pub is_primary_key: bool,
}

impl Column {
    pub fn from_dao(column: &ColumnDao) -> (r: Self)
        ensures
            r == (Column {
                column_name: column.column_name,
                table_name: Some(column.table_name),
                data_type: Some(column.data_type),
                precision: Some(column.precision),
                max_length: Some(column.max_length),
                foreign_key: column.foreign_key,
                order: column.order,
                is_primary_key: column.is_primary_key,
            }),
    {
        Column {
            column_name: column.column_name.clone(),
            table_name: Some(column.table_name.clone()),
            data_type: Some(column.data_type.clone()),
            precision: Some(column.precision),
            max_length: Some(column.max_length),
            foreign_key: copy_opt_fk(&column.foreign_key),
            order: column.order,
            is_primary_key: column.is_primary_key,
        }
    }

    /// Whether every field that introspection fills is present.
    pub open spec fn is_complete(&self) -> bool {
        &&& self.table_name is Some
        &&& self.data_type is Some
        &&& self.precision is Some
        &&& self.max_length is Some
    }

    pub fn to_dao(&self) -> (r: ColumnDao)
        requires
            self.is_complete(),
        ensures
            r == (ColumnDao {
                column_name: self.column_name,
                table_name: self.table_name->Some_0,
                data_type: self.data_type->Some_0,
                precision: self.precision->Some_0,
                max_length: self.max_length->Some_0,
                foreign_key: self.foreign_key,
                order: self.order,
                is_primary_key: self.is_primary_key,
            }),
    {
        ColumnDao::new(
            self.column_name.clone(),
            self.table_name.as_ref().unwrap().clone(),
            self.data_type.as_ref().unwrap().clone(),
            *self.precision.as_ref().unwrap(),
            *self.max_length.as_ref().unwrap(),
            copy_opt_fk(&self.foreign_key),
            self.order,
            self.is_primary_key,
        )
    }

    pub fn duplicate(&self) -> (r: Self)
        ensures
            r == *self,
    {
        Column {
            column_name: self.column_name.clone(),
            table_name: copy_opt_string(&self.table_name),
            data_type: copy_opt_string(&self.data_type),
            precision: self.precision,
            max_length: self.max_length,
            foreign_key: copy_opt_fk(&self.foreign_key),
            order: self.order,
            is_primary_key: self.is_primary_key,
        }
    }

    pub fn get_column_name(&self) -> (r: &str)
        ensures
            r@ == self.column_name@,
    {
        self.column_name.as_str()
    }

    /// The declared type name, empty where the model does not declare it.
    pub fn get_type_name(&self) -> (r: &str)
        ensures
            r@ == type_text(self.data_type),
    {
        match &self.data_type {
            Some(t) => t.as_str(),
            None => {
                proof {
                    reveal_strlit("");
                }
                ""
            },
        }
    }

    pub fn get_order(&self) -> (r: i16)
        ensures
            r == self.order,
    {
        self.order
    }

    pub fn is_primary_key(&self) -> (r: bool)
        ensures
            r == self.is_primary_key,
    {
        self.is_primary_key
    }

    pub fn is_foreign_key(&self) -> (r: bool)
        ensures
            r == self.foreign_key is Some,
    {
        self.foreign_key.is_some()
    }
}

/// The text of an optional type name, empty when absent.
pub open spec fn type_text(t: Option<String>) -> Seq<char> {
    match t {
        Some(s) => s@,
        None => Seq::empty(),
    }
}

pub fn copy_columns(v: &Vec<Column>) -> (r: Vec<Column>)
    ensures
        r@ == v@,
{
    let mut r: Vec<Column> = Vec::new();
    let mut i: usize = 0;
    while i < v.len()
        invariant
            i <= v@.len(),
            r@ == v@.subrange(0, i as int),
        decreases v@.len() - i,
    {
        r.push(v[i].duplicate());
        i = i + 1;
        assert(r@ =~= v@.subrange(0, i as int));
    }
    assert(v@.subrange(0, v@.len() as int) =~= v@);
    r
}

pub fn copy_column_daos(v: &Vec<ColumnDao>) -> (r: Vec<ColumnDao>)
    ensures
        r@ == v@,
{
    let mut r: Vec<ColumnDao> = Vec::new();
    let mut i: usize = 0;
    while i < v.len()
        invariant
            i <= v@.len(),
            r@ == v@.subrange(0, i as int),
        decreases v@.len() - i,
    {
        r.push(v[i].duplicate());
        i = i + 1;
        assert(r@ =~= v@.subrange(0, i as int));
    }
    assert(v@.subrange(0, v@.len() as int) =~= v@);
    r
}

/// The column described by one row of the database's column catalog. The
/// foreign key is present when the referenced column, table and type all are;
/// a primary-key flag of 1 marks a key column.
pub fn column_from_catalog(
    column_name: String,
    table_name: String,
    data_type: String,
    precision: u8,
    max_length: i16,
    fk_column: Option<String>,
    fk_table: Option<String>,
    fk_type: Option<String>,
    primary_key_flag: i32,
    order: i16,
) -> (r: ColumnDao)
    ensures
        r.column_name == column_name,
        r.table_name == table_name,
        r.data_type == data_type,
        r.precision == precision,
        r.max_length == max_length,
        r.order == order,
        r.is_primary_key == (primary_key_flag == 1),
        match (fk_column, fk_table, fk_type) {
            (Some(c), Some(t), Some(y)) => r.foreign_key == Some(
                ForeignKey { id: None, column_name: c, table_name: t, data_type: y },
            ),
            _ => r.foreign_key is None,
        },
{
    let foreign_key = match (fk_column, fk_table, fk_type) {
        (Some(c), Some(t), Some(y)) => Some(ForeignKey::new(c, t, y)),
        _ => None,
    };
    ColumnDao::new(
        column_name,
        table_name,
        data_type,
        precision,
        max_length,
        foreign_key,
        order,
        primary_key_flag == 1,
    )
}

} // verus!
