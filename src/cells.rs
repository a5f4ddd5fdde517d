//! Converting the cells that the source database returns into typed values.
use vstd::prelude::*;
use crate::parse::{ValueKind, kind_of};
use crate::value::{ColumnValue, DateTimeValue, DecimalValue};

verus! {

/// A cell as the source driver reports it, held as plain values. Floats are
/// carried as their decimal text.
#[derive(Clone, Debug)]
pub enum SourceCell {
    Bit(Option<bool>),
    I16(Option<i16>),
    I32(Option<i32>),
    I64(Option<i64>),
    U8(Option<u8>),
    F32(Option<String>),
    F64(Option<String>),
    Text(Option<String>),
    Binary(Option<Vec<u8>>),
    DateTime2(Option<DateTimeValue>),
    DateTimeOffset(Option<DateTimeValue>),
    Guid(Option<u128>),
    Numeric(Option<DecimalValue>),
    /// A driver type with no mapping, by name.
    Other(String),
}

/// A cell that has no typed value of the variant its column asks for.
#[derive(Clone, Debug)]
pub struct ConversionError {
    /// The source type's name.
    pub source_type: String,
    /// The variant the column's declared type asks for, when it names one.
    pub target: Option<ValueKind>,
}

/// The typed value of a cell, or `None` when its source type has no mapping.
pub open spec fn converted(cell: SourceCell) -> Option<ColumnValue> {
    match cell {
        SourceCell::Bit(v) => Some(ColumnValue::Bool(v)),
        SourceCell::I16(v) => Some(ColumnValue::Short(v)),
        SourceCell::I32(v) => Some(ColumnValue::Integer(v)),
        SourceCell::I64(v) => Some(ColumnValue::Long(v)),
        SourceCell::U8(v) => Some(ColumnValue::UnsignedInt(v)),
        SourceCell::F32(v) => Some(ColumnValue::Float(v)),
        SourceCell::F64(v) => Some(ColumnValue::BigFloat(v)),
        SourceCell::Text(v) => Some(ColumnValue::String(v)),
        SourceCell::Binary(_) => None,
        SourceCell::DateTime2(v) => Some(ColumnValue::DateTime2(v)),
        SourceCell::DateTimeOffset(v) => Some(ColumnValue::DateTimeOffset(v)),
        SourceCell::Guid(v) => Some(ColumnValue::Uuid(v)),
        SourceCell::Numeric(v) => Some(ColumnValue::Decimal(v)),
        SourceCell::Other(_) => None,
    }
}

/// The name of a cell's source type.
pub open spec fn source_name(cell: SourceCell) -> Seq<char> {
    match cell {
        SourceCell::Bit(_) => "bit"@,
        SourceCell::I16(_) => "smallint"@,
        SourceCell::I32(_) => "int"@,
        SourceCell::I64(_) => "bigint"@,
        SourceCell::U8(_) => "tinyint"@,
        SourceCell::F32(_) => "real"@,
        SourceCell::F64(_) => "float"@,
        SourceCell::Text(_) => "nvarchar"@,
        SourceCell::Binary(_) => "binary"@,
        SourceCell::DateTime2(_) => "datetime2"@,
        SourceCell::DateTimeOffset(_) => "datetimeoffset"@,
        SourceCell::Guid(_) => "uniqueidentifier"@,
        SourceCell::Numeric(_) => "numeric"@,
        SourceCell::Other(n) => n@,
    }
}

/// The typed value of a cell for a column asking for variant `target` (any
/// variant when `None`), if the cell has one.
pub open spec fn converted_to(cell: SourceCell, target: Option<ValueKind>) -> Option<ColumnValue> {
    match converted(cell) {
        Some(v) => if target is None || target == Some(kind_of(v)) {
            Some(v)
        } else {
            None
        },
        None => None,
    }
}

fn source_name_of(cell: &SourceCell) -> (r: String)
    ensures
        r@ == source_name(*cell),
{
    proof {
        reveal_strlit("bit");
        reveal_strlit("smallint");
        reveal_strlit("int");
        reveal_strlit("bigint");
        reveal_strlit("tinyint");
        reveal_strlit("real");
        reveal_strlit("float");
        reveal_strlit("nvarchar");
        reveal_strlit("binary");
        reveal_strlit("datetime2");
        reveal_strlit("datetimeoffset");
        reveal_strlit("uniqueidentifier");
        reveal_strlit("numeric");
    }
    match cell {
        SourceCell::Bit(_) => "bit".to_owned(),
        SourceCell::I16(_) => "smallint".to_owned(),
        SourceCell::I32(_) => "int".to_owned(),
        SourceCell::I64(_) => "bigint".to_owned(),
        SourceCell::U8(_) => "tinyint".to_owned(),
        SourceCell::F32(_) => "real".to_owned(),
        SourceCell::F64(_) => "float".to_owned(),
        SourceCell::Text(_) => "nvarchar".to_owned(),
        SourceCell::Binary(_) => "binary".to_owned(),
        SourceCell::DateTime2(_) => "datetime2".to_owned(),
        SourceCell::DateTimeOffset(_) => "datetimeoffset".to_owned(),
        SourceCell::Guid(_) => "uniqueidentifier".to_owned(),
        SourceCell::Numeric(_) => "numeric".to_owned(),
        SourceCell::Other(n) => n.clone(),
    }
}

fn kind_of_value(v: &ColumnValue) -> (r: ValueKind)
    ensures
        r == kind_of(*v),
{
    match v {
        ColumnValue::Bool(_) => ValueKind::Bool,
        ColumnValue::Short(_) => ValueKind::Short,
        ColumnValue::Integer(_) => ValueKind::Integer,
        ColumnValue::UnsignedInt(_) => ValueKind::UnsignedInt,
        ColumnValue::Float(_) => ValueKind::Float,
        ColumnValue::BigFloat(_) => ValueKind::BigFloat,
        ColumnValue::Long(_) => ValueKind::Long,
        ColumnValue::String(_) => ValueKind::String,
        ColumnValue::Uuid(_) => ValueKind::Uuid,
        ColumnValue::DateTime2(_) => ValueKind::DateTime2,
        ColumnValue::DateTimeOffset(_) => ValueKind::DateTimeOffset,
        ColumnValue::Decimal(_) => ValueKind::Decimal,
    }
}

/// Converts one cell for a column asking for variant `target` (any variant
/// when `None`). Binary data and unknown source types have no typed value; a
/// cell of another variant than the target is refused. The error names the
/// source type and the target.
pub fn to_column_value(cell: SourceCell, target: Option<ValueKind>) -> (r: Result<
    ColumnValue,
    ConversionError,
>)
    ensures
        match converted_to(cell, target) {
            Some(v) => r == Ok::<ColumnValue, ConversionError>(v),
            None => r is Err && r->Err_0.source_type@ == source_name(cell) && r->Err_0.target
                == target,
        },
{
    let name = source_name_of(&cell);
    match plain_value(cell) {
        Some(v) => {
            let fits = match target {
                None => true,
                Some(k) => k == kind_of_value(&v),
            };
            if fits {
                Ok(v)
            } else {
                Err(ConversionError { source_type: name, target })
            }
        },
        None => Err(ConversionError { source_type: name, target }),
    }
}

fn plain_value(cell: SourceCell) -> (r: Option<ColumnValue>)
    ensures
        r == converted(cell),
{
    match cell {
        SourceCell::Bit(v) => Some(ColumnValue::Bool(v)),
        SourceCell::I16(v) => Some(ColumnValue::Short(v)),
        SourceCell::I32(v) => Some(ColumnValue::Integer(v)),
        SourceCell::I64(v) => Some(ColumnValue::Long(v)),
        SourceCell::U8(v) => Some(ColumnValue::UnsignedInt(v)),
        SourceCell::F32(v) => Some(ColumnValue::Float(v)),
        SourceCell::F64(v) => Some(ColumnValue::BigFloat(v)),
        SourceCell::Text(v) => Some(ColumnValue::String(v)),
        SourceCell::Binary(_) => None,
        SourceCell::DateTime2(v) => Some(ColumnValue::DateTime2(v)),
        SourceCell::DateTimeOffset(v) => Some(ColumnValue::DateTimeOffset(v)),
        SourceCell::Guid(v) => Some(ColumnValue::Uuid(v)),
        SourceCell::Numeric(v) => Some(ColumnValue::Decimal(v)),
        SourceCell::Other(_) => None,
    }
}

/// The variant that a SQL Server type name asks for; `None` for a type without one.
pub open spec fn kind_for_type(t: Seq<char>) -> Option<ValueKind> {
    if t == "bit"@ {
        Some(ValueKind::Bool)
    } else if t == "tinyint"@ {
        Some(ValueKind::UnsignedInt)
    } else if t == "smallint"@ {
        Some(ValueKind::Short)
    } else if t == "int"@ {
        Some(ValueKind::Integer)
    } else if t == "bigint"@ {
        Some(ValueKind::Long)
    } else if t == "real"@ {
        Some(ValueKind::Float)
    } else if t == "float"@ {
        Some(ValueKind::BigFloat)
    } else if t == "decimal"@ {
        Some(ValueKind::Decimal)
    } else if t == "numeric"@ {
        Some(ValueKind::Decimal)
    } else if t == "char"@ {
        Some(ValueKind::String)
    } else if t == "varchar"@ {
        Some(ValueKind::String)
    } else if t == "nchar"@ {
        Some(ValueKind::String)
    } else if t == "nvarchar"@ {
        Some(ValueKind::String)
    } else if t == "text"@ {
        Some(ValueKind::String)
    } else if t == "ntext"@ {
        Some(ValueKind::String)
    } else if t == "uniqueidentifier"@ {
        Some(ValueKind::Uuid)
    } else if t == "datetime2"@ {
        Some(ValueKind::DateTime2)
    } else if t == "datetimeoffset"@ {
        Some(ValueKind::DateTimeOffset)
    } else {
        None
    }
}

/// The variant that a SQL Server type name asks for; `None` for a type without one.
pub fn kind_for_type_name(t: &str) -> (r: Option<ValueKind>)
    ensures
        r == kind_for_type(t@),
{
    let t = t.to_owned();
    proof {
        reveal_strlit("bit");
        reveal_strlit("tinyint");
        reveal_strlit("smallint");
        reveal_strlit("int");
        reveal_strlit("bigint");
        reveal_strlit("real");
        reveal_strlit("float");
        reveal_strlit("decimal");
        reveal_strlit("numeric");
        reveal_strlit("char");
        reveal_strlit("varchar");
        reveal_strlit("nchar");
        reveal_strlit("nvarchar");
        reveal_strlit("text");
        reveal_strlit("ntext");
        reveal_strlit("uniqueidentifier");
        reveal_strlit("datetime2");
        reveal_strlit("datetimeoffset");
    }
    if t == "bit".to_owned() {
        Some(ValueKind::Bool)
    } else if t == "tinyint".to_owned() {
        Some(ValueKind::UnsignedInt)
    } else if t == "smallint".to_owned() {
        Some(ValueKind::Short)
    } else if t == "int".to_owned() {
        Some(ValueKind::Integer)
    } else if t == "bigint".to_owned() {
        Some(ValueKind::Long)
    } else if t == "real".to_owned() {
        Some(ValueKind::Float)
    } else if t == "float".to_owned() {
        Some(ValueKind::BigFloat)
    } else if t == "decimal".to_owned() {
        Some(ValueKind::Decimal)
    } else if t == "numeric".to_owned() {
        Some(ValueKind::Decimal)
    } else if t == "char".to_owned() {
        Some(ValueKind::String)
    } else if t == "varchar".to_owned() {
        Some(ValueKind::String)
    } else if t == "nchar".to_owned() {
        Some(ValueKind::String)
    } else if t == "nvarchar".to_owned() {
        Some(ValueKind::String)
    } else if t == "text".to_owned() {
        Some(ValueKind::String)
    } else if t == "ntext".to_owned() {
        Some(ValueKind::String)
    } else if t == "uniqueidentifier".to_owned() {
        Some(ValueKind::Uuid)
    } else if t == "datetime2".to_owned() {
        Some(ValueKind::DateTime2)
    } else if t == "datetimeoffset".to_owned() {
        Some(ValueKind::DateTimeOffset)
    } else {
        None
    }
}

/// The typed values of the cells that convert for their columns' targets, in order.
pub open spec fn converted_row(cells: Seq<SourceCell>, targets: Seq<Option<ValueKind>>) -> Seq<
    ColumnValue,
>
    decreases cells.len(),
{
    if cells.len() == 0 {
        Seq::empty()
    } else {
        let k = cells.len() - 1;
        match converted_to(cells.last(), targets[k]) {
            Some(v) => converted_row(cells.drop_last(), targets).push(v),
            None => converted_row(cells.drop_last(), targets),
        }
    }
}

/// The positions of the cells that do not convert for their columns' targets, in order.
pub open spec fn failed_cells(cells: Seq<SourceCell>, targets: Seq<Option<ValueKind>>) -> Seq<usize>
    decreases cells.len(),
{
    if cells.len() == 0 {
        Seq::empty()
    } else {
        let k = cells.len() - 1;
        match converted_to(cells.last(), targets[k]) {
            Some(_) => failed_cells(cells.drop_last(), targets),
            None => failed_cells(cells.drop_last(), targets).push(k as usize),
        }
    }
}

/// Converts a row; a cell that does not convert is skipped and reported with
/// its position, and the rest of the row goes on.
pub fn convert_row(cells: Vec<SourceCell>, targets: &Vec<Option<ValueKind>>) -> (r: (
    Vec<ColumnValue>,
    Vec<(usize, ConversionError)>,
))
    requires
        cells@.len() == targets@.len(),
    ensures
        r.0@ == converted_row(cells@, targets@),
        r.1@.map_values(|f: (usize, ConversionError)| f.0) == failed_cells(cells@, targets@),
        forall|i: int|
            0 <= i < r.1@.len() ==> (#[trigger] r.1@[i]).0 < cells@.len() && r.1@[i].1.source_type@
                == source_name(cells@[r.1@[i].0 as int]) && r.1@[i].1.target
                == targets@[r.1@[i].0 as int],
{
    let ghost all = cells@;
    let n = cells.len();
    let mut values: Vec<ColumnValue> = Vec::new();
    let mut failures: Vec<(usize, ConversionError)> = Vec::new();
    let mut rest = cells;
    let mut k: usize = 0;
    while rest.len() > 0
        invariant
            k + rest@.len() == all.len(),
            all.len() == n,
            rest@ == all.subrange(k as int, all.len() as int),
            all.len() == targets@.len(),
            values@ == converted_row(all.subrange(0, k as int), targets@),
            failures@.map_values(|f: (usize, ConversionError)| f.0) == failed_cells(
                all.subrange(0, k as int),
                targets@,
            ),
            forall|i: int|
                0 <= i < failures@.len() ==> (#[trigger] failures@[i]).0 < k
                    && failures@[i].1.source_type@ == source_name(all[failures@[i].0 as int])
                    && failures@[i].1.target == targets@[failures@[i].0 as int],
        decreases rest@.len(),
    {
        let ghost f0 = failures@;
        let cell = rest.remove(0);
        proof {
            assert(cell == all[k as int]);
            assert(all.subrange(0, k + 1).drop_last() =~= all.subrange(0, k as int));
            assert(all.subrange(0, k + 1).last() == cell);
        }
        match to_column_value(cell, targets[k]) {
            Ok(v) => {
                values.push(v);
            },
            Err(e) => {
                failures.push((k, e));
                assert(failures@.map_values(|f: (usize, ConversionError)| f.0) =~= f0.map_values(
                    |f: (usize, ConversionError)| f.0,
                ).push(k));
            },
        }
        k = k + 1;
    }
    assert(all.subrange(0, k as int) =~= all);
    (values, failures)
}

} // verus!
