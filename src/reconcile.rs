//! Reconciling a declared model with the model introspected from the database.
use vstd::prelude::*;
use crate::catalog::{Column, copy_opt_string, type_text};
use crate::model::{
    Model, Table, column_names, column_position, model_table_names, table_position, unique_names,
};
use crate::names::{index_of, lemma_index_of};

verus! {

/// A finding of reconciliation; advisory, the transfer goes on.
#[derive(Clone, Debug)]
pub enum Diagnostic {
    /// A declared table is not in the database.
    MissingTable { table: String },
    /// A declared column is not in the database table.
    MissingColumn { table: String, column: String },
    /// A declared column's type differs from the database's.
    TypeMismatch { table: String, column: String, found: Option<String>, expected: Option<String> },
    /// The database table's columns are not known, so nothing was filled in.
    UnknownColumns { table: String },
}

pub open spec fn cols_of(t: Table) -> Seq<Column> {
    match t.columns {
        Some(c) => c@,
        None => Seq::empty(),
    }
}

/// The finding for one declared column of table `name`, against database table `dt`.
pub open spec fn check_column(dt: Table, name: String, c: Column) -> Seq<Diagnostic> {
    let dcols = cols_of(dt);
    let j = index_of(column_names(dcols), c.column_name@);
    if j < 0 {
        seq![Diagnostic::MissingColumn { table: name, column: c.column_name }]
    } else if c.data_type is Some && type_text(dcols[j].data_type) != type_text(c.data_type) {
        seq![
            Diagnostic::TypeMismatch {
                table: name,
                column: c.column_name,
                found: dcols[j].data_type,
                expected: c.data_type,
            },
        ]
    } else {
        Seq::empty()
    }
}

pub open spec fn check_columns(dt: Table, name: String, cols: Seq<Column>) -> Seq<Diagnostic>
    decreases cols.len(),
{
    if cols.len() == 0 {
        Seq::empty()
    } else {
        check_columns(dt, name, cols.drop_last()) + check_column(dt, name, cols.last())
    }
}

/// The findings for one declared table.
pub open spec fn check_table(db: Seq<Table>, t: Table) -> Seq<Diagnostic> {
    let i = index_of(model_table_names(db), t.name@);
    if i < 0 {
        seq![Diagnostic::MissingTable { table: t.name }]
    } else {
        check_columns(db[i], t.name, cols_of(t))
    }
}

/// The findings for the declared tables, in order.
pub open spec fn check_tables(db: Seq<Table>, file: Seq<Table>) -> Seq<Diagnostic>
    decreases file.len(),
{
    if file.len() == 0 {
        Seq::empty()
    } else {
        check_tables(db, file.drop_last()) + check_table(db, file.last())
    }
}

/// The database columns whose names the declared columns `fc` lack, in
/// database order, each name once.
pub open spec fn missing_columns(dbc: Seq<Column>, fc: Seq<Column>) -> Seq<Column>
    decreases dbc.len(),
{
    if dbc.len() == 0 {
        Seq::empty()
    } else {
        let rest = missing_columns(dbc.drop_last(), fc);
        if index_of(column_names(fc + rest), dbc.last().column_name@) < 0 {
            rest.push(dbc.last())
        } else {
            rest
        }
    }
}

/// The declared columns followed by the database columns they lack.
pub open spec fn fill_columns(dbc: Seq<Column>, fc: Seq<Column>) -> Seq<Column> {
    fc + missing_columns(dbc, fc)
}

/// `r` is table `t` after filling from the database tables `db`.
pub open spec fn filled_table(db: Seq<Table>, t: Table, r: Table) -> bool {
    let i = index_of(model_table_names(db), t.name@);
    &&& r.id == t.id
    &&& r.name == t.name
    &&& r.condition == t.condition
    &&& r.take == t.take
    &&& r.skip == t.skip
    &&& if i < 0 || db[i].columns is None {
        r.same_as(&t)
    } else {
        r.columns is Some && r.columns->Some_0@ == fill_columns(cols_of(db[i]), cols_of(t))
    }
}

/// The findings of filling `file` from `db`, in order: each table that `db`
/// lacks, and each whose database columns are unknown.
pub open spec fn fill_findings(db: Seq<Table>, file: Seq<Table>) -> Seq<Diagnostic>
    decreases file.len(),
{
    if file.len() == 0 {
        Seq::empty()
    } else {
        let rest = fill_findings(db, file.drop_last());
        let i = index_of(model_table_names(db), file.last().name@);
        if i < 0 {
            rest.push(Diagnostic::MissingTable { table: file.last().name })
        } else if db[i].columns is None {
            rest.push(Diagnostic::UnknownColumns { table: file.last().name })
        } else {
            rest
        }
    }
}

fn check_table_columns(dt: &Table, t: &Table) -> (r: Vec<Diagnostic>)
    ensures
        r@ == check_columns(*dt, t.name, cols_of(*t)),
{
    let mut r: Vec<Diagnostic> = Vec::new();
    match &t.columns {
        None => {},
        Some(cols) => {
            let mut k: usize = 0;
            while k < cols.len()
                invariant
                    t.columns == Some(*cols),
                    k <= cols@.len(),
                    r@ == check_columns(*dt, t.name, cols@.subrange(0, k as int)),
                decreases cols@.len() - k,
            {
                let c = &cols[k];
                let ghost r0 = r@;
                let ghost dcols = cols_of(*dt);
                let empty: Vec<Column> = Vec::new();
                let dc: &Vec<Column> = match &dt.columns {
                    Some(v) => v,
                    None => &empty,
                };
                assert(dc@ == dcols);
                proof {
                    lemma_index_of(column_names(dcols), c.column_name@);
                }
                match column_position(dc, &c.column_name) {
                    None => {
                        r.push(
                            Diagnostic::MissingColumn {
                                table: t.name.clone(),
                                column: c.column_name.clone(),
                            },
                        );
                        assert(r@ =~= r0 + check_column(*dt, t.name, *c));
                    },
                    Some(j) => {
                        let differs = match (&dc[j].data_type, &c.data_type) {
                            (Some(a), Some(b)) => !(*a == *b),
                            (None, Some(b)) => b.as_str().unicode_len() != 0,
                            _ => false,
                        };
                        if differs {
                            r.push(
                                Diagnostic::TypeMismatch {
                                    table: t.name.clone(),
                                    column: c.column_name.clone(),
                                    found: copy_opt_string(&dc[j].data_type),
                                    expected: copy_opt_string(&c.data_type),
                                },
                            );
                            assert(r@ =~= r0 + check_column(*dt, t.name, *c));
                        } else {
                            assert(dc@[j as int] == dcols[j as int]);
                            assert(c.data_type is None || type_text(dcols[j as int].data_type)
                                =~= type_text(c.data_type));
                            assert(check_column(*dt, t.name, *c) =~= Seq::<Diagnostic>::empty());
                            assert(r@ =~= r0 + check_column(*dt, t.name, *c));
                        }
                    },
                }
                proof {
                    assert(cols@.subrange(0, k + 1).drop_last() =~= cols@.subrange(0, k as int));
                }
                k = k + 1;
            }
            assert(cols@.subrange(0, k as int) =~= cols@);
        },
    }
    r
}

/// Checks each declared table of `file_model` against `db_model`: a missing
/// table, a missing column or a column whose declared type differs.
pub fn check_model(db_model: &Model, file_model: &Model) -> (r: Vec<Diagnostic>)
    ensures
        r@ == check_tables(db_model.tables@, file_model.tables@),
{
    let ghost db = db_model.tables@;
    let ghost file = file_model.tables@;
    let mut r: Vec<Diagnostic> = Vec::new();
    let mut k: usize = 0;
    while k < file_model.tables.len()
        invariant
            db == db_model.tables@,
            file == file_model.tables@,
            k <= file.len(),
            r@ == check_tables(db, file.subrange(0, k as int)),
        decreases file.len() - k,
    {
        let t = &file_model.tables[k];
        let ghost r0 = r@;
        proof {
            lemma_index_of(model_table_names(db), t.name@);
        }
        match table_position(&db_model.tables, &t.name) {
            None => {
                r.push(Diagnostic::MissingTable { table: t.name.clone() });
            },
            Some(i) => {
                let mut found = check_table_columns(&db_model.tables[i], t);
                r.append(&mut found);
            },
        }
        proof {
            assert(r@ =~= r0 + check_table(db, *t));
            assert(file.subrange(0, k + 1).drop_last() =~= file.subrange(0, k as int));
        }
        k = k + 1;
    }
    assert(file.subrange(0, k as int) =~= file);
    r
}

/// `fc` followed by the database columns whose names it lacks.
fn filled_columns(dbc: &Vec<Column>, fc: Vec<Column>) -> (r: Vec<Column>)
    ensures
        r@ == fill_columns(dbc@, fc@),
{
    let ghost f0 = fc@;
    let mut r = fc;
    let mut k: usize = 0;
    assert(r@ =~= f0 + missing_columns(dbc@.subrange(0, 0), f0));
    while k < dbc.len()
        invariant
            k <= dbc@.len(),
            r@ == f0 + missing_columns(dbc@.subrange(0, k as int), f0),
        decreases dbc@.len() - k,
    {
        proof {
            assert(dbc@.subrange(0, k + 1).drop_last() =~= dbc@.subrange(0, k as int));
            assert(dbc@.subrange(0, k + 1).last() == dbc@[k as int]);
        }
        let ghost r0 = r@;
        match column_position(&r, &dbc[k].column_name) {
            None => {
                r.push(dbc[k].duplicate());
                assert(r@ =~= r0.push(dbc@[k as int]));
            },
            Some(_) => {},
        }
        k = k + 1;
    }
    assert(dbc@.subrange(0, k as int) =~= dbc@);
    r
}

fn fill_table(db: &Vec<Table>, t: &Table) -> (r: Table)
    ensures
        filled_table(db@, *t, r),
{
    proof {
        lemma_index_of(model_table_names(db@), t.name@);
    }
    match table_position(db, &t.name) {
        None => t.duplicate(),
        Some(i) => {
            let dbc: &Vec<Column> = match &db[i].columns {
                Some(v) => v,
                None => {
                    return t.duplicate();
                },
            };
            let declared: Vec<Column> = match &t.columns {
                Some(v) => crate::catalog::copy_columns(v),
                None => Vec::new(),
            };
            let cols = filled_columns(dbc, declared);
            Table {
                id: copy_opt_string(&t.id),
                name: t.name.clone(),
                condition: copy_opt_string(&t.condition),
                take: t.take,
                skip: t.skip,
                columns: Some(cols),
            }
        },
    }
}

/// Appends to each declared table the database columns that it lacks. A
/// table that the database lacks, or whose database columns are unknown, is
/// left as it is and reported; every other table is still filled.
pub fn fill_table_columns(db_model: &Model, file_model: &mut Model) -> (r: Vec<Diagnostic>)
    ensures
        final(file_model).id == old(file_model).id,
        final(file_model).name == old(file_model).name,
        final(file_model).model_name == old(file_model).model_name,
        final(file_model).tables@.len() == old(file_model).tables@.len(),
        forall|k: int|
            0 <= k < old(file_model).tables@.len() ==> filled_table(
                db_model.tables@,
                #[trigger] old(file_model).tables@[k],
                final(file_model).tables@[k],
            ),
        r@ == fill_findings(db_model.tables@, old(file_model).tables@),
{
    let ghost file = file_model.tables@;
    let mut out: Vec<Table> = Vec::new();
    let mut r: Vec<Diagnostic> = Vec::new();
    let mut k: usize = 0;
    while k < file_model.tables.len()
        invariant
            file == file_model.tables@,
            k <= file.len(),
            out@.len() == k,
            forall|j: int|
                0 <= j < k ==> filled_table(db_model.tables@, #[trigger] file[j], out@[j]),
            r@ == fill_findings(db_model.tables@, file.subrange(0, k as int)),
        decreases file.len() - k,
    {
        let t = &file_model.tables[k];
        proof {
            assert(file.subrange(0, k + 1).drop_last() =~= file.subrange(0, k as int));
            lemma_index_of(model_table_names(db_model.tables@), t.name@);
        }
        match table_position(&db_model.tables, &t.name) {
            None => {
                r.push(Diagnostic::MissingTable { table: t.name.clone() });
            },
            Some(i) => {
                if db_model.tables[i].columns.is_none() {
                    r.push(Diagnostic::UnknownColumns { table: t.name.clone() });
                }
            },
        }
        out.push(fill_table(&db_model.tables, t));
        k = k + 1;
    }
    assert(file.subrange(0, k as int) =~= file);
    file_model.tables = out;
    r
}

/// After filling, every database column's name is among the columns.
proof fn lemma_fill_covers(dbc: Seq<Column>, fc: Seq<Column>)
    ensures
        forall|i: int|
            0 <= i < dbc.len() ==> index_of(
                column_names(fill_columns(dbc, fc)),
                #[trigger] dbc[i].column_name@,
            ) >= 0,
    decreases dbc.len(),
{
    if dbc.len() > 0 {
        let d0 = dbc.drop_last();
        lemma_fill_covers(d0, fc);
        let f0 = fill_columns(d0, fc);
        let f = fill_columns(dbc, fc);
        assert forall|i: int| 0 <= i < dbc.len() implies index_of(
            column_names(f),
            #[trigger] dbc[i].column_name@,
        ) >= 0 by {
            let n = dbc[i].column_name@;
            lemma_index_of(column_names(f), n);
            if i < dbc.len() - 1 {
                assert(d0[i] == dbc[i]);
                lemma_index_of(column_names(f0), n);
                let j = index_of(column_names(f0), n);
                assert(f[j] == f0[j]);
                assert(column_names(f)[j] == n);
            } else {
                let g = fc + missing_columns(d0, fc);
                assert(g =~= f0);
                lemma_index_of(column_names(g), n);
                let k = index_of(column_names(g), n);
                if k >= 0 {
                    assert(f[k] == g[k]);
                    assert(column_names(f)[k] == n);
                } else {
                    assert(f[f.len() - 1] == dbc.last());
                    assert(column_names(f)[f.len() - 1] == n);
                }
            }
        }
    }
}

/// Nothing is missing from columns that already hold every database column's name.
proof fn lemma_nothing_missing(d: Seq<Column>, f: Seq<Column>)
    requires
        forall|i: int|
            0 <= i < d.len() ==> index_of(column_names(f), #[trigger] d[i].column_name@) >= 0,
    ensures
        missing_columns(d, f) == Seq::<Column>::empty(),
    decreases d.len(),
{
    if d.len() > 0 {
        let d0 = d.drop_last();
        assert forall|i: int| 0 <= i < d0.len() implies index_of(
            column_names(f),
            #[trigger] d0[i].column_name@,
        ) >= 0 by {
            assert(d0[i] == d[i]);
        }
        lemma_nothing_missing(d0, f);
        assert(d[d.len() - 1] == d.last());
        assert(f + missing_columns(d0, f) =~= f);
    }
}

/// Filling keeps column names unique, and every column filled in is a
/// database column.
proof fn lemma_fill_unique(dbc: Seq<Column>, fc: Seq<Column>)
    requires
        unique_names(column_names(fc)),
    ensures
        unique_names(column_names(fill_columns(dbc, fc))),
        forall|i: int|
            fc.len() <= i < fill_columns(dbc, fc).len() ==> dbc.contains(
                #[trigger] fill_columns(dbc, fc)[i],
            ),
    decreases dbc.len(),
{
    if dbc.len() > 0 {
        let d0 = dbc.drop_last();
        lemma_fill_unique(d0, fc);
        let g = fill_columns(d0, fc);
        let f = fill_columns(dbc, fc);
        let c = dbc.last();
        if index_of(column_names(g), c.column_name@) < 0 {
            lemma_index_of(column_names(g), c.column_name@);
            assert(f =~= g.push(c));
            assert forall|i: int, j: int| 0 <= i < j < f.len() implies column_names(f)[i]
                != column_names(f)[j] by {
                if j == f.len() - 1 {
                    assert(column_names(g)[i] == column_names(f)[i]);
                } else {
                    assert(column_names(g)[i] == column_names(f)[i]);
                    assert(column_names(g)[j] == column_names(f)[j]);
                }
            }
            assert forall|i: int| fc.len() <= i < f.len() implies dbc.contains(#[trigger] f[i]) by {
                if i < g.len() {
                    assert(f[i] == g[i]);
                    let j = choose|j: int| 0 <= j < d0.len() && d0[j] == g[i];
                    assert(dbc[j] == d0[j]);
                } else {
                    assert(dbc[dbc.len() - 1] == c);
                }
            }
        } else {
            assert(f =~= g);
            assert forall|i: int| fc.len() <= i < f.len() implies dbc.contains(#[trigger] f[i]) by {
                let j = choose|j: int| 0 <= j < d0.len() && d0[j] == g[i];
                assert(dbc[j] == d0[j]);
            }
        }
    }
}

/// Filling gives every database column's name exactly once, keeps the
/// declared columns first and adds only database columns, when the declared
/// names are unique.
pub proof fn lemma_fill_names(dbc: Seq<Column>, fc: Seq<Column>)
    requires
        unique_names(column_names(fc)),
    ensures
        unique_names(column_names(fill_columns(dbc, fc))),
        fill_columns(dbc, fc).subrange(0, fc.len() as int) == fc,
        forall|i: int|
            fc.len() <= i < fill_columns(dbc, fc).len() ==> dbc.contains(
                #[trigger] fill_columns(dbc, fc)[i],
            ),
        forall|i: int|
            0 <= i < dbc.len() ==> index_of(
                column_names(fill_columns(dbc, fc)),
                #[trigger] dbc[i].column_name@,
            ) >= 0,
{
    lemma_fill_unique(dbc, fc);
    lemma_fill_covers(dbc, fc);
    assert(fill_columns(dbc, fc).subrange(0, fc.len() as int) =~= fc);
}

/// Filling the declared columns `fc` a second time from the same database
/// columns `dbc` adds nothing: the result is the result of filling once.
pub proof fn lemma_fill_idempotent(dbc: Seq<Column>, fc: Seq<Column>)
    ensures
        fill_columns(dbc, fill_columns(dbc, fc)) == fill_columns(dbc, fc),
{
    lemma_fill_covers(dbc, fc);
    lemma_nothing_missing(dbc, fill_columns(dbc, fc));
    assert(fill_columns(dbc, fill_columns(dbc, fc)) =~= fill_columns(dbc, fc));
}

/// Filling a table twice from the same database tables gives the table that
/// filling once gives: same name, filter, pagination and column sequence.
pub proof fn lemma_fill_table_twice(db: Seq<Table>, t: Table, once: Table, twice: Table)
    requires
        filled_table(db, t, once),
        filled_table(db, once, twice),
    ensures
        twice.same_as(&once),
{
    let i = index_of(model_table_names(db), t.name@);
    if i >= 0 && db[i].columns is Some {
        lemma_fill_idempotent(cols_of(db[i]), cols_of(t));
    }
}

} // verus!
