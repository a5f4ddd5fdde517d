//! The export and import services' table ordering.
use vstd::prelude::*;
use crate::catalog::{Column, ColumnDao};
use crate::model::{
    Table, TableDao, column_orders, dao_orders, is_ordinal_order, ordinal_order, ordinal_sorted,
    permuted,
};
use crate::query::{
    BuilderError, DataInsertQueryBuilder, DataQueryBuilder, Query, all_wf, insert_text,
    literal_text, select_text, str_seqs,
};
use crate::value::ColumnValue;
use crate::catalog::type_text;
use crate::cells::{kind_for_type, kind_for_type_name};
use crate::parse::ValueKind;
use crate::resolver::{
    DependencyError, OrderPolicy, resolve_order, str_views, ref_views, table_order, valid_order,
    placed, placed_until, place_refs, named_before,
    lemma_constraint_safe_reference_first_in_input, lemma_locality_last_reference_first,
};
use crate::names::index_of;

verus! {

pub open spec fn dao_names(ts: Seq<TableDao>) -> Seq<Seq<char>> {
    ts.map_values(|t: TableDao| t.name@)
}

pub open spec fn dao_refs(ts: Seq<TableDao>) -> Seq<Seq<Seq<char>>> {
    ts.map_values(|t: TableDao| t.refs())
}

pub open spec fn table_names(ts: Seq<Table>) -> Seq<Seq<char>> {
    ts.map_values(|t: Table| t.name@)
}

pub open spec fn table_refs(ts: Seq<Table>) -> Seq<Seq<Seq<char>>> {
    ts.map_values(|t: Table| t.refs())
}

/// A destination of replayed data (a file, a database): it is opened once,
/// then receives one statement or comment line at a time.
pub trait Provider {
    fn open_connection(&mut self) -> Result<(), String>;

    fn send(&mut self, data: &str) -> Result<(), String>;
}

/// A provider together with the record of what was handed to it: every call
/// of its `send` with the text handed over and the error it returned, if any.
pub struct Delivery<P: Provider> {
    pub sink: P,
    acknowledged: Ghost<Seq<Seq<char>>>,
    log: Ghost<Seq<(Seq<char>, Option<Seq<char>>)>>,
}

impl<P: Provider> Delivery<P> {
    /// What the provider has acknowledged through this delivery, in order.
    pub closed spec fn sent(&self) -> Seq<Seq<char>> {
        self.acknowledged@
    }

    /// Every call of the provider's `send` through this delivery, in order:
    /// the text handed over, and the error returned (`None` on success).
    pub closed spec fn attempts(&self) -> Seq<(Seq<char>, Option<Seq<char>>)> {
        self.log@
    }

    pub fn new(sink: P) -> (r: Self)
        ensures
            r.sent() == Seq::<Seq<char>>::empty(),
            r.attempts() == Seq::<(Seq<char>, Option<Seq<char>>)>::empty(),
    {
        Delivery { sink, acknowledged: Ghost(Seq::empty()), log: Ghost(Seq::empty()) }
    }

    /// Hands `data` to the provider's `send` and returns what it returned; the
    /// call is logged with its outcome, and what it acknowledges is recorded
    /// after what it acknowledged before.
    pub fn send(&mut self, data: &str) -> (r: Result<(), String>)
        ensures
            final(self).attempts() == old(self).attempts().push(
                (
                    data@,
                    match r {
                        Ok(_) => None,
                        Err(e) => Some(e@),
                    },
                ),
            ),
            r is Ok ==> final(self).sent() == old(self).sent().push(data@),
            r is Err ==> final(self).sent() == old(self).sent(),
    {
        let r = self.sink.send(data);
        match &r {
            Ok(_) => {
                self.acknowledged = Ghost(self.acknowledged@.push(data@));
                self.log = Ghost(self.log@.push((data@, None)));
            },
            Err(e) => {
                self.log = Ghost(self.log@.push((data@, Some(e@))));
            },
        }
        r
    }
}

/// The positions listed in `failed`, in order.
pub open spec fn positions(failed: Seq<(usize, String)>) -> Seq<usize> {
    failed.map_values(|f: (usize, String)| f.0)
}

/// The statements of `stmts` whose positions are not among `failed`, in order.
pub open spec fn delivered(stmts: Seq<Seq<char>>, failed: Seq<usize>) -> Seq<Seq<char>>
    decreases stmts.len(),
{
    if stmts.len() == 0 {
        Seq::empty()
    } else {
        let rest = delivered(stmts.drop_last(), failed);
        if failed.contains((stmts.len() - 1) as usize) {
            rest
        } else {
            rest.push(stmts.last())
        }
    }
}

/// A failure at a position past the statements changes nothing delivered.
proof fn lemma_delivered_later_failure(stmts: Seq<Seq<char>>, failed: Seq<usize>, k: usize)
    requires
        stmts.len() <= k,
    ensures
        delivered(stmts, failed.push(k)) == delivered(stmts, failed),
    decreases stmts.len(),
{
    if stmts.len() > 0 {
        lemma_delivered_later_failure(stmts.drop_last(), failed, k);
        let i = (stmts.len() - 1) as usize;
        if failed.push(k).contains(i) {
            let j = choose|j: int| 0 <= j < failed.push(k).len() && failed.push(k)[j] == i;
            if j < failed.len() {
                assert(failed[j] == i);
            }
        }
        if failed.contains(i) {
            let j = choose|j: int| 0 <= j < failed.len() && failed[j] == i;
            assert(failed.push(k)[j] == i);
        }
    }
}

/// `r` is what ordering `tables` by `policy` gives: the tables in the order
/// of `table_order`, or the unresolved references.
pub open spec fn ordered_tables(
    tables: Seq<Table>,
    policy: OrderPolicy,
    r: Result<Seq<Table>, Seq<Seq<char>>>,
) -> bool {
    let (o, m) = table_order(table_names(tables), table_refs(tables), policy);
    match r {
        Ok(v) => m.len() == 0 && v.len() == o.len() && forall|i: int|
            0 <= i < o.len() ==> o[i] < tables.len() && #[trigger] v[i].same_as(
                &tables[o[i] as int],
            ),
        Err(missing) => m.len() > 0 && missing == m,
    }
}

/// `r` is what ordering `tables` by `policy` gives: the tables in the order
/// of `table_order`, or the unresolved references.
pub open spec fn ordered_daos(
    tables: Seq<TableDao>,
    policy: OrderPolicy,
    r: Result<Seq<TableDao>, Seq<Seq<char>>>,
) -> bool {
    let (o, m) = table_order(dao_names(tables), dao_refs(tables), policy);
    match r {
        Ok(v) => m.len() == 0 && v.len() == o.len() && forall|i: int|
            0 <= i < o.len() ==> o[i] < tables.len() && #[trigger] v[i].same_as(
                &tables[o[i] as int],
            ),
        Err(missing) => m.len() > 0 && missing == m,
    }
}

pub open spec fn result_view<T>(r: Result<Vec<T>, DependencyError>) -> Result<Seq<T>, Seq<Seq<char>>> {
    match r {
        Ok(v) => Ok(v@),
        Err(e) => Err(str_views(e.missing@)),
    }
}

/// Ordering is repeatable: two results allowed for the same tables and
/// policy agree, table by table.
pub proof fn lemma_ordering_repeatable(
    tables: Seq<Table>,
    policy: OrderPolicy,
    r1: Result<Seq<Table>, Seq<Seq<char>>>,
    r2: Result<Seq<Table>, Seq<Seq<char>>>,
)
    requires
        ordered_tables(tables, policy, r1),
        ordered_tables(tables, policy, r2),
    ensures
        match (r1, r2) {
            (Ok(a), Ok(b)) => a.len() == b.len() && forall|i: int|
                0 <= i < a.len() ==> #[trigger] a[i].same_as(&b[i]),
            (Err(x), Err(y)) => x == y,
            _ => false,
        },
{
    let (o, m) = table_order(table_names(tables), table_refs(tables), policy);
    if r1 is Ok && r2 is Ok {
        let a = r1->Ok_0;
        let b = r2->Ok_0;
        assert forall|i: int| 0 <= i < a.len() implies #[trigger] a[i].same_as(&b[i]) by {
            assert(a[i].same_as(&tables[o[i] as int]));
            assert(b[i].same_as(&tables[o[i] as int]));
        }
    }
}

/// Ordering is repeatable: two results allowed for the same stored tables
/// and policy agree, table by table.
pub proof fn lemma_dao_ordering_repeatable(
    tables: Seq<TableDao>,
    policy: OrderPolicy,
    r1: Result<Seq<TableDao>, Seq<Seq<char>>>,
    r2: Result<Seq<TableDao>, Seq<Seq<char>>>,
)
    requires
        ordered_daos(tables, policy, r1),
        ordered_daos(tables, policy, r2),
    ensures
        match (r1, r2) {
            (Ok(a), Ok(b)) => a.len() == b.len() && forall|i: int|
                0 <= i < a.len() ==> #[trigger] a[i].same_as(&b[i]),
            (Err(x), Err(y)) => x == y,
            _ => false,
        },
{
    let (o, m) = table_order(dao_names(tables), dao_refs(tables), policy);
    if r1 is Ok && r2 is Ok {
        let a = r1->Ok_0;
        let b = r2->Ok_0;
        assert forall|i: int| 0 <= i < a.len() implies #[trigger] a[i].same_as(&b[i]) by {
            assert(a[i].same_as(&tables[o[i] as int]));
            assert(b[i].same_as(&tables[o[i] as int]));
        }
    }
}

/// The names of an ordering's result are the names that `table_order` places.
proof fn lemma_ordered_names(tables: Seq<Table>, policy: OrderPolicy, v: Seq<Table>)
    requires
        ordered_tables(tables, policy, Ok(v)),
    ensures
        table_names(v) == placed(
            table_names(tables),
            table_order(table_names(tables), table_refs(tables), policy).0,
        ),
{
    let o = table_order(table_names(tables), table_refs(tables), policy).0;
    assert forall|i: int| 0 <= i < v.len() implies table_names(v)[i] == placed(
        table_names(tables),
        o,
    )[i] by {
        assert(v[i].same_as(&tables[o[i] as int]));
    }
    assert(table_names(v) =~= placed(table_names(tables), o));
}

proof fn lemma_ordered_dao_names(tables: Seq<TableDao>, policy: OrderPolicy, v: Seq<TableDao>)
    requires
        ordered_daos(tables, policy, Ok(v)),
    ensures
        dao_names(v) == placed(
            dao_names(tables),
            table_order(dao_names(tables), dao_refs(tables), policy).0,
        ),
{
    let o = table_order(dao_names(tables), dao_refs(tables), policy).0;
    assert forall|i: int| 0 <= i < v.len() implies dao_names(v)[i] == placed(
        dao_names(tables),
        o,
    )[i] by {
        assert(v[i].same_as(&tables[o[i] as int]));
    }
    assert(dao_names(v) =~= placed(dao_names(tables), o));
}

/// In the tables that `ExportService::sort_tables` returns, a table that no
/// earlier input table names or references, whose last-visited foreign key
/// (by ordinal) references a table already placed at that moment, comes
/// before that table.
pub proof fn lemma_export_order_dependent_first(tables: Seq<Table>, v: Seq<Table>, k: int)
    requires
        tables.len() <= usize::MAX,
        ordered_tables(tables, OrderPolicy::Locality, Ok(v)),
        0 <= k < tables.len(),
        tables[k].refs().len() >= 1,
        tables[k].refs().last() != tables[k].name@,
        !named_before(table_names(tables), table_refs(tables), k, tables[k].name@),
        ({
            let names = table_names(tables);
            let refs = table_refs(tables);
            let (o0, m0) = placed_until(names, refs, OrderPolicy::Locality, k);
            let (o, q, m) = place_refs(
                names,
                OrderPolicy::Locality,
                o0,
                o0.len() as int,
                m0,
                refs[k].drop_last(),
            );
            &&& index_of(placed(names, o), names[k]) < 0
            &&& index_of(placed(names, o), refs[k].last()) >= 0
        }),
    ensures
        0 <= index_of(table_names(v), tables[k].name@) < index_of(
            table_names(v),
            tables[k].refs().last(),
        ),
{
    assert(table_names(tables)[k] == tables[k].name@);
    assert(table_refs(tables)[k] == tables[k].refs());
    lemma_locality_last_reference_first(table_names(tables), table_refs(tables), k);
    lemma_ordered_names(tables, OrderPolicy::Locality, v);
}

/// In the tables that `ImportService::sort_tables` returns, a table with one
/// foreign key, to another table of the input, that no earlier input table
/// names or references, comes after the table it references.
pub proof fn lemma_import_order_reference_first(tables: Seq<TableDao>, v: Seq<TableDao>, k: int)
    requires
        tables.len() <= usize::MAX,
        ordered_daos(tables, OrderPolicy::ConstraintSafe, Ok(v)),
        0 <= k < tables.len(),
        tables[k].refs().len() == 1,
        tables[k].refs()[0] != tables[k].name@,
        index_of(dao_names(tables), tables[k].refs()[0]) >= 0,
        !named_before(dao_names(tables), dao_refs(tables), k, tables[k].name@),
    ensures
        0 <= index_of(dao_names(v), tables[k].refs()[0]) < index_of(
            dao_names(v),
            tables[k].name@,
        ),
{
    assert(dao_names(tables)[k] == tables[k].name@);
    assert(dao_refs(tables)[k] == tables[k].refs());
    lemma_constraint_safe_reference_first_in_input(dao_names(tables), dao_refs(tables), k);
    lemma_ordered_dao_names(tables, OrderPolicy::ConstraintSafe, v);
}

/// Extraction of data from the source database into the store.
pub struct ExportService {}

/// Replay of stored data into a sink.
pub struct ImportService {}

impl ExportService {
    /// The tables in locality order: a table that references an already
    /// placed table is put right in front of it.
    pub fn sort_tables(tables: &Vec<Table>) -> (r: Result<Vec<Table>, DependencyError>)
        ensures
            ordered_tables(tables@, OrderPolicy::Locality, result_view(r)),
    {
        let mut names: Vec<String> = Vec::new();
        let mut refs: Vec<Vec<String>> = Vec::new();
        let mut i: usize = 0;
        while i < tables.len()
            invariant
                i <= tables@.len(),
                str_views(names@) == table_names(tables@).subrange(0, i as int),
                ref_views(refs@) == table_refs(tables@).subrange(0, i as int),
            decreases tables@.len() - i,
        {
            let ghost n0 = names@;
            let ghost r0 = refs@;
            names.push(tables[i].name.clone());
            refs.push(tables[i].foreign_tables());
            proof {
                assert(str_views(names@) =~= str_views(n0).push(table_names(tables@)[i as int]));
                assert(ref_views(refs@) =~= ref_views(r0).push(table_refs(tables@)[i as int]));
                assert(table_names(tables@).subrange(0, i + 1) =~= table_names(tables@).subrange(
                    0,
                    i as int,
                ).push(table_names(tables@)[i as int]));
                assert(table_refs(tables@).subrange(0, i + 1) =~= table_refs(tables@).subrange(
                    0,
                    i as int,
                ).push(table_refs(tables@)[i as int]));
            }
            i = i + 1;
            assert(str_views(names@) =~= table_names(tables@).subrange(0, i as int));
            assert(ref_views(refs@) =~= table_refs(tables@).subrange(0, i as int));
        }
        assert(str_views(names@) =~= table_names(tables@));
        assert(ref_views(refs@) =~= table_refs(tables@));
        let order = resolve_order(&names, &refs, OrderPolicy::Locality);
        match order {
            Err(e) => Err(e),
            Ok(idx) => {
                let mut out: Vec<Table> = Vec::new();
                let mut t: usize = 0;
                while t < idx.len()
                    invariant
                        valid_order(str_views(names@), idx@),
                        str_views(names@).len() == tables@.len(),
                        t <= idx@.len(),
                        out@.len() == t,
                        forall|j: int|
                            0 <= j < t ==> #[trigger] out@[j].same_as(&tables@[idx@[j] as int]),
                    decreases idx@.len() - t,
                {
                    out.push(tables[idx[t]].duplicate());
                    t = t + 1;
                }
                Ok(out)
            },
        }
    }
}

impl ImportService {
    /// The tables in constraint-safe order: every referenced table comes
    /// before the table placed against it.
    pub fn sort_tables(tables: &Vec<TableDao>) -> (r: Result<Vec<TableDao>, DependencyError>)
        ensures
            ordered_daos(tables@, OrderPolicy::ConstraintSafe, result_view(r)),
    {
        let mut names: Vec<String> = Vec::new();
        let mut refs: Vec<Vec<String>> = Vec::new();
        let mut i: usize = 0;
        while i < tables.len()
            invariant
                i <= tables@.len(),
                str_views(names@) == dao_names(tables@).subrange(0, i as int),
                ref_views(refs@) == dao_refs(tables@).subrange(0, i as int),
            decreases tables@.len() - i,
        {
            let ghost n0 = names@;
            let ghost r0 = refs@;
            names.push(tables[i].name.clone());
            refs.push(tables[i].foreign_tables());
            proof {
                assert(str_views(names@) =~= str_views(n0).push(dao_names(tables@)[i as int]));
                assert(ref_views(refs@) =~= ref_views(r0).push(dao_refs(tables@)[i as int]));
                assert(dao_names(tables@).subrange(0, i + 1) =~= dao_names(tables@).subrange(
                    0,
                    i as int,
                ).push(dao_names(tables@)[i as int]));
                assert(dao_refs(tables@).subrange(0, i + 1) =~= dao_refs(tables@).subrange(
                    0,
                    i as int,
                ).push(dao_refs(tables@)[i as int]));
            }
            i = i + 1;
            assert(str_views(names@) =~= dao_names(tables@).subrange(0, i as int));
            assert(ref_views(refs@) =~= dao_refs(tables@).subrange(0, i as int));
        }
        assert(str_views(names@) =~= dao_names(tables@));
        assert(ref_views(refs@) =~= dao_refs(tables@));
        let order = resolve_order(&names, &refs, OrderPolicy::ConstraintSafe);
        match order {
            Err(e) => Err(e),
            Ok(idx) => {
                let mut out: Vec<TableDao> = Vec::new();
                let mut t: usize = 0;
                while t < idx.len()
                    invariant
                        valid_order(str_views(names@), idx@),
                        str_views(names@).len() == tables@.len(),
                        t <= idx@.len(),
                        out@.len() == t,
                        forall|j: int|
                            0 <= j < t ==> #[trigger] out@[j].same_as(&tables@[idx@[j] as int]),
                    decreases idx@.len() - t,
                {
                    out.push(tables[idx[t]].duplicate());
                    t = t + 1;
                }
                Ok(out)
            },
        }
    }
}

/// The names of the primary-key columns among `cols`, in order.
pub open spec fn key_names(cols: Seq<Column>) -> Seq<Seq<char>>
    decreases cols.len(),
{
    if cols.len() == 0 {
        Seq::empty()
    } else if cols.last().is_primary_key {
        key_names(cols.drop_last()).push(cols.last().column_name@)
    } else {
        key_names(cols.drop_last())
    }
}

pub open spec fn names_of(cols: Seq<Column>) -> Seq<Seq<char>> {
    cols.map_values(|c: Column| c.column_name@)
}

pub open spec fn dao_names_of(cols: Seq<ColumnDao>) -> Seq<Seq<char>> {
    cols.map_values(|c: ColumnDao| c.column_name@)
}

pub open spec fn cols_or_empty(t: Table) -> Seq<Column> {
    match t.columns {
        Some(c) => c@,
        None => Seq::empty(),
    }
}

pub open spec fn dao_cols_or_empty(t: TableDao) -> Seq<ColumnDao> {
    match t.columns {
        Some(c) => c@,
        None => Seq::empty(),
    }
}

/// The SELECT of table `t` with the columns in `order`.
pub open spec fn table_select(t: Table, order: Seq<usize>) -> Seq<char> {
    let sorted = permuted(cols_or_empty(t), order);
    select_text(
        t.name@,
        names_of(sorted),
        key_names(sorted),
        t.skip,
        t.take,
        match t.condition {
            Some(p) => Some(p@),
            None => None,
        },
    )
}

/// The marker line written before a table's rows.
pub open spec fn table_marker(name: Seq<char>) -> Seq<char> {
    "-- Table "@ + name
}

impl ExportService {
    /// The extraction query of one table: its columns by ordinal, its filter,
    /// and its pagination in primary-key order. Fails exactly when pagination
    /// is set and no column is a primary key.
    pub fn table_query(t: &Table) -> (r: Result<String, BuilderError>)
        ensures
            ({
                let order = ordinal_sorted(column_orders(cols_or_empty(*t)));
                match r {
                    Ok(q) => q@ == table_select(*t, order) && !(t.skip is Some && t.take is Some
                        && key_names(permuted(cols_or_empty(*t), order)).len() == 0),
                    Err(_) => t.skip is Some && t.take is Some && key_names(
                        permuted(cols_or_empty(*t), order),
                    ).len() == 0,
                }
            }),
    {
        let empty: Vec<Column> = Vec::new();
        let cols: &Vec<Column> = match &t.columns {
            Some(c) => c,
            None => &empty,
        };
        assert(cols@ == cols_or_empty(*t));
        let mut keys: Vec<i16> = Vec::new();
        let mut i: usize = 0;
        while i < cols.len()
            invariant
                i <= cols@.len(),
                keys@ == column_orders(cols@).subrange(0, i as int),
            decreases cols@.len() - i,
        {
            keys.push(cols[i].order);
            i = i + 1;
            assert(keys@ =~= column_orders(cols@).subrange(0, i as int));
        }
        assert(keys@ =~= column_orders(cols@));
        let order = ordinal_order(&keys);
        let ghost sorted = permuted(cols@, order@);
        let mut names: Vec<String> = Vec::new();
        let mut pks: Vec<String> = Vec::new();
        let mut j: usize = 0;
        while j < order.len()
            invariant
                is_ordinal_order(keys@, order@),
                keys@.len() == cols@.len(),
                sorted == permuted(cols@, order@),
                j <= order@.len(),
                str_seqs(names@) == names_of(sorted.subrange(0, j as int)),
                str_seqs(pks@) == key_names(sorted.subrange(0, j as int)),
            decreases order@.len() - j,
        {
            let c = &cols[order[j]];
            assert(*c == sorted[j as int]);
            let ghost n0 = names@;
            let ghost p0 = pks@;
            names.push(c.column_name.clone());
            if c.is_primary_key {
                pks.push(c.column_name.clone());
            }
            proof {
                let pre = sorted.subrange(0, j + 1);
                assert(pre.drop_last() =~= sorted.subrange(0, j as int));
                assert(str_seqs(names@) =~= str_seqs(n0).push(c.column_name@));
                assert(names_of(pre) =~= names_of(sorted.subrange(0, j as int)).push(
                    c.column_name@,
                ));
                if c.is_primary_key {
                    assert(str_seqs(pks@) =~= str_seqs(p0).push(c.column_name@));
                } else {
                    assert(pks@ == p0);
                }
            }
            j = j + 1;
        }
        assert(sorted.subrange(0, j as int) =~= sorted);
        let builder = DataQueryBuilder::new(
            t.name.as_str(),
            &names,
            pks,
            t.skip,
            t.take,
            t.condition.as_ref(),
        );
        match builder {
            Err(e) => Err(e),
            Ok(b) => {
                let q = b.build();
                assert(q@ == table_select(*t, order@));
                Ok(q)
            },
        }
    }
}

/// The variant each column of `t` asks for, the columns by ordinal.
pub open spec fn column_targets(t: Table) -> Seq<Option<ValueKind>> {
    permuted(cols_or_empty(t), ordinal_sorted(column_orders(cols_or_empty(t)))).map_values(
        |c: Column| kind_for_type(type_text(c.data_type)),
    )
}

impl ExportService {
    /// The variant each column of `t` asks for, in the order of the columns of
    /// its extraction query.
    pub fn column_kinds(t: &Table) -> (r: Vec<Option<ValueKind>>)
        ensures
            r@ == column_targets(*t),
    {
        let empty: Vec<Column> = Vec::new();
        let cols: &Vec<Column> = match &t.columns {
            Some(c) => c,
            None => &empty,
        };
        assert(cols@ == cols_or_empty(*t));
        let mut keys: Vec<i16> = Vec::new();
        let mut i: usize = 0;
        while i < cols.len()
            invariant
                i <= cols@.len(),
                keys@ == column_orders(cols@).subrange(0, i as int),
            decreases cols@.len() - i,
        {
            keys.push(cols[i].order);
            i = i + 1;
            assert(keys@ =~= column_orders(cols@).subrange(0, i as int));
        }
        assert(keys@ =~= column_orders(cols@));
        let order = ordinal_order(&keys);
        let ghost sorted = permuted(cols@, order@);
        let mut r: Vec<Option<ValueKind>> = Vec::new();
        let mut j: usize = 0;
        while j < order.len()
            invariant
                is_ordinal_order(keys@, order@),
                keys@.len() == cols@.len(),
                sorted == permuted(cols@, order@),
                j <= order@.len(),
                r@ == sorted.subrange(0, j as int).map_values(
                    |c: Column| kind_for_type(type_text(c.data_type)),
                ),
            decreases order@.len() - j,
        {
            let c = &cols[order[j]];
            assert(*c == sorted[j as int]);
            proof {
                reveal_strlit("");
            }
            let k = match &c.data_type {
                Some(n) => kind_for_type_name(n.as_str()),
                None => {
                    let e = kind_for_type_name("");
                    assert(""@ =~= type_text(c.data_type));
                    e
                },
            };
            assert(k == kind_for_type(type_text(c.data_type)));
            let ghost r0 = r@;
            r.push(k);
            proof {
                assert(sorted.subrange(0, j + 1) =~= sorted.subrange(0, j as int).push(*c));
                assert(r@ =~= r0.push(k));
            }
            j = j + 1;
            assert(r@ =~= sorted.subrange(0, j as int).map_values(
                |c: Column| kind_for_type(type_text(c.data_type)),
            ));
        }
        assert(sorted.subrange(0, j as int) =~= sorted);
        r
    }
}

impl ImportService {
    /// What is sent for one stored table: a marker line naming it, then one
    /// insert statement per row, the columns by ordinal.
    pub fn table_statements(table: &TableDao, rows: &Vec<Vec<ColumnValue>>) -> (r: Vec<String>)
        requires
            forall|i: int| 0 <= i < rows@.len() ==> all_wf(#[trigger] rows@[i]@),
        ensures
            ({
                let order = ordinal_sorted(dao_orders(dao_cols_or_empty(*table)));
                    let names = dao_names_of(permuted(dao_cols_or_empty(*table), order));
                    &&& r@.len() == rows@.len() + 1
                    &&& r@[0]@ == table_marker(table.name@)
                    &&& forall|i: int|
                        0 <= i < rows@.len() ==> (#[trigger] r@[i + 1])@ == insert_text(
                            table.name@,
                            names,
                            rows@[i]@.map_values(|v: ColumnValue| literal_text(v)),
                        )
            }),
    {
        let empty: Vec<ColumnDao> = Vec::new();
        let cols: &Vec<ColumnDao> = match &table.columns {
            Some(c) => c,
            None => &empty,
        };
        assert(cols@ == dao_cols_or_empty(*table));
        let mut keys: Vec<i16> = Vec::new();
        let mut i: usize = 0;
        while i < cols.len()
            invariant
                i <= cols@.len(),
                keys@ == dao_orders(cols@).subrange(0, i as int),
            decreases cols@.len() - i,
        {
            keys.push(cols[i].order);
            i = i + 1;
            assert(keys@ =~= dao_orders(cols@).subrange(0, i as int));
        }
        assert(keys@ =~= dao_orders(cols@));
        let order = ordinal_order(&keys);
        let ghost sorted = permuted(cols@, order@);
        let mut names: Vec<String> = Vec::new();
        let mut j: usize = 0;
        while j < order.len()
            invariant
                is_ordinal_order(keys@, order@),
                keys@.len() == cols@.len(),
                sorted == permuted(cols@, order@),
                j <= order@.len(),
                str_seqs(names@) == dao_names_of(sorted.subrange(0, j as int)),
            decreases order@.len() - j,
        {
            let c = &cols[order[j]];
            assert(*c == sorted[j as int]);
            let ghost n0 = names@;
            names.push(c.column_name.clone());
            proof {
                assert(str_seqs(names@) =~= str_seqs(n0).push(c.column_name@));
                assert(dao_names_of(sorted.subrange(0, j + 1)) =~= dao_names_of(
                    sorted.subrange(0, j as int),
                ).push(c.column_name@));
            }
            j = j + 1;
        }
        assert(sorted.subrange(0, j as int) =~= sorted);
        assert(str_seqs(names@) =~= dao_names_of(sorted));
        let mut out: Vec<String> = Vec::new();
        let mut marker = String::new();
        marker.append("-- Table ");
        marker.append(table.name.as_str());
        proof {
            reveal_strlit("-- Table ");
        }
        out.push(marker);
        let mut k: usize = 0;
        while k < rows.len()
            invariant
                forall|i: int| 0 <= i < rows@.len() ==> all_wf(#[trigger] rows@[i]@),
                str_seqs(names@) == dao_names_of(sorted),
                k <= rows@.len(),
                out@.len() == k + 1,
                out@[0]@ == table_marker(table.name@),
                forall|i: int|
                    0 <= i < k ==> (#[trigger] out@[i + 1])@ == insert_text(
                        table.name@,
                        dao_names_of(sorted),
                        rows@[i]@.map_values(|v: ColumnValue| literal_text(v)),
                    ),
            decreases rows@.len() - k,
        {
            let mut data: Vec<ColumnValue> = Vec::new();
            let row = &rows[k];
            assert(all_wf(rows@[k as int]@));
            let mut t: usize = 0;
            while t < row.len()
                invariant
                    all_wf(row@),
                    t <= row@.len(),
                    data@.len() == t,
                    forall|x: int| 0 <= x < t ==> #[trigger] data@[x] == row@[x],
                decreases row@.len() - t,
            {
                data.push(copy_value(&row[t]));
                t = t + 1;
            }
            assert(data@ =~= row@);
            let b = DataInsertQueryBuilder::new(table.name.as_str(), &names, data);
            let q = b.build();
            out.push(q);
            k = k + 1;
        }
        out
    }
}

/// A copy of a cell, equal to it.
pub fn copy_value(v: &ColumnValue) -> (r: ColumnValue)
    ensures
        r == *v,
{
    match v {
        ColumnValue::Bool(x) => ColumnValue::Bool(*x),
        ColumnValue::Short(x) => ColumnValue::Short(*x),
        ColumnValue::Integer(x) => ColumnValue::Integer(*x),
        ColumnValue::UnsignedInt(x) => ColumnValue::UnsignedInt(*x),
        ColumnValue::Float(x) => ColumnValue::Float(crate::catalog::copy_opt_string(x)),
        ColumnValue::BigFloat(x) => ColumnValue::BigFloat(crate::catalog::copy_opt_string(x)),
        ColumnValue::Long(x) => ColumnValue::Long(*x),
        ColumnValue::String(x) => ColumnValue::String(crate::catalog::copy_opt_string(x)),
        ColumnValue::Uuid(x) => ColumnValue::Uuid(*x),
        ColumnValue::DateTime2(x) => ColumnValue::DateTime2(*x),
        ColumnValue::DateTimeOffset(x) => ColumnValue::DateTimeOffset(*x),
        ColumnValue::Decimal(x) => ColumnValue::Decimal(*x),
    }
}

impl ImportService {
    /// Hands every statement to `provider`, once each and in order. A statement
    /// that fails is skipped and the rest are still sent; the result lists the
    /// positions that failed, in order, with the errors `send` returned. The
    /// provider then has acknowledged exactly the other statements, in order.
    pub fn send_all<P: Provider>(provider: &mut Delivery<P>, statements: &Vec<String>) -> (r: Vec<
        (usize, String),
    >)
        ensures
            final(provider).sent() == old(provider).sent() + delivered(
                str_seqs(statements@),
                r@.map_values(|f: (usize, String)| f.0),
            ),
            forall|i: int| 0 <= i < r@.len() ==> (#[trigger] r@[i]).0 < statements@.len(),
            forall|i: int, j: int| 0 <= i < j < r@.len() ==> r@[i].0 < r@[j].0,
            final(provider).attempts().len() == old(provider).attempts().len() + statements@.len(),
            final(provider).attempts().subrange(0, old(provider).attempts().len() as int) == old(
                provider,
            ).attempts(),
            forall|i: int|
                0 <= i < statements@.len() ==> (#[trigger] final(provider).attempts()[old(
                    provider,
                ).attempts().len() + i]).0 == statements@[i]@,
            forall|i: int|
                0 <= i < statements@.len() ==> ((#[trigger] final(provider).attempts()[old(
                    provider,
                ).attempts().len() + i]).1 is None <==> !positions(r@).contains(i as usize)),
            forall|j: int|
                0 <= j < r@.len() ==> final(provider).attempts()[old(provider).attempts().len()
                    + (#[trigger] r@[j]).0] .1 == Some(r@[j].1@),
    {
        let ghost s0 = provider.sent();
        let ghost a0 = provider.attempts();
        let ghost all = str_seqs(statements@);
        let mut failed: Vec<(usize, String)> = Vec::new();
        let mut k: usize = 0;
        while k < statements.len()
            invariant
                all == str_seqs(statements@),
                k <= statements@.len(),
                provider.sent() == s0 + delivered(
                    all.subrange(0, k as int),
                    failed@.map_values(|f: (usize, String)| f.0),
                ),
                forall|i: int| 0 <= i < failed@.len() ==> (#[trigger] failed@[i]).0 < k,
                forall|i: int, j: int| 0 <= i < j < failed@.len() ==> failed@[i].0 < failed@[j].0,
                provider.attempts().len() == a0.len() + k,
                provider.attempts().subrange(0, a0.len() as int) == a0,
                forall|i: int|
                    0 <= i < k ==> (#[trigger] provider.attempts()[a0.len() + i]).0
                        == statements@[i]@,
                forall|i: int|
                    0 <= i < k ==> ((#[trigger] provider.attempts()[a0.len() + i]).1 is None <==> !positions(
                        failed@,
                    ).contains(i as usize)),
                forall|j: int|
                    0 <= j < failed@.len() ==> provider.attempts()[a0.len() + (
                    #[trigger] failed@[j]).0].1 == Some(failed@[j].1@),
            decreases statements@.len() - k,
        {
            let ghost f0 = positions(failed@);
            assert(f0 == failed@.map_values(|f: (usize, String)| f.0));
            let ghost fl0 = failed@;
            let ghost at0 = provider.attempts();
            let ghost pre = all.subrange(0, k + 1);
            proof {
                assert(pre.drop_last() =~= all.subrange(0, k as int));
                assert(pre.last() == statements@[k as int]@);
                assert(!f0.contains(k)) by {
                    if f0.contains(k) {
                        let j = choose|j: int| 0 <= j < f0.len() && f0[j] == k;
                        assert(failed@[j].0 < k);
                    }
                }
            }
            match provider.send(statements[k].as_str()) {
                Ok(()) => {
                    assert(provider.sent() =~= s0 + delivered(pre, f0));
                    proof {
                        assert(provider.attempts().subrange(0, a0.len() as int) =~= at0.subrange(
                            0,
                            a0.len() as int,
                        ));
                        assert forall|i: int| 0 <= i < k + 1 implies ((#[trigger] provider.attempts()[a0.len()
                            + i]).1 is None <==> !f0.contains(i as usize)) by {
                            if i < k {
                                assert(provider.attempts()[a0.len() + i] == at0[a0.len() + i]);
                            }
                        }
                    }
                },
                Err(e) => {
                    failed.push((k, e));
                    proof {
                        let f1 = positions(failed@);
                        assert(f1 =~= f0.push(k));
                        lemma_delivered_later_failure(all.subrange(0, k as int), f0, k);
                        assert(f1[f1.len() - 1] == k);
                        assert(f1.contains(k));
                        assert(delivered(pre, f1) == delivered(all.subrange(0, k as int), f1));
                        assert(provider.attempts().subrange(0, a0.len() as int) =~= at0.subrange(
                            0,
                            a0.len() as int,
                        ));
                        assert forall|i: int| 0 <= i < k + 1 implies ((#[trigger] provider.attempts()[a0.len()
                            + i]).1 is None <==> !f1.contains(i as usize)) by {
                            if i < k {
                                assert(provider.attempts()[a0.len() + i] == at0[a0.len() + i]);
                                if f1.contains(i as usize) {
                                    let j = choose|j: int| 0 <= j < f1.len() && f1[j] == i as usize;
                                    if j < f0.len() {
                                        assert(f0[j] == i as usize);
                                    }
                                }
                                if f0.contains(i as usize) {
                                    let j = choose|j: int| 0 <= j < f0.len() && f0[j] == i as usize;
                                    assert(f1[j] == i as usize);
                                }
                            }
                        }
                        assert forall|j: int| 0 <= j < failed@.len() implies provider.attempts()[
                            a0.len() + (#[trigger] failed@[j]).0].1 == Some(failed@[j].1@) by {
                            if j < fl0.len() {
                                assert(failed@[j] == fl0[j]);
                                assert(provider.attempts()[a0.len() + fl0[j].0] == at0[a0.len()
                                    + fl0[j].0]);
                            }
                        }
                    }
                },
            }
            k = k + 1;
        }
        assert(all.subrange(0, k as int) =~= all);
        failed
    }
}

} // verus!
