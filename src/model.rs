//! Tables and models of the schema catalog.
use vstd::prelude::*;
use crate::catalog::{Column, ColumnDao, copy_columns, copy_column_daos, copy_opt_string};
use crate::names::{index_of, lemma_index_of, lemma_index_of_prefix};
use crate::resolver::str_views;

verus! {

pub open spec fn column_names(cols: Seq<Column>) -> Seq<Seq<char>> {
    cols.map_values(|c: Column| c.column_name@)
}

pub open spec fn dao_column_names(cols: Seq<ColumnDao>) -> Seq<Seq<char>> {
    cols.map_values(|c: ColumnDao| c.column_name@)
}

/// The tables that the foreign keys of `cols` reference, in column order.
pub open spec fn column_refs(cols: Seq<Column>) -> Seq<Seq<char>>
    decreases cols.len(),
{
    if cols.len() == 0 {
        Seq::empty()
    } else {
        let rest = column_refs(cols.drop_last());
        match cols.last().foreign_key {
            Some(fk) => rest.push(fk.table_name@),
            None => rest,
        }
    }
}

/// The tables that the foreign keys of `cols` reference, in column order.
pub open spec fn dao_column_refs(cols: Seq<ColumnDao>) -> Seq<Seq<char>>
    decreases cols.len(),
{
    if cols.len() == 0 {
        Seq::empty()
    } else {
        let rest = dao_column_refs(cols.drop_last());
        match cols.last().foreign_key {
            Some(fk) => rest.push(fk.table_name@),
            None => rest,
        }
    }
}

/// Position of the first column named `n`.
pub fn column_position(cols: &Vec<Column>, n: &String) -> (r: Option<usize>)
    ensures
        match r {
            Some(i) => i as int == index_of(column_names(cols@), n@),
            None => index_of(column_names(cols@), n@) < 0,
        },
{
    let ghost nv = column_names(cols@);
    let mut i: usize = 0;
    while i < cols.len()
        invariant
            nv == column_names(cols@),
            i <= cols@.len(),
            index_of(nv.subrange(0, i as int), n@) < 0,
        decreases cols@.len() - i,
    {
        assert(nv.subrange(0, i + 1).drop_last() =~= nv.subrange(0, i as int));
        if cols[i].column_name == *n {
            proof {
                lemma_index_of_prefix(nv, i + 1, n@);
            }
            return Some(i);
        }
        i = i + 1;
    }
    assert(nv.subrange(0, i as int) =~= nv);
    None
}

/// Position of the first column named `n`.
pub fn dao_column_position(cols: &Vec<ColumnDao>, n: &String) -> (r: Option<usize>)
    ensures
        match r {
            Some(i) => i as int == index_of(dao_column_names(cols@), n@),
            None => index_of(dao_column_names(cols@), n@) < 0,
        },
{
    let ghost nv = dao_column_names(cols@);
    let mut i: usize = 0;
    while i < cols.len()
        invariant
            nv == dao_column_names(cols@),
            i <= cols@.len(),
            index_of(nv.subrange(0, i as int), n@) < 0,
        decreases cols@.len() - i,
    {
        assert(nv.subrange(0, i + 1).drop_last() =~= nv.subrange(0, i as int));
        if cols[i].column_name == *n {
            proof {
                lemma_index_of_prefix(nv, i + 1, n@);
            }
            return Some(i);
        }
        i = i + 1;
    }
    assert(nv.subrange(0, i as int) =~= nv);
    None
}

/// Index `a` comes before index `b`: smaller ordinal, or same ordinal and earlier.
pub open spec fn ordinal_before(keys: Seq<i16>, a: usize, b: usize) -> bool {
    keys[a as int] < keys[b as int] || (keys[a as int] == keys[b as int] && a < b)
}

/// `perm` lists every index of `keys` once, by ordinal, ties in input order.
pub open spec fn is_ordinal_order(keys: Seq<i16>, perm: Seq<usize>) -> bool {
    &&& perm.len() == keys.len()
    &&& forall|t: int| 0 <= t < perm.len() ==> perm[t] < keys.len()
    &&& forall|s: int, t: int|
        0 <= s < t < perm.len() ==> ordinal_before(keys, #[trigger] perm[s], #[trigger] perm[t])
}

/// Where index `x`'s key goes in `out`: after every leading index whose key is
/// not greater.
pub open spec fn insert_pos(keys: Seq<i16>, out: Seq<usize>, x: i16) -> int
    decreases out.len(),
{
    if out.len() == 0 {
        0
    } else if keys[out[0] as int] > x {
        0
    } else {
        1 + insert_pos(keys, out.drop_first(), x)
    }
}

/// The first `k` indices of `keys`, each inserted in turn after the indices
/// whose keys are not greater.
pub open spec fn ordinal_prefix(keys: Seq<i16>, k: int) -> Seq<usize>
    decreases k,
{
    if k <= 0 {
        Seq::empty()
    } else {
        let o = ordinal_prefix(keys, k - 1);
        o.insert(insert_pos(keys, o, keys[k - 1]), (k - 1) as usize)
    }
}

/// The indices of `keys` by key, ties in input order.
pub open spec fn ordinal_sorted(keys: Seq<i16>) -> Seq<usize> {
    ordinal_prefix(keys, keys.len() as int)
}

/// The stable order of the indices of `keys` by key.
pub fn ordinal_order(keys: &Vec<i16>) -> (r: Vec<usize>)
    ensures
        is_ordinal_order(keys@, r@),
        r@ == ordinal_sorted(keys@),
{
    let mut out: Vec<usize> = Vec::new();
    let mut k: usize = 0;
    while k < keys.len()
        invariant
            k <= keys@.len(),
            out@.len() == k,
            out@ == ordinal_prefix(keys@, k as int),
            forall|t: int| 0 <= t < out@.len() ==> out@[t] < k,
            forall|s: int, t: int|
                0 <= s < t < out@.len() ==> ordinal_before(
                    keys@,
                    #[trigger] out@[s],
                    #[trigger] out@[t],
                ),
        decreases keys@.len() - k,
    {
        let mut p: usize = 0;
        assert(out@.subrange(0, out@.len() as int) =~= out@);
        while p < out.len() && keys[out[p]] <= keys[k]
            invariant
                k < keys@.len(),
                p <= out@.len(),
                forall|t: int| 0 <= t < out@.len() ==> out@[t] < k,
                forall|t: int| 0 <= t < p ==> keys@[#[trigger] out@[t] as int] <= keys@[k as int],
                insert_pos(keys@, out@, keys@[k as int]) == p + insert_pos(
                    keys@,
                    out@.subrange(p as int, out@.len() as int),
                    keys@[k as int],
                ),
            decreases out@.len() - p,
        {
            proof {
                let sub = out@.subrange(p as int, out@.len() as int);
                assert(sub.drop_first() =~= out@.subrange(p + 1, out@.len() as int));
                assert(sub[0] == out@[p as int]);
            }
            p = p + 1;
        }
        proof {
            let sub = out@.subrange(p as int, out@.len() as int);
            if p < out@.len() {
                assert(sub[0] == out@[p as int]);
            }
            assert(insert_pos(keys@, out@, keys@[k as int]) == p);
        }
        let ghost o = out@;
        proof {
            assert forall|t: int| p <= t < o.len() implies keys@[#[trigger] o[t] as int]
                > keys@[k as int] by {
                if t > p {
                    assert(ordinal_before(keys@, o[p as int], o[t]));
                }
            }
        }
        out.insert(p, k);
        proof {
            let n = out@;
            assert forall|t: int| 0 <= t < n.len() implies n[t] < k + 1 by {
                if t < p {
                    assert(n[t] == o[t]);
                } else if t > p {
                    assert(n[t] == o[t - 1]);
                }
            }
            assert forall|s: int, t: int| 0 <= s < t < n.len() implies ordinal_before(
                keys@,
                #[trigger] n[s],
                #[trigger] n[t],
            ) by {
                if s < p && t < p {
                    assert(n[s] == o[s] && n[t] == o[t]);
                } else if s < p && t == p {
                    assert(n[s] == o[s]);
                    assert(keys@[o[s] as int] <= keys@[k as int]);
                } else if s < p && t > p {
                    assert(n[s] == o[s] && n[t] == o[t - 1]);
                } else if s == p {
                    assert(n[t] == o[t - 1]);
                    assert(keys@[o[t - 1] as int] > keys@[k as int]);
                } else {
                    assert(n[s] == o[s - 1] && n[t] == o[t - 1]);
                }
            }
        }
        k = k + 1;
    }
    assert(keys@.len() == k);
    out
}

pub open spec fn column_orders(cols: Seq<Column>) -> Seq<i16> {
    cols.map_values(|c: Column| c.order)
}

pub open spec fn dao_orders(cols: Seq<ColumnDao>) -> Seq<i16> {
    cols.map_values(|c: ColumnDao| c.order)
}

pub open spec fn permuted<T>(v: Seq<T>, perm: Seq<usize>) -> Seq<T> {
    perm.map_values(|j: usize| v[j as int])
}

/// No name occurs twice.
pub open spec fn unique_names(names: Seq<Seq<char>>) -> bool {
    forall|i: int, j: int| 0 <= i < j < names.len() ==> names[i] != names[j]
}

/// The columns keyed by name, in order of first appearance; a later column of
/// a name takes the place of the earlier one.
pub open spec fn keyed_columns(cols: Seq<ColumnDao>) -> Seq<ColumnDao>
    decreases cols.len(),
{
    if cols.len() == 0 {
        Seq::empty()
    } else {
        let r = keyed_columns(cols.drop_last());
        let i = index_of(dao_column_names(r), cols.last().column_name@);
        if i < 0 {
            r.push(cols.last())
        } else {
            r.update(i, cols.last())
        }
    }
}

/// A table as stored: its name and, once introspected, its columns.
#[derive(Clone, Debug)]
pub struct TableDao {
    pub id: Option<String>,
    pub name: String,
    pub columns: Option<Vec<ColumnDao>>,
}

impl TableDao {
    pub fn new(name: &str) -> (r: Self)
        ensures
            r.id is None,
            r.name@ == name@,
            r.columns is None,
    {
        TableDao { id: None, name: name.to_owned(), columns: None }
    }

    /// Replaces the column set.
    /// Column names are unique within the table.
    pub open spec fn wf(&self) -> bool {
        match self.columns {
            Some(cols) => unique_names(dao_column_names(cols@)),
            None => true,
        }
    }

    /// Replaces the column set, keyed by name: a later column of a name
    /// already given takes that column's place.
    pub fn add_columns(&mut self, columns: Vec<ColumnDao>)
        ensures
            final(self).id == old(self).id,
            final(self).name == old(self).name,
            final(self).columns is Some,
            final(self).columns->Some_0@ == keyed_columns(columns@),
            final(self).wf(),
    {
        let mut kept: Vec<ColumnDao> = Vec::new();
        let ghost all = columns@;
        let n = columns.len();
        let mut rest = columns;
        let mut k: usize = 0;
        while rest.len() > 0
            invariant
                k + rest@.len() == all.len(),
                all.len() == n,
                rest@ == all.subrange(k as int, all.len() as int),
                kept@ == keyed_columns(all.subrange(0, k as int)),
                unique_names(dao_column_names(kept@)),
            decreases rest@.len(),
        {
            let c = rest.remove(0);
            proof {
                assert(c == all[k as int]);
                assert(all.subrange(0, k + 1).drop_last() =~= all.subrange(0, k as int));
                assert(all.subrange(0, k + 1).last() == c);
                lemma_index_of(dao_column_names(kept@), c.column_name@);
            }
            let ghost before = kept@;
            match dao_column_position(&kept, &c.column_name) {
                Some(i) => {
                    kept.set(i, c);
                    proof {
                        assert(dao_column_names(kept@) =~= dao_column_names(before).update(
                            i as int,
                            kept@[i as int].column_name@,
                        ));
                    }
                },
                None => {
                    kept.push(c);
                    proof {
                        assert(dao_column_names(kept@) =~= dao_column_names(before).push(
                            kept@.last().column_name@,
                        ));
                    }
                },
            }
            k = k + 1;
        }
        assert(all.subrange(0, k as int) =~= all);
        self.columns = Some(kept);
    }

    pub fn get_column(&self, column_name: &str) -> (r: Option<&ColumnDao>)
        ensures
            match self.columns {
                None => r is None,
                Some(cols) => {
                    let i = index_of(dao_column_names(cols@), column_name@);
                    match r {
                        Some(c) => i >= 0 && *c == cols@[i],
                        None => i < 0,
                    }
                },
            },
    {
        match &self.columns {
            None => None,
            Some(cols) => {
                let n = column_name.to_owned();
                proof {
                    lemma_index_of(dao_column_names(cols@), n@);
                }
                match dao_column_position(cols, &n) {
                    Some(i) => Some(&cols[i]),
                    None => None,
                }
            },
        }
    }

    pub fn get_columns(&self) -> (r: Option<&Vec<ColumnDao>>)
        ensures
            match self.columns {
                Some(c) => r is Some && *r->Some_0 == c,
                None => r is None,
            },
    {
        self.columns.as_ref()
    }

    /// The tables that this table's foreign keys reference, the columns taken
    /// by ordinal (ties in stored order).
    pub open spec fn refs(&self) -> Seq<Seq<char>> {
        match self.columns {
            Some(cols) => dao_column_refs(permuted(cols@, ordinal_sorted(dao_orders(cols@)))),
            None => Seq::empty(),
        }
    }

    pub fn foreign_tables(&self) -> (r: Vec<String>)
        ensures
            str_views(r@) == self.refs(),
    {
        let mut r: Vec<String> = Vec::new();
        match &self.columns {
            None => {},
            Some(cols) => {
                let mut keys: Vec<i16> = Vec::new();
                let mut i: usize = 0;
                while i < cols.len()
                    invariant
                        i <= cols@.len(),
                        keys@ == dao_orders(cols@).subrange(0, i as int),
                    decreases cols@.len() - i,
                {
                    keys.push(cols[i].order);
                    i = i + 1;
                    assert(keys@ =~= dao_orders(cols@).subrange(0, i as int));
                }
                assert(keys@ =~= dao_orders(cols@));
                let order = ordinal_order(&keys);
                let ghost sorted = permuted(cols@, order@);
                let mut j: usize = 0;
                while j < order.len()
                    invariant
                        self.columns == Some(*cols),
                        is_ordinal_order(keys@, order@),
                        order@ == ordinal_sorted(dao_orders(cols@)),
                        keys@.len() == cols@.len(),
                        sorted == permuted(cols@, order@),
                        j <= order@.len(),
                        str_views(r@) == dao_column_refs(sorted.subrange(0, j as int)),
                    decreases order@.len() - j,
                {
                    let c = &cols[order[j]];
                    assert(*c == sorted[j as int]);
                    assert(sorted.subrange(0, j + 1).drop_last() =~= sorted.subrange(0, j as int));
                    let ghost r0 = r@;
                    match &c.foreign_key {
                        Some(fk) => {
                            r.push(fk.table_name.clone());
                            assert(str_views(r@) =~= str_views(r0).push(fk.table_name@));
                        },
                        None => {},
                    }
                    j = j + 1;
                }
                assert(sorted.subrange(0, j as int) =~= sorted);
            },
        }
        assert(str_views(r@) =~= self.refs());
        r
    }

    /// Equal fields, the columns equal as sequences.
    pub open spec fn same_as(&self, o: &TableDao) -> bool {
        &&& self.id == o.id
        &&& self.name == o.name
        &&& match (self.columns, o.columns) {
            (Some(a), Some(b)) => a@ == b@,
            (None, None) => true,
            _ => false,
        }
    }

    pub fn duplicate(&self) -> (r: Self)
        ensures
            r.same_as(self),
    {
        TableDao {
            id: copy_opt_string(&self.id),
            name: self.name.clone(),
            columns: match &self.columns {
                Some(c) => Some(copy_column_daos(c)),
                None => None,
            },
        }
    }
}

/// A table of a model: its name, an optional row filter, optional pagination
/// and, once reconciled, its columns.
#[derive(Clone, Debug)]
pub struct Table {
    /// The store's identifier of the table, once saved.
    pub id: Option<String>,
    pub name: String,
    pub condition: Option<String>,
    pub take: Option<u64>,
    pub skip: Option<u64>,
    pub columns: Option<Vec<Column>>,
}

pub open spec fn columns_from_daos(cols: Seq<ColumnDao>) -> Seq<Column> {
    cols.map_values(
        |c: ColumnDao|
            Column {
                column_name: c.column_name,
                table_name: Some(c.table_name),
                data_type: Some(c.data_type),
                precision: Some(c.precision),
                max_length: Some(c.max_length),
                foreign_key: c.foreign_key,
                order: c.order,
                is_primary_key: c.is_primary_key,
            },
    )
}

impl Table {
    pub fn new(name: String) -> (r: Self)
        ensures
            r == (Table { id: None, name, condition: None, take: None, skip: None, columns: None }),
    {
        Table { id: None, name, condition: None, take: None, skip: None, columns: None }
    }

    /// The declared model of a stored table, without filter or pagination.
    pub fn from_dao(table: TableDao) -> (r: Self)
        ensures
            r.id == table.id,
            r.name == table.name,
            r.condition is None,
            r.take is None,
            r.skip is None,
            r.columns is Some,
            r.columns->Some_0@ == columns_from_daos(
                match table.columns {
                    Some(c) => c@,
                    None => Seq::empty(),
                },
            ),
    {
        let mut cols: Vec<Column> = Vec::new();
        match &table.columns {
            None => {},
            Some(daos) => {
                let mut i: usize = 0;
                while i < daos.len()
                    invariant
                        i <= daos@.len(),
                        cols@ == columns_from_daos(daos@.subrange(0, i as int)),
                    decreases daos@.len() - i,
                {
                    cols.push(Column::from_dao(&daos[i]));
                    i = i + 1;
                    assert(cols@ =~= columns_from_daos(daos@.subrange(0, i as int)));
                }
                assert(daos@.subrange(0, i as int) =~= daos@);
            },
        }
        Table {
            id: table.id,
            name: table.name,
            condition: None,
            take: None,
            skip: None,
            columns: Some(cols),
        }
    }

    pub fn get_table_name(&self) -> (r: &str)
        ensures
            r@ == self.name@,
    {
        self.name.as_str()
    }

    /// Replaces the column set.
    pub fn add_columns(&mut self, columns: Vec<Column>)
        ensures
            *final(self) == (Table { columns: Some(columns), ..*old(self) }),
    {
        self.columns = Some(columns);
    }

    pub fn get_columns(&self) -> (r: Option<&Vec<Column>>)
        ensures
            match self.columns {
                Some(c) => r is Some && *r->Some_0 == c,
                None => r is None,
            },
    {
        self.columns.as_ref()
    }

    pub fn get_column(&self, column_name: &str) -> (r: Option<&Column>)
        ensures
            match self.columns {
                None => r is None,
                Some(cols) => {
                    let i = index_of(column_names(cols@), column_name@);
                    match r {
                        Some(c) => i >= 0 && *c == cols@[i],
                        None => i < 0,
                    }
                },
            },
    {
        match &self.columns {
            None => None,
            Some(cols) => {
                let n = column_name.to_owned();
                proof {
                    lemma_index_of(column_names(cols@), n@);
                }
                match column_position(cols, &n) {
                    Some(i) => Some(&cols[i]),
                    None => None,
                }
            },
        }
    }

    pub fn get_skip(&self) -> (r: Option<u64>)
        ensures
            r == self.skip,
    {
        self.skip
    }

    pub fn get_take(&self) -> (r: Option<u64>)
        ensures
            r == self.take,
    {
        self.take
    }

    pub fn get_predicate(&self) -> (r: Option<&String>)
        ensures
            match self.condition {
                Some(c) => r is Some && *r->Some_0 == c,
                None => r is None,
            },
    {
        self.condition.as_ref()
    }

    /// The tables that this table's foreign keys reference, the columns taken
    /// by ordinal (ties in stored order).
    pub open spec fn refs(&self) -> Seq<Seq<char>> {
        match self.columns {
            Some(cols) => column_refs(permuted(cols@, ordinal_sorted(column_orders(cols@)))),
            None => Seq::empty(),
        }
    }

    pub fn foreign_tables(&self) -> (r: Vec<String>)
        ensures
            str_views(r@) == self.refs(),
    {
        let mut r: Vec<String> = Vec::new();
        match &self.columns {
            None => {},
            Some(cols) => {
                let mut keys: Vec<i16> = Vec::new();
                let mut i: usize = 0;
                while i < cols.len()
                    invariant
                        i <= cols@.len(),
                        keys@ == column_orders(cols@).subrange(0, i as int),
                    decreases cols@.len() - i,
                {
                    keys.push(cols[i].order);
                    i = i + 1;
                    assert(keys@ =~= column_orders(cols@).subrange(0, i as int));
                }
                assert(keys@ =~= column_orders(cols@));
                let order = ordinal_order(&keys);
                let ghost sorted = permuted(cols@, order@);
                let mut j: usize = 0;
                while j < order.len()
                    invariant
                        self.columns == Some(*cols),
                        is_ordinal_order(keys@, order@),
                        order@ == ordinal_sorted(column_orders(cols@)),
                        keys@.len() == cols@.len(),
                        sorted == permuted(cols@, order@),
                        j <= order@.len(),
                        str_views(r@) == column_refs(sorted.subrange(0, j as int)),
                    decreases order@.len() - j,
                {
                    let c = &cols[order[j]];
                    assert(*c == sorted[j as int]);
                    assert(sorted.subrange(0, j + 1).drop_last() =~= sorted.subrange(0, j as int));
                    let ghost r0 = r@;
                    match &c.foreign_key {
                        Some(fk) => {
                            r.push(fk.table_name.clone());
                            assert(str_views(r@) =~= str_views(r0).push(fk.table_name@));
                        },
                        None => {},
                    }
                    j = j + 1;
                }
                assert(sorted.subrange(0, j as int) =~= sorted);
            },
        }
        assert(str_views(r@) =~= self.refs());
        r
    }

    /// Whether the table can be stored: its columns are known and complete.
    pub open spec fn storable(&self) -> bool {
        &&& self.columns is Some
        &&& forall|i: int|
            0 <= i < self.columns->Some_0@.len() ==> (#[trigger] self.columns->Some_0@[i]).is_complete()
    }

    pub fn is_storable(&self) -> (r: bool)
        ensures
            r == self.storable(),
    {
        match &self.columns {
            None => false,
            Some(cols) => {
                let mut i: usize = 0;
                while i < cols.len()
                    invariant
                        self.columns == Some(*cols),
                        i <= cols@.len(),
                        forall|j: int| 0 <= j < i ==> (#[trigger] cols@[j]).is_complete(),
                    decreases cols@.len() - i,
                {
                    let c = &cols[i];
                    if c.table_name.is_none() || c.data_type.is_none() || c.precision.is_none()
                        || c.max_length.is_none() {
                        assert(!self.columns->Some_0@[i as int].is_complete());
                        return false;
                    }
                    i = i + 1;
                }
                true
            },
        }
    }

    pub fn to_dao(&self) -> (r: TableDao)
        requires
            self.storable(),
        ensures
            r.id is None,
            r.name@ == self.name@,
            r.columns is Some,
            r.columns->Some_0@.len() == self.columns->Some_0@.len(),
            forall|i: int|
                0 <= i < r.columns->Some_0@.len() ==> #[trigger] r.columns->Some_0@[i] == (
                ColumnDao {
                    column_name: self.columns->Some_0@[i].column_name,
                    table_name: self.columns->Some_0@[i].table_name->Some_0,
                    data_type: self.columns->Some_0@[i].data_type->Some_0,
                    precision: self.columns->Some_0@[i].precision->Some_0,
                    max_length: self.columns->Some_0@[i].max_length->Some_0,
                    foreign_key: self.columns->Some_0@[i].foreign_key,
                    order: self.columns->Some_0@[i].order,
                    is_primary_key: self.columns->Some_0@[i].is_primary_key,
                }),
    {
        let mut table = TableDao::new(self.name.as_str());
        let cols = self.columns.as_ref().unwrap();
        let mut daos: Vec<ColumnDao> = Vec::new();
        let mut i: usize = 0;
        while i < cols.len()
            invariant
                self.storable(),
                self.columns == Some(*cols),
                i <= cols@.len(),
                daos@.len() == i,
                forall|j: int|
                    0 <= j < i ==> #[trigger] daos@[j] == (ColumnDao {
                        column_name: cols@[j].column_name,
                        table_name: cols@[j].table_name->Some_0,
                        data_type: cols@[j].data_type->Some_0,
                        precision: cols@[j].precision->Some_0,
                        max_length: cols@[j].max_length->Some_0,
                        foreign_key: cols@[j].foreign_key,
                        order: cols@[j].order,
                        is_primary_key: cols@[j].is_primary_key,
                    }),
            decreases cols@.len() - i,
        {
            assert(self.columns->Some_0@[i as int].is_complete());
            daos.push(cols[i].to_dao());
            i = i + 1;
        }
        table.columns = Some(daos);
        table
    }

    /// Equal fields, the columns equal as sequences.
    pub open spec fn same_as(&self, o: &Table) -> bool {
        &&& self.id == o.id
        &&& self.name == o.name
        &&& self.condition == o.condition
        &&& self.take == o.take
        &&& self.skip == o.skip
        &&& match (self.columns, o.columns) {
            (Some(a), Some(b)) => a@ == b@,
            (None, None) => true,
            _ => false,
        }
    }

    pub fn duplicate(&self) -> (r: Self)
        ensures
            r.same_as(self),
    {
        Table {
            id: copy_opt_string(&self.id),
            name: self.name.clone(),
            condition: copy_opt_string(&self.condition),
            take: self.take,
            skip: self.skip,
            columns: match &self.columns {
                Some(c) => Some(copy_columns(c)),
                None => None,
            },
        }
    }
}

pub open spec fn model_table_names(ts: Seq<Table>) -> Seq<Seq<char>> {
    ts.map_values(|t: Table| t.name@)
}

/// Position of the first table named `n`.
pub fn table_position(ts: &Vec<Table>, n: &String) -> (r: Option<usize>)
    ensures
        match r {
            Some(i) => i as int == index_of(model_table_names(ts@), n@),
            None => index_of(model_table_names(ts@), n@) < 0,
        },
{
    let ghost nv = model_table_names(ts@);
    let mut i: usize = 0;
    while i < ts.len()
        invariant
            nv == model_table_names(ts@),
            i <= ts@.len(),
            index_of(nv.subrange(0, i as int), n@) < 0,
        decreases ts@.len() - i,
    {
        assert(nv.subrange(0, i + 1).drop_last() =~= nv.subrange(0, i as int));
        if ts[i].name == *n {
            proof {
                lemma_index_of_prefix(nv, i + 1, n@);
            }
            return Some(i);
        }
        i = i + 1;
    }
    assert(nv.subrange(0, i as int) =~= nv);
    None
}

/// A model as stored: its identifier once saved, and its names.
#[derive(Clone, Debug)]
pub struct ModelDao {
    pub id: Option<String>,
    pub name: String,
    pub model_name: String,
}

impl ModelDao {
    pub fn new(name: &str, model_name: &str) -> (r: Self)
        ensures
            r.id is None,
            r.name@ == name@,
            r.model_name@ == model_name@,
    {
        ModelDao { id: None, name: name.to_owned(), model_name: model_name.to_owned() }
    }
}

/// A named set of tables; table names are unique within a model.
#[derive(Clone, Debug)]
pub struct Model {
    pub id: Option<String>,
    pub name: Option<String>,
    pub model_name: String,
    pub tables: Vec<Table>,
}

impl Model {
    pub open spec fn wf(&self) -> bool {
        forall|i: int, j: int|
            0 <= i < j < self.tables@.len() ==> self.tables@[i].name@ != self.tables@[j].name@
    }

    pub fn new(name: &str, model_name: &str) -> (r: Self)
        ensures
            r.wf(),
            r.id is None,
            r.name matches Some(n) && n@ == name@,
            r.model_name@ == model_name@,
            r.tables@.len() == 0,
    {
        Model {
            id: None,
            name: Some(name.to_owned()),
            model_name: model_name.to_owned(),
            tables: Vec::new(),
        }
    }

    /// Adds a table whose name is not yet in the model; returns whether it was added.
    pub fn add(&mut self, table: Table) -> (added: bool)
        requires
            old(self).wf(),
        ensures
            final(self).wf(),
            final(self).id == old(self).id,
            final(self).name == old(self).name,
            final(self).model_name == old(self).model_name,
            added == (index_of(model_table_names(old(self).tables@), table.name@) < 0),
            added ==> final(self).tables@ == old(self).tables@.push(table),
            !added ==> final(self).tables@ == old(self).tables@,
    {
        proof {
            lemma_index_of(model_table_names(self.tables@), table.name@);
        }
        match table_position(&self.tables, &table.name) {
            Some(_) => false,
            None => {
                let ghost t0 = self.tables@;
                self.tables.push(table);
                proof {
                    assert forall|i: int, j: int|
                        0 <= i < j < self.tables@.len() implies self.tables@[i].name@
                        != self.tables@[j].name@ by {
                        if j == t0.len() {
                            assert(model_table_names(t0)[i] == t0[i].name@);
                        }
                    }
                }
                true
            },
        }
    }

    pub fn get_table(&self, table_name: &str) -> (r: Option<&Table>)
        ensures
            ({
                let i = index_of(model_table_names(self.tables@), table_name@);
                match r {
                    Some(t) => i >= 0 && *t == self.tables@[i],
                    None => i < 0,
                }
            }),
    {
        let n = table_name.to_owned();
        proof {
            lemma_index_of(model_table_names(self.tables@), n@);
        }
        match table_position(&self.tables, &n) {
            Some(i) => Some(&self.tables[i]),
            None => None,
        }
    }

    /// The store's identifier of the model, once saved.
    pub fn get_id(&self) -> (r: Option<&String>)
        ensures
            match self.id {
                Some(i) => r is Some && *r->Some_0 == i,
                None => r is None,
            },
    {
        self.id.as_ref()
    }

    pub fn get_tables(&self) -> (r: &Vec<Table>)
        ensures
            *r == self.tables,
    {
        &self.tables
    }

    /// The name shown for the model: its name, else its model name.
    pub fn display_name(&self) -> (r: String)
        ensures
            r@ == match self.name {
                Some(n) => n@,
                None => self.model_name@,
            },
    {
        match &self.name {
            Some(n) => n.clone(),
            None => self.model_name.clone(),
        }
    }

    pub fn to_dao(&self) -> (r: ModelDao)
        ensures
            r.id is None,
            r.name@ == match self.name {
                Some(n) => n@,
                None => self.model_name@,
            },
            r.model_name@ == self.model_name@,
    {
        let shown = self.display_name();
        ModelDao::new(shown.as_str(), self.model_name.as_str())
    }

    pub fn from_dao(model: &ModelDao) -> (r: Self)
        ensures
            r.wf(),
            r.id == model.id,
            r.name == Some(model.name),
            r.model_name == model.model_name,
            r.tables@.len() == 0,
    {
        Model {
            id: copy_opt_string(&model.id),
            name: Some(model.name.clone()),
            model_name: model.model_name.clone(),
            tables: Vec::new(),
        }
    }
}

/// The introspected columns that belong to the table named `name`, in order.
pub open spec fn columns_of_table(name: Seq<char>, cols: Seq<ColumnDao>) -> Seq<ColumnDao>
    decreases cols.len(),
{
    if cols.len() == 0 {
        Seq::empty()
    } else if cols.last().table_name@ == name {
        columns_of_table(name, cols.drop_last()).push(cols.last())
    } else {
        columns_of_table(name, cols.drop_last())
    }
}

/// Gives each introspected table the introspected columns that name it.
pub fn assign_columns(tables: &mut Vec<TableDao>, columns: &Vec<ColumnDao>)
    ensures
        final(tables)@.len() == old(tables)@.len(),
        forall|k: int|
            0 <= k < final(tables)@.len() ==> {
                let t = #[trigger] final(tables)@[k];
                &&& t.id == old(tables)@[k].id
                &&& t.name == old(tables)@[k].name
                &&& t.columns is Some
                &&& t.columns->Some_0@ == keyed_columns(
                    columns_of_table(old(tables)@[k].name@, columns@),
                )
                &&& t.wf()
            },
{
    let ghost t0 = tables@;
    let mut k: usize = 0;
    while k < tables.len()
        invariant
            tables@.len() == t0.len(),
            k <= tables@.len(),
            forall|x: int| k <= x < tables@.len() ==> #[trigger] tables@[x] == t0[x],
            forall|x: int|
                0 <= x < k ==> {
                    let t = #[trigger] tables@[x];
                    &&& t.id == t0[x].id
                    &&& t.name == t0[x].name
                    &&& t.columns is Some
                    &&& t.columns->Some_0@ == keyed_columns(columns_of_table(t0[x].name@, columns@))
                    &&& t.wf()
                },
        decreases tables@.len() - k,
    {
        let mut mine: Vec<ColumnDao> = Vec::new();
        let mut c: usize = 0;
        while c < columns.len()
            invariant
                k < tables@.len(),
                c <= columns@.len(),
                mine@ == columns_of_table(tables@[k as int].name@, columns@.subrange(0, c as int)),
            decreases columns@.len() - c,
        {
            proof {
                assert(columns@.subrange(0, c + 1).drop_last() =~= columns@.subrange(0, c as int));
            }
            if columns[c].table_name == tables[k].name {
                mine.push(columns[c].duplicate());
            }
            c = c + 1;
        }
        assert(columns@.subrange(0, c as int) =~= columns@);
        let mut t = tables[k].duplicate();
        t.add_columns(mine);
        tables.set(k, t);
        k = k + 1;
    }
}

pub open spec fn distinct_dao_names(ts: Seq<TableDao>) -> bool {
    forall|i: int, j: int| 0 <= i < j < ts.len() ==> ts[i].name@ != ts[j].name@
}

/// The model of the live database named `model_name`: each introspected table
/// with the introspected columns that name it. A table whose name was already
/// taken is left out, so with distinct names every table is there, in order.
pub fn build_model(model_name: &str, tables: Vec<TableDao>, columns: &Vec<ColumnDao>) -> (r: Model)
    ensures
        r.wf(),
        r.name matches Some(n) && n@ == model_name@,
        r.model_name@ == model_name@,
        r.tables@.len() <= tables@.len(),
        distinct_dao_names(tables@) ==> r.tables@.len() == tables@.len(),
        distinct_dao_names(tables@) ==> forall|k: int|
            0 <= k < tables@.len() ==> (#[trigger] r.tables@[k]).name == tables@[k].name,
        forall|k: int|
            0 <= k < r.tables@.len() ==> {
                let t = #[trigger] r.tables@[k];
                &&& t.condition is None
                &&& t.take is None
                &&& t.skip is None
                &&& t.columns is Some
                &&& t.columns->Some_0@ == columns_from_daos(
                    keyed_columns(columns_of_table(t.name@, columns@)),
                )
                &&& unique_names(column_names(t.columns->Some_0@))
            },
        forall|k: int|
            0 <= k < r.tables@.len() ==> exists|j: int|
                0 <= j < tables@.len() && (#[trigger] r.tables@[k]).name == tables@[j].name && (
                forall|i: int| 0 <= i < j ==> tables@[i].name@ != tables@[j].name@),
{
    let ghost input = tables@;
    let mut ts = tables;
    assign_columns(&mut ts, columns);
    let mut model = Model::new(model_name, model_name);
    let mut k: usize = 0;
    while k < ts.len()
        invariant
            model.wf(),
            model.name matches Some(n) && n@ == model_name@,
            model.model_name@ == model_name@,
            ts@.len() == input.len(),
            forall|x: int| 0 <= x < ts@.len() ==> (#[trigger] ts@[x]).name == input[x].name,
            k <= ts@.len(),
            model.tables@.len() <= k,
            distinct_dao_names(input) ==> model.tables@.len() == k,
            distinct_dao_names(input) ==> forall|x: int|
                0 <= x < k ==> (#[trigger] model.tables@[x]).name == input[x].name,
            forall|x: int|
                0 <= x < ts@.len() ==> {
                    let t = #[trigger] ts@[x];
                    &&& t.columns is Some
                    &&& t.columns->Some_0@ == keyed_columns(columns_of_table(t.name@, columns@))
                    &&& t.wf()
                },
            forall|x: int|
                0 <= x < model.tables@.len() ==> {
                    let t = #[trigger] model.tables@[x];
                    &&& t.condition is None
                    &&& t.take is None
                    &&& t.skip is None
                    &&& t.columns is Some
                    &&& t.columns->Some_0@ == columns_from_daos(
                        keyed_columns(columns_of_table(t.name@, columns@)),
                    )
                    &&& unique_names(column_names(t.columns->Some_0@))
                },
            forall|i: int|
                0 <= i < k ==> index_of(
                    model_table_names(model.tables@),
                    (#[trigger] input[i]).name@,
                ) >= 0,
            forall|x: int|
                0 <= x < model.tables@.len() ==> exists|j: int|
                    0 <= j < k && (#[trigger] model.tables@[x]).name == input[j].name && (forall|
                        i: int,
                    | 0 <= i < j ==> input[i].name@ != input[j].name@),
        decreases ts@.len() - k,
    {
        let t = Table::from_dao(ts[k].duplicate());
        let ghost m0 = model.tables@;
        proof {
            let dc = keyed_columns(columns_of_table(ts@[k as int].name@, columns@));
            assert(column_names(columns_from_daos(dc)) =~= dao_column_names(dc));
            assert(t.name == input[k as int].name);
            lemma_index_of(model_table_names(m0), t.name@);
            if distinct_dao_names(input) {
                let mn = model_table_names(model.tables@);
                assert forall|i: int| 0 <= i < mn.len() implies mn[i] != t.name@ by {
                    assert(mn[i] == model.tables@[i].name@);
                    assert(model.tables@[i].name == input[i].name);
                }
                lemma_index_of(mn, t.name@);
            }
        }
        let ghost tn = t.name;
        let added = model.add(t);
        proof {
            let mn = model_table_names(model.tables@);
            let mn0 = model_table_names(m0);
            if added {
                assert forall|i: int| 0 <= i < k implies input[i].name@ != input[k as int].name@ by {
                    lemma_index_of(mn0, input[i].name@);
                }
                assert forall|i: int| 0 <= i < k + 1 implies index_of(
                    mn,
                    (#[trigger] input[i]).name@,
                ) >= 0 by {
                    lemma_index_of(mn, input[i].name@);
                    if i < k {
                        lemma_index_of(mn0, input[i].name@);
                        let p = index_of(mn0, input[i].name@);
                        assert(mn[p] == mn0[p]);
                    } else {
                        assert(mn[mn.len() - 1] == tn@);
                    }
                }
                assert forall|x: int| 0 <= x < model.tables@.len() implies exists|j: int|
                    0 <= j < k + 1 && (#[trigger] model.tables@[x]).name == input[j].name && (forall|
                        i: int,
                    | 0 <= i < j ==> input[i].name@ != input[j].name@) by {
                    if x < m0.len() {
                        assert(model.tables@[x] == m0[x]);
                    } else {
                        assert(model.tables@[x].name == input[k as int].name);
                    }
                }
            } else {
                assert(input[k as int].name@ == tn@);
            }
        }
        k = k + 1;
    }
    model
}

} // verus!
