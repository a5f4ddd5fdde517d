//! SQL text for extracting and inserting rows.
use vstd::prelude::*;
use crate::value::{ColumnValue, int_text, push_char, push_nat};

verus! {

/// A statement that can be written out as SQL text.
pub trait Query {
    /// Whether the statement can be written.
    spec fn ready(&self) -> bool;

    /// The SQL text of the statement.
    spec fn query_text(&self) -> Seq<char>;

    fn build(&self) -> (r: String)
        requires
            self.ready(),
        ensures
            r@ == self.query_text(),
    ;
}

/// Pagination was asked for a table without a primary key to order by.
#[derive(Clone, Copy, Debug, PartialEq, Eq, Structural)]
pub enum BuilderError {
    MissingPrimaryKey,
}

pub open spec fn bracketed(c: Seq<char>) -> Seq<char> {
    seq!['['] + c + seq![']']
}

/// `[a], [b], [c]`
pub open spec fn column_list(cols: Seq<Seq<char>>) -> Seq<char>
    decreases cols.len(),
{
    if cols.len() == 0 {
        Seq::empty()
    } else if cols.len() == 1 {
        bracketed(cols[0])
    } else {
        column_list(cols.drop_last()) + seq![',', ' '] + bracketed(cols.last())
    }
}

/// ` a, b, c`: each key after a space, separated by commas.
pub open spec fn key_list(keys: Seq<Seq<char>>) -> Seq<char>
    decreases keys.len(),
{
    if keys.len() == 0 {
        Seq::empty()
    } else if keys.len() == 1 {
        seq![' '] + keys[0]
    } else {
        key_list(keys.drop_last()) + seq![','] + seq![' '] + keys.last()
    }
}

/// `a, b, c`
pub open spec fn value_list(vals: Seq<Seq<char>>) -> Seq<char>
    decreases vals.len(),
{
    if vals.len() == 0 {
        Seq::empty()
    } else if vals.len() == 1 {
        vals[0]
    } else {
        value_list(vals.drop_last()) + seq![',', ' '] + vals.last()
    }
}

pub open spec fn select_text(
    table: Seq<char>,
    columns: Seq<Seq<char>>,
    keys: Seq<Seq<char>>,
    skip: Option<u64>,
    take: Option<u64>,
    predicate: Option<Seq<char>>,
) -> Seq<char> {
    let base = "select "@ + column_list(columns) + "from "@ + table;
    let filtered = match predicate {
        Some(p) => base + " where "@ + p,
        None => base,
    };
    match (skip, take) {
        (Some(s), Some(t)) => filtered + " order by "@ + key_list(keys) + " offset "@ + int_text(
            s as int,
        ) + " rows fetch next "@ + int_text(t as int) + " rows only"@,
        _ => filtered,
    }
}

pub open spec fn insert_text(table: Seq<char>, columns: Seq<Seq<char>>, literals: Seq<Seq<char>>) -> Seq<
    char,
> {
    "insert into "@ + table + "("@ + column_list(columns) + ") values ("@ + value_list(literals)
        + ");"@
}

/// A single-quoted SQL string literal, each quote inside doubled.
pub open spec fn quoted(t: Seq<char>) -> Seq<char> {
    seq!['\''] + escaped(t) + seq!['\'']
}

pub open spec fn escaped(t: Seq<char>) -> Seq<char>
    decreases t.len(),
{
    if t.len() == 0 {
        Seq::empty()
    } else if t.last() == '\'' {
        escaped(t.drop_last()) + seq!['\'', '\'']
    } else {
        escaped(t.drop_last()).push(t.last())
    }
}

/// How a value is written inside an insert: text-like values quoted, others as rendered.
pub open spec fn literal_text(v: ColumnValue) -> Seq<char> {
    if v.is_null() {
        v.text()
    } else {
        match v {
            ColumnValue::String(_) => quoted(v.text()),
            ColumnValue::Uuid(_) => quoted(v.text()),
            ColumnValue::DateTime2(_) => quoted(v.text()),
            ColumnValue::DateTimeOffset(_) => quoted(v.text()),
            _ => v.text(),
        }
    }
}

pub open spec fn str_seqs(v: Seq<String>) -> Seq<Seq<char>> {
    v.map_values(|s: String| s@)
}

pub open spec fn all_wf(vals: Seq<ColumnValue>) -> bool {
    forall|i: int| 0 <= i < vals.len() ==> #[trigger] vals[i].wf()
}

fn append_column_list(s: &mut String, cols: &Vec<String>)
    ensures
        final(s)@ == old(s)@ + column_list(str_seqs(cols@)),
{
    let ghost s0 = s@;
    let ghost cv = str_seqs(cols@);
    let mut i: usize = 0;
    while i < cols.len()
        invariant
            cv == str_seqs(cols@),
            i <= cols@.len(),
            s@ == s0 + column_list(cv.subrange(0, i as int)),
        decreases cols@.len() - i,
    {
        if i > 0 {
            s.append(", ");
        }
        push_char(s, '[');
        s.append(cols[i].as_str());
        push_char(s, ']');
        proof {
            reveal_strlit(", ");
            let pre = cv.subrange(0, i + 1);
            assert(pre.drop_last() =~= cv.subrange(0, i as int));
            if i == 0 {
                assert(s@ =~= s0 + column_list(pre));
            } else {
                assert(s@ =~= s0 + column_list(pre));
            }
        }
        i = i + 1;
    }
    assert(cv.subrange(0, i as int) =~= cv);
}

fn append_key_list(s: &mut String, keys: &Vec<String>)
    ensures
        final(s)@ == old(s)@ + key_list(str_seqs(keys@)),
{
    let ghost s0 = s@;
    let ghost kv = str_seqs(keys@);
    let mut i: usize = 0;
    while i < keys.len()
        invariant
            kv == str_seqs(keys@),
            i <= keys@.len(),
            s@ == s0 + key_list(kv.subrange(0, i as int)),
        decreases keys@.len() - i,
    {
        if i > 0 {
            push_char(s, ',');
        }
        push_char(s, ' ');
        s.append(keys[i].as_str());
        proof {
            let pre = kv.subrange(0, i + 1);
            assert(pre.drop_last() =~= kv.subrange(0, i as int));
            assert(s@ =~= s0 + key_list(pre));
        }
        i = i + 1;
    }
    assert(kv.subrange(0, i as int) =~= kv);
}

fn append_value_list(s: &mut String, vals: &Vec<String>)
    ensures
        final(s)@ == old(s)@ + value_list(str_seqs(vals@)),
{
    let ghost s0 = s@;
    let ghost vv = str_seqs(vals@);
    let mut i: usize = 0;
    while i < vals.len()
        invariant
            vv == str_seqs(vals@),
            i <= vals@.len(),
            s@ == s0 + value_list(vv.subrange(0, i as int)),
        decreases vals@.len() - i,
    {
        if i > 0 {
            s.append(", ");
        }
        s.append(vals[i].as_str());
        proof {
            reveal_strlit(", ");
            let pre = vv.subrange(0, i + 1);
            assert(pre.drop_last() =~= vv.subrange(0, i as int));
            assert(s@ =~= s0 + value_list(pre));
        }
        i = i + 1;
    }
    assert(vv.subrange(0, i as int) =~= vv);
}

/// The SELECT statement of one table: its columns, optional filter and
/// optional pagination in primary-key order.
pub struct DataQueryBuilder {
    pub table: String,
    pub columns: Vec<String>,
    pub primary_key: Vec<String>,
    pub skip: Option<u64>,
    pub take: Option<u64>,
    pub predicate: Option<String>,
}

impl DataQueryBuilder {
    /// Fails exactly when both `skip` and `take` are given and there is no
    /// primary-key column to order by.
    pub fn new(
        table: &str,
        columns: &Vec<String>,
        primary_key: Vec<String>,
        skip: Option<u64>,
        take: Option<u64>,
        predicate: Option<&String>,
    ) -> (r: Result<Self, BuilderError>)
        ensures
            (skip is Some && take is Some && primary_key@.len() == 0) <==> r is Err,
            r matches Ok(b) ==> {
                &&& b.table@ == table@
                &&& b.columns@ == columns@
                &&& b.primary_key == primary_key
                &&& b.skip == skip
                &&& b.take == take
                &&& match predicate {
                    Some(p) => b.predicate == Some(*p),
                    None => b.predicate is None,
                }
                &&& b.ready()
            },
    {
        if skip.is_some() && take.is_some() && primary_key.len() == 0 {
            return Err(BuilderError::MissingPrimaryKey);
        }
        let mut cols: Vec<String> = Vec::new();
        let mut i: usize = 0;
        while i < columns.len()
            invariant
                i <= columns@.len(),
                cols@ == columns@.subrange(0, i as int),
            decreases columns@.len() - i,
        {
            cols.push(columns[i].clone());
            i = i + 1;
            assert(cols@ =~= columns@.subrange(0, i as int));
        }
        assert(columns@.subrange(0, i as int) =~= columns@);
        Ok(
            DataQueryBuilder {
                table: table.to_owned(),
                columns: cols,
                primary_key,
                skip,
                take,
                predicate: match predicate {
                    Some(p) => Some(p.clone()),
                    None => None,
                },
            },
        )
    }
}

impl Query for DataQueryBuilder {
    open spec fn ready(&self) -> bool {
        !(self.skip is Some && self.take is Some && self.primary_key@.len() == 0)
    }

    open spec fn query_text(&self) -> Seq<char> {
        select_text(
            self.table@,
            str_seqs(self.columns@),
            str_seqs(self.primary_key@),
            self.skip,
            self.take,
            match self.predicate {
                Some(p) => Some(p@),
                None => None,
            },
        )
    }

    fn build(&self) -> (r: String) {
        let mut q = String::new();
        q.append("select ");
        append_column_list(&mut q, &self.columns);
        q.append("from ");
        q.append(self.table.as_str());
        let ghost base = q@;
        match &self.predicate {
            Some(p) => {
                q.append(" where ");
                q.append(p.as_str());
            },
            None => {},
        }
        let ghost filtered = q@;
        match (self.skip, self.take) {
            (Some(s), Some(t)) => {
                q.append(" order by ");
                append_key_list(&mut q, &self.primary_key);
                q.append(" offset ");
                push_nat(&mut q, s);
                q.append(" rows fetch next ");
                push_nat(&mut q, t);
                q.append(" rows only");
            },
            _ => {},
        }
        proof {
            reveal_strlit("select ");
            reveal_strlit("from ");
            reveal_strlit(" where ");
            reveal_strlit(" order by ");
            reveal_strlit(" offset ");
            reveal_strlit(" rows fetch next ");
            reveal_strlit(" rows only");
            assert(q@ =~= self.query_text());
        }
        q
    }
}

/// Appends `t` as a quoted SQL string literal.
fn append_quoted(s: &mut String, t: &String)
    ensures
        final(s)@ == old(s)@ + quoted(t@),
{
    let ghost s0 = s@;
    push_char(s, '\'');
    let n = t.as_str().unicode_len();
    let mut i: usize = 0;
    while i < n
        invariant
            n == t@.len(),
            i <= n,
            s@ == s0 + seq!['\''] + escaped(t@.subrange(0, i as int)),
        decreases n - i,
    {
        let c = t.as_str().get_char(i);
        if c == '\'' {
            push_char(s, '\'');
            push_char(s, '\'');
        } else {
            push_char(s, c);
        }
        proof {
            let pre = t@.subrange(0, i + 1);
            assert(pre.drop_last() =~= t@.subrange(0, i as int));
            assert(pre.last() == c);
            assert(s@ =~= s0 + seq!['\''] + escaped(pre));
        }
        i = i + 1;
    }
    push_char(s, '\'');
    assert(t@.subrange(0, i as int) =~= t@);
    assert(s@ =~= s0 + quoted(t@));
}

/// How a value is written inside an insert statement.
pub fn sql_literal(v: &ColumnValue) -> (r: String)
    requires
        v.wf(),
    ensures
        r@ == literal_text(*v),
{
    let text = v.render();
    let quote = match v {
        ColumnValue::String(Some(_)) => true,
        ColumnValue::Uuid(Some(_)) => true,
        ColumnValue::DateTime2(Some(_)) => true,
        ColumnValue::DateTimeOffset(Some(_)) => true,
        _ => false,
    };
    if quote {
        let mut s = String::new();
        append_quoted(&mut s, &text);
        assert(s@ =~= literal_text(*v));
        s
    } else {
        text
    }
}

/// The insert statement of one row, from its already written literals.
pub fn insert_statement(table: &str, columns: &Vec<String>, literals: &Vec<String>) -> (r: String)
    ensures
        r@ == insert_text(table@, str_seqs(columns@), str_seqs(literals@)),
{
    let mut q = String::new();
    q.append("insert into ");
    q.append(table);
    q.append("(");
    append_column_list(&mut q, columns);
    q.append(") values (");
    append_value_list(&mut q, literals);
    q.append(");");
    proof {
        reveal_strlit("insert into ");
        reveal_strlit("(");
        reveal_strlit(") values (");
        reveal_strlit(");");
        assert(q@ =~= insert_text(table@, str_seqs(columns@), str_seqs(literals@)));
    }
    q
}

/// The INSERT statement of one row of a table.
pub struct DataInsertQueryBuilder {
    pub table: String,
    pub columns: Vec<String>,
    pub data: Vec<ColumnValue>,
}

impl DataInsertQueryBuilder {
    pub fn new(table: &str, columns: &Vec<String>, data: Vec<ColumnValue>) -> (r: Self)
        ensures
            r.table@ == table@,
            r.columns@ == columns@,
            r.data == data,
    {
        let mut cols: Vec<String> = Vec::new();
        let mut i: usize = 0;
        while i < columns.len()
            invariant
                i <= columns@.len(),
                cols@ == columns@.subrange(0, i as int),
            decreases columns@.len() - i,
        {
            cols.push(columns[i].clone());
            i = i + 1;
            assert(cols@ =~= columns@.subrange(0, i as int));
        }
        assert(columns@.subrange(0, i as int) =~= columns@);
        DataInsertQueryBuilder { table: table.to_owned(), columns: cols, data }
    }
}

impl Query for DataInsertQueryBuilder {
    open spec fn ready(&self) -> bool {
        all_wf(self.data@)
    }

    open spec fn query_text(&self) -> Seq<char> {
        insert_text(
            self.table@,
            str_seqs(self.columns@),
            self.data@.map_values(|v: ColumnValue| literal_text(v)),
        )
    }

    fn build(&self) -> (r: String) {
        let mut lits: Vec<String> = Vec::new();
        let mut i: usize = 0;
        while i < self.data.len()
            invariant
                all_wf(self.data@),
                i <= self.data@.len(),
                str_seqs(lits@) == self.data@.subrange(0, i as int).map_values(
                    |v: ColumnValue| literal_text(v),
                ),
            decreases self.data@.len() - i,
        {
            assert(self.data@[i as int].wf());
            let ghost l0 = lits@;
            lits.push(sql_literal(&self.data[i]));
            proof {
                assert(str_seqs(lits@) =~= str_seqs(l0).push(literal_text(self.data@[i as int])));
                assert(self.data@.subrange(0, i + 1) =~= self.data@.subrange(0, i as int).push(
                    self.data@[i as int],
                ));
            }
            i = i + 1;
            assert(str_seqs(lits@) =~= self.data@.subrange(0, i as int).map_values(
                |v: ColumnValue| literal_text(v),
            ));
        }
        assert(self.data@.subrange(0, i as int) =~= self.data@);
        insert_statement(self.table.as_str(), &self.columns, &lits)
    }
}

} // verus!
