//! Ordering tables along their foreign keys.
//!
//! Tables are described by their names and, for each, the names of the tables
//! that its foreign keys reference, in column order. An order is a sequence of
//! indices into the input.
use vstd::prelude::*;
use crate::names::{
    index_of, lemma_index_of, lemma_index_of_prefix, lemma_index_of_insert,
    lemma_index_of_insert_new,
};

verus! {

/// Which of the two orderings to produce.
#[derive(Clone, Copy, Debug, PartialEq, Eq, Structural)]
pub enum OrderPolicy {
    /// Referenced tables come before the tables that reference them (writing
    /// into a store that enforces foreign keys).
    ConstraintSafe,
    /// A referencing table is grouped in front of a table it references that
    /// is already placed (extraction bookkeeping).
    Locality,
}

/// Some foreign key references a table that is not in the input.
#[derive(Clone, Debug)]
pub struct DependencyError {
    /// The unresolved table names, in the order they were met.
    pub missing: Vec<String>,
}

pub open spec fn str_views(v: Seq<String>) -> Seq<Seq<char>> {
    v.map_values(|s: String| s@)
}

pub open spec fn ref_views(v: Seq<Vec<String>>) -> Seq<Seq<Seq<char>>> {
    v.map_values(|r: Vec<String>| str_views(r@))
}

/// The names of the tables placed so far.
pub open spec fn placed(names: Seq<Seq<char>>, out: Seq<usize>) -> Seq<Seq<char>> {
    out.map_values(|j: usize| names[j as int])
}

pub open spec fn valid_order(names: Seq<Seq<char>>, out: Seq<usize>) -> bool {
    forall|t: int| 0 <= t < out.len() ==> out[t] < names.len()
}

/// One foreign key of the table being placed, at candidate index `p`.
pub open spec fn place_ref(
    names: Seq<Seq<char>>,
    policy: OrderPolicy,
    out: Seq<usize>,
    p: int,
    missing: Seq<Seq<char>>,
    r: Seq<char>,
) -> (Seq<usize>, int, Seq<Seq<char>>) {
    let q = index_of(placed(names, out), r);
    if q < 0 {
        let j = index_of(names, r);
        if j < 0 {
            (out, p, missing.push(r))
        } else {
            (
                out.insert(p, j as usize),
                if policy == OrderPolicy::ConstraintSafe {
                    p + 1
                } else {
                    p
                },
                missing,
            )
        }
    } else {
        (
            out,
            if policy == OrderPolicy::ConstraintSafe {
                q + 1
            } else {
                q
            },
            missing,
        )
    }
}

/// The foreign keys `refs` of the table being placed, in order.
pub open spec fn place_refs(
    names: Seq<Seq<char>>,
    policy: OrderPolicy,
    out: Seq<usize>,
    p: int,
    missing: Seq<Seq<char>>,
    refs: Seq<Seq<char>>,
) -> (Seq<usize>, int, Seq<Seq<char>>)
    decreases refs.len(),
{
    if refs.len() == 0 {
        (out, p, missing)
    } else {
        let (o, q, m) = place_ref(names, policy, out, p, missing, refs[0]);
        place_refs(names, policy, o, q, m, refs.drop_first())
    }
}

/// Placing the `k`-th input table: first what it references, then itself.
pub open spec fn place_table(
    names: Seq<Seq<char>>,
    refs: Seq<Seq<Seq<char>>>,
    policy: OrderPolicy,
    out: Seq<usize>,
    missing: Seq<Seq<char>>,
    k: int,
) -> (Seq<usize>, Seq<Seq<char>>) {
    let i = index_of(placed(names, out), names[k]);
    let p = if i >= 0 {
        i
    } else {
        out.len() as int
    };
    let (o, q, m) = place_refs(names, policy, out, p, missing, refs[k]);
    if index_of(placed(names, o), names[k]) >= 0 {
        (o, m)
    } else {
        (o.insert(q, k as usize), m)
    }
}

/// Placing the input tables from the `k`-th on, in input order.
pub open spec fn place_from(
    names: Seq<Seq<char>>,
    refs: Seq<Seq<Seq<char>>>,
    policy: OrderPolicy,
    out: Seq<usize>,
    missing: Seq<Seq<char>>,
    k: int,
) -> (Seq<usize>, Seq<Seq<char>>)
    decreases names.len() - k,
{
    if k < 0 || k >= names.len() {
        (out, missing)
    } else {
        let (o, m) = place_table(names, refs, policy, out, missing, k);
        place_from(names, refs, policy, o, m, k + 1)
    }
}

/// The order of the tables named `names`, whose foreign keys reference `refs`,
/// with the unresolved references met on the way.
pub open spec fn table_order(
    names: Seq<Seq<char>>,
    refs: Seq<Seq<Seq<char>>>,
    policy: OrderPolicy,
) -> (Seq<usize>, Seq<Seq<char>>) {
    place_from(names, refs, policy, Seq::empty(), Seq::empty(), 0)
}

/// The first position in `out` of a table named `n`.
fn position_in(names: &Vec<String>, out: &Vec<usize>, n: &String) -> (r: Option<usize>)
    requires
        valid_order(str_views(names@), out@),
    ensures
        match r {
            Some(i) => i as int == index_of(placed(str_views(names@), out@), n@),
            None => index_of(placed(str_views(names@), out@), n@) < 0,
        },
{
    let ghost pl = placed(str_views(names@), out@);
    let mut i: usize = 0;
    while i < out.len()
        invariant
            valid_order(str_views(names@), out@),
            pl == placed(str_views(names@), out@),
            i <= out@.len(),
            index_of(pl.subrange(0, i as int), n@) < 0,
        decreases out@.len() - i,
    {
        if names[out[i]] == *n {
            proof {
                assert(pl.subrange(0, i + 1).drop_last() =~= pl.subrange(0, i as int));
                lemma_index_of_prefix(pl, i + 1, n@);
            }
            return Some(i);
        }
        proof {
            assert(pl.subrange(0, i + 1).drop_last() =~= pl.subrange(0, i as int));
        }
        i = i + 1;
    }
    proof {
        assert(pl.subrange(0, i as int) =~= pl);
    }
    None
}

/// The first position in the input of a table named `n`.
fn find_in(names: &Vec<String>, n: &String) -> (r: Option<usize>)
    ensures
        match r {
            Some(j) => j as int == index_of(str_views(names@), n@),
            None => index_of(str_views(names@), n@) < 0,
        },
{
    let ghost nv = str_views(names@);
    let mut i: usize = 0;
    while i < names.len()
        invariant
            nv == str_views(names@),
            i <= names@.len(),
            index_of(nv.subrange(0, i as int), n@) < 0,
        decreases names@.len() - i,
    {
        if names[i] == *n {
            proof {
                assert(nv.subrange(0, i + 1).drop_last() =~= nv.subrange(0, i as int));
                lemma_index_of_prefix(nv, i + 1, n@);
            }
            return Some(i);
        }
        proof {
            assert(nv.subrange(0, i + 1).drop_last() =~= nv.subrange(0, i as int));
        }
        i = i + 1;
    }
    proof {
        assert(nv.subrange(0, i as int) =~= nv);
    }
    None
}

proof fn lemma_insert_valid(names: Seq<Seq<char>>, out: Seq<usize>, p: int, j: usize)
    requires
        valid_order(names, out),
        0 <= p <= out.len(),
        j < names.len(),
    ensures
        valid_order(names, out.insert(p, j)),
        placed(names, out.insert(p, j)) == placed(names, out).insert(p, names[j as int]),
{
    let s = out.insert(p, j);
    assert forall|t: int| 0 <= t < s.len() implies s[t] < names.len() by {
        if t > p {
            assert(s[t] == out[t - 1]);
        }
    }
    assert(placed(names, s) =~= placed(names, out).insert(p, names[j as int]));
}

/// Orders the input tables by `policy`: `names[k]` is the `k`-th table's name
/// and `refs[k]` the tables that its foreign keys reference, in column order.
/// The result lists input indices; it is an error exactly when some reference
/// cannot be found among the names, and then no order is returned.
pub fn resolve_order(names: &Vec<String>, refs: &Vec<Vec<String>>, policy: OrderPolicy) -> (r:
    Result<Vec<usize>, DependencyError>)
    requires
        names@.len() == refs@.len(),
    ensures
        ({
            let (o, m) = table_order(str_views(names@), ref_views(refs@), policy);
            match r {
                Ok(v) => m.len() == 0 && v@ == o,
                Err(e) => m.len() > 0 && str_views(e.missing@) == m,
            }
        }),
        r is Ok ==> valid_order(str_views(names@), r->Ok_0@),
{
    let ghost nv = str_views(names@);
    let ghost rv = ref_views(refs@);
    let mut out: Vec<usize> = Vec::new();
    let mut missing: Vec<String> = Vec::new();
    let mut k: usize = 0;
    assert(str_views(missing@) =~= Seq::<Seq<char>>::empty());
    while k < names.len()
        invariant
            nv == str_views(names@),
            rv == ref_views(refs@),
            names@.len() == refs@.len(),
            k <= names@.len(),
            valid_order(nv, out@),
            place_from(nv, rv, policy, out@, str_views(missing@), k as int) == table_order(
                nv,
                rv,
                policy,
            ),
        decreases names@.len() - k,
    {
        let ghost out0 = out@;
        let ghost miss0 = str_views(missing@);
        let name = &names[k];
        let mut p: usize = match position_in(names, &out, name) {
            Some(i) => i,
            None => out.len(),
        };
        proof {
            lemma_index_of(placed(nv, out@), name@);
        }
        let ghost p0 = p as int;
        let fks = &refs[k];
        assert(rv[k as int] == str_views(fks@));
        assert(str_views(fks@).subrange(0, fks@.len() as int) =~= str_views(fks@));
        let mut t: usize = 0;
        while t < fks.len()
            invariant
                nv == str_views(names@),
                rv == ref_views(refs@),
                names@.len() == refs@.len(),
                k < names@.len(),
                *fks == refs@[k as int],
                t <= fks@.len(),
                p <= out@.len(),
                valid_order(nv, out@),
                place_refs(
                    nv,
                    policy,
                    out@,
                    p as int,
                    str_views(missing@),
                    str_views(fks@).subrange(t as int, fks@.len() as int),
                ) == place_refs(nv, policy, out0, p0, miss0, rv[k as int]),
            decreases fks@.len() - t,
        {
            let ghost fv = str_views(fks@);
            let ghost mv = str_views(missing@);
            let r = &fks[t];
            proof {
                assert(fv.subrange(t as int, fv.len() as int).drop_first() =~= fv.subrange(
                    t + 1,
                    fv.len() as int,
                ));
                assert(fv.subrange(t as int, fv.len() as int)[0] == r@);
            }
            let ghost expect = place_ref(nv, policy, out@, p as int, mv, r@);
            let len_before = out.len();
            proof {
                lemma_index_of(placed(nv, out@), r@);
            }
            match position_in(names, &out, r) {
                None => match find_in(names, r) {
                    None => {
                        missing.push(r.clone());
                        assert(str_views(missing@) =~= mv.push(r@));
                    },
                    Some(j) => {
                        proof {
                            lemma_index_of(nv, r@);
                            lemma_insert_valid(nv, out@, p as int, j);
                        }
                        out.insert(p, j);
                        let len_after = out.len();
                        assert(p < len_after);
                        if policy == OrderPolicy::ConstraintSafe {
                            p = p + 1;
                        }
                    },
                },
                Some(q) => {
                    p = if policy == OrderPolicy::ConstraintSafe {
                        q + 1
                    } else {
                        q
                    };
                },
            }
            assert(expect == (out@, p as int, str_views(missing@)));
            t = t + 1;
        }
        proof {
            assert(str_views(fks@).subrange(t as int, fks@.len() as int).len() == 0);
        }
        if position_in(names, &out, name).is_none() {
            proof {
                lemma_insert_valid(nv, out@, p as int, k);
            }
            out.insert(p, k);
        }
        k = k + 1;
    }
    if missing.len() == 0 {
        Ok(out)
    } else {
        Err(DependencyError { missing })
    }
}

/// Constraint-safe order: a table not yet placed, whose one foreign key
/// references another table of the input, lands after that table: right after
/// it when it was already placed, else right after its insertion.
pub proof fn lemma_constraint_safe_lands_after(
    names: Seq<Seq<char>>,
    refs: Seq<Seq<Seq<char>>>,
    out: Seq<usize>,
    missing: Seq<Seq<char>>,
    k: int,
)
    requires
        0 <= k < names.len() <= usize::MAX,
        k < refs.len(),
        valid_order(names, out),
        refs[k].len() == 1,
        refs[k][0] != names[k],
        index_of(names, refs[k][0]) >= 0,
        index_of(placed(names, out), names[k]) < 0,
    ensures
        ({
            let (o, m) = place_table(names, refs, OrderPolicy::ConstraintSafe, out, missing, k);
            &&& m == missing
            &&& valid_order(names, o)
            &&& 0 <= index_of(placed(names, o), refs[k][0])
            &&& index_of(placed(names, o), names[k]) == index_of(placed(names, o), refs[k][0]) + 1
        }),
{
    reveal_with_fuel(place_refs, 2);
    let r = refs[k][0];
    let pl = placed(names, out);
    let q = index_of(pl, r);
    lemma_index_of(pl, r);
    lemma_index_of(names, r);
    assert(refs[k].drop_first().len() == 0);
    let p = out.len() as int;
    let cs = OrderPolicy::ConstraintSafe;
    if q >= 0 {
        assert(place_refs(names, cs, out, p, missing, refs[k]) == (out, q + 1, missing));
        lemma_insert_valid(names, out, q + 1, k as usize);
        lemma_index_of_insert_new(pl, q + 1, names[k]);
        lemma_index_of_insert(pl, q + 1, names[k], r);
    } else {
        let j = index_of(names, r);
        lemma_insert_valid(names, out, p, j as usize);
        let out1 = out.insert(p, j as usize);
        let pl1 = placed(names, out1);
        assert(pl1 == pl.insert(p, r));
        assert(place_refs(names, cs, out, p, missing, refs[k]) == (out1, p + 1, missing));
        lemma_index_of_insert_new(pl, p, r);
        lemma_index_of_insert(pl, p, r, names[k]);
        lemma_insert_valid(names, out1, p + 1, k as usize);
        lemma_index_of_insert_new(pl1, p + 1, names[k]);
        lemma_index_of_insert(pl1, p + 1, names[k], r);
    }
}

/// `a` is placed before `b`.
pub open spec fn placed_before(
    names: Seq<Seq<char>>,
    out: Seq<usize>,
    a: Seq<char>,
    b: Seq<char>,
) -> bool {
    0 <= index_of(placed(names, out), a) < index_of(placed(names, out), b)
}

/// Inserting a name that is not placed keeps the relative order of placed names.
proof fn lemma_insert_keeps(names: Seq<Seq<char>>, out: Seq<usize>, p: int, j: usize, a: Seq<char>, b: Seq<char>)
    requires
        valid_order(names, out),
        0 <= p <= out.len(),
        j < names.len(),
        index_of(placed(names, out), names[j as int]) < 0,
        placed_before(names, out, a, b),
    ensures
        valid_order(names, out.insert(p, j)),
        placed_before(names, out.insert(p, j), a, b),
{
    let pl = placed(names, out);
    lemma_index_of(pl, names[j as int]);
    lemma_index_of(pl, a);
    lemma_index_of(pl, b);
    assert(names[j as int] != a);
    assert(names[j as int] != b);
    lemma_insert_valid(names, out, p, j);
    lemma_index_of_insert(pl, p, names[j as int], a);
    lemma_index_of_insert(pl, p, names[j as int], b);
}

/// Placing foreign keys keeps the relative order of placed names, keeps the
/// order valid and the candidate within bounds.
proof fn lemma_place_refs_keeps(
    names: Seq<Seq<char>>,
    policy: OrderPolicy,
    out: Seq<usize>,
    p: int,
    missing: Seq<Seq<char>>,
    refs: Seq<Seq<char>>,
    a: Seq<char>,
    b: Seq<char>,
)
    requires
        names.len() <= usize::MAX,
        valid_order(names, out),
        0 <= p <= out.len(),
    ensures
        ({
            let (o, q, m) = place_refs(names, policy, out, p, missing, refs);
            &&& valid_order(names, o)
            &&& 0 <= q <= o.len()
            &&& placed_before(names, out, a, b) ==> placed_before(names, o, a, b)
        }),
    decreases refs.len(),
{
    if refs.len() > 0 {
        let r = refs[0];
        let pl = placed(names, out);
        lemma_index_of(pl, r);
        lemma_index_of(names, r);
        let (o1, q1, m1) = place_ref(names, policy, out, p, missing, r);
        if index_of(pl, r) < 0 && index_of(names, r) >= 0 {
            let j = index_of(names, r) as usize;
            lemma_insert_valid(names, out, p, j);
            if placed_before(names, out, a, b) {
                lemma_insert_keeps(names, out, p, j, a, b);
            }
        }
        lemma_place_refs_keeps(names, policy, o1, q1, m1, refs.drop_first(), a, b);
    }
}

/// A step keeps the relative order of the names already placed.
proof fn lemma_place_table_keeps(
    names: Seq<Seq<char>>,
    refs: Seq<Seq<Seq<char>>>,
    policy: OrderPolicy,
    out: Seq<usize>,
    missing: Seq<Seq<char>>,
    k: int,
    a: Seq<char>,
    b: Seq<char>,
)
    requires
        names.len() <= usize::MAX,
        0 <= k < names.len(),
        valid_order(names, out),
    ensures
        valid_order(names, place_table(names, refs, policy, out, missing, k).0),
        placed_before(names, out, a, b) ==> placed_before(
            names,
            place_table(names, refs, policy, out, missing, k).0,
            a,
            b,
        ),
{
    let pl = placed(names, out);
    lemma_index_of(pl, names[k]);
    let i = index_of(pl, names[k]);
    let p = if i >= 0 {
        i
    } else {
        out.len() as int
    };
    let (o, q, m) = place_refs(names, policy, out, p, missing, refs[k]);
    lemma_place_refs_keeps(names, policy, out, p, missing, refs[k], a, b);
    if index_of(placed(names, o), names[k]) < 0 {
        lemma_insert_valid(names, o, q, k as usize);
        if placed_before(names, out, a, b) {
            lemma_insert_keeps(names, o, q, k as usize, a, b);
        }
    }
}

/// The remaining steps keep the relative order of the names already placed.
proof fn lemma_place_from_keeps(
    names: Seq<Seq<char>>,
    refs: Seq<Seq<Seq<char>>>,
    policy: OrderPolicy,
    out: Seq<usize>,
    missing: Seq<Seq<char>>,
    k: int,
    a: Seq<char>,
    b: Seq<char>,
)
    requires
        names.len() <= usize::MAX,
        0 <= k,
        valid_order(names, out),
        placed_before(names, out, a, b),
    ensures
        placed_before(names, place_from(names, refs, policy, out, missing, k).0, a, b),
    decreases names.len() - k,
{
    if k < names.len() {
        let (o, m) = place_table(names, refs, policy, out, missing, k);
        lemma_place_table_keeps(names, refs, policy, out, missing, k, a, b);
        lemma_place_from_keeps(names, refs, policy, o, m, k + 1, a, b);
    }
}

/// The placement after the first `k` input tables.
pub open spec fn placed_until(
    names: Seq<Seq<char>>,
    refs: Seq<Seq<Seq<char>>>,
    policy: OrderPolicy,
    k: int,
) -> (Seq<usize>, Seq<Seq<char>>)
    decreases k,
{
    if k <= 0 {
        (Seq::empty(), Seq::empty())
    } else {
        let (o, m) = placed_until(names, refs, policy, k - 1);
        place_table(names, refs, policy, o, m, k - 1)
    }
}

proof fn lemma_placed_until(
    names: Seq<Seq<char>>,
    refs: Seq<Seq<Seq<char>>>,
    policy: OrderPolicy,
    k: int,
)
    requires
        names.len() <= usize::MAX,
        0 <= k <= names.len(),
    ensures
        valid_order(names, placed_until(names, refs, policy, k).0),
        ({
            let (o, m) = placed_until(names, refs, policy, k);
            place_from(names, refs, policy, o, m, k) == table_order(names, refs, policy)
        }),
    decreases k,
{
    if k > 0 {
        lemma_placed_until(names, refs, policy, k - 1);
        let (o, m) = placed_until(names, refs, policy, k - 1);
        lemma_place_table_keeps(names, refs, policy, o, m, k - 1, Seq::empty(), Seq::empty());
    }
}

/// Constraint-safe order: a table with one foreign key, to another table of
/// the input, that is not yet placed when its turn comes (no earlier table
/// pulled it in) ends up after the table it references.
proof fn lemma_constraint_safe_reference_first(
    names: Seq<Seq<char>>,
    refs: Seq<Seq<Seq<char>>>,
    k: int,
)
    requires
        names.len() <= usize::MAX,
        refs.len() == names.len(),
        0 <= k < names.len(),
        refs[k].len() == 1,
        refs[k][0] != names[k],
        index_of(names, refs[k][0]) >= 0,
        index_of(
            placed(names, placed_until(names, refs, OrderPolicy::ConstraintSafe, k).0),
            names[k],
        ) < 0,
    ensures
        placed_before(
            names,
            table_order(names, refs, OrderPolicy::ConstraintSafe).0,
            refs[k][0],
            names[k],
        ),
{
    let cs = OrderPolicy::ConstraintSafe;
    lemma_placed_until(names, refs, cs, k);
    let (o, m) = placed_until(names, refs, cs, k);
    lemma_constraint_safe_lands_after(names, refs, o, m, k);
    let (o1, m1) = place_table(names, refs, cs, o, m, k);
    lemma_place_from_keeps(names, refs, cs, o1, m1, k + 1, refs[k][0], names[k]);
}

/// `n` is the name of, or a reference of, one of the first `k` input tables.
pub open spec fn named_before(
    names: Seq<Seq<char>>,
    refs: Seq<Seq<Seq<char>>>,
    k: int,
    n: Seq<char>,
) -> bool
    decreases k,
{
    if k <= 0 {
        false
    } else {
        named_before(names, refs, k - 1, n) || names[k - 1] == n || refs[k - 1].contains(n)
    }
}

proof fn lemma_contains_insert(s: Seq<Seq<char>>, p: int, x: Seq<char>, n: Seq<char>)
    requires
        0 <= p <= s.len(),
        s.insert(p, x).contains(n),
    ensures
        s.contains(n) || n == x,
{
    let t = s.insert(p, x);
    let i = choose|i: int| 0 <= i < t.len() && t[i] == n;
    if i < p {
        assert(s[i] == n);
    } else if i > p {
        assert(s[i - 1] == n);
    }
}

/// Placing foreign keys only adds tables that they reference.
proof fn lemma_place_refs_sources(
    names: Seq<Seq<char>>,
    policy: OrderPolicy,
    out: Seq<usize>,
    p: int,
    missing: Seq<Seq<char>>,
    rs: Seq<Seq<char>>,
    n: Seq<char>,
)
    requires
        names.len() <= usize::MAX,
        valid_order(names, out),
        0 <= p <= out.len(),
        placed(names, place_refs(names, policy, out, p, missing, rs).0).contains(n),
    ensures
        placed(names, out).contains(n) || rs.contains(n),
    decreases rs.len(),
{
    if rs.len() > 0 {
        let r = rs[0];
        let pl = placed(names, out);
        lemma_index_of(pl, r);
        lemma_index_of(names, r);
        let (o1, q1, m1) = place_ref(names, policy, out, p, missing, r);
        lemma_place_refs_keeps(names, policy, o1, q1, m1, rs.drop_first(), n, n);
        if index_of(pl, r) < 0 && index_of(names, r) >= 0 {
            let j = index_of(names, r) as usize;
            lemma_insert_valid(names, out, p, j);
        }
        lemma_place_refs_sources(names, policy, o1, q1, m1, rs.drop_first(), n);
        if placed(names, o1).contains(n) {
            if index_of(pl, r) < 0 && index_of(names, r) >= 0 {
                let j = index_of(names, r) as usize;
                lemma_contains_insert(pl, p, names[j as int], n);
                assert(rs[0] == r);
            }
        } else {
            let i = choose|i: int| 0 <= i < rs.drop_first().len() && rs.drop_first()[i] == n;
            assert(rs[i + 1] == n);
        }
        if n == r {
            assert(rs[0] == n);
        }
    }
}

/// Every table placed after the first `k` steps is named by one of them.
proof fn lemma_placed_until_sources(
    names: Seq<Seq<char>>,
    refs: Seq<Seq<Seq<char>>>,
    policy: OrderPolicy,
    k: int,
    n: Seq<char>,
)
    requires
        names.len() <= usize::MAX,
        0 <= k <= names.len(),
        placed(names, placed_until(names, refs, policy, k).0).contains(n),
    ensures
        named_before(names, refs, k, n),
    decreases k,
{
    if k > 0 {
        lemma_placed_until(names, refs, policy, k - 1);
        let (o, m) = placed_until(names, refs, policy, k - 1);
        let pl = placed(names, o);
        lemma_index_of(pl, names[k - 1]);
        let i = index_of(pl, names[k - 1]);
        let p = if i >= 0 {
            i
        } else {
            o.len() as int
        };
        let (o2, q, m2) = place_refs(names, policy, o, p, m, refs[k - 1]);
        lemma_place_refs_keeps(names, policy, o, p, m, refs[k - 1], n, n);
        let contained_before_self = placed(names, o2).contains(n);
        if contained_before_self {
            lemma_place_refs_sources(names, policy, o, p, m, refs[k - 1], n);
            if pl.contains(n) {
                lemma_placed_until_sources(names, refs, policy, k - 1, n);
            } else {
                assert(refs[k - 1].contains(n));
                assert(named_before(names, refs, k, n));
            }
        } else {
            lemma_index_of(placed(names, o2), names[k - 1]);
            lemma_insert_valid(names, o2, q, (k - 1) as usize);
            lemma_contains_insert(placed(names, o2), q, names[k - 1], n);
            assert(names[k - 1] == n);
            assert(names[k - 1] == n || refs[k - 1].contains(n));
            assert(named_before(names, refs, k, n));
        }
    }
}

/// Constraint-safe order, stated on the input: a table with one foreign key,
/// to another table of the input, that no earlier table names or references,
/// ends up after the table it references.
pub proof fn lemma_constraint_safe_reference_first_in_input(
    names: Seq<Seq<char>>,
    refs: Seq<Seq<Seq<char>>>,
    k: int,
)
    requires
        names.len() <= usize::MAX,
        refs.len() == names.len(),
        0 <= k < names.len(),
        refs[k].len() == 1,
        refs[k][0] != names[k],
        index_of(names, refs[k][0]) >= 0,
        !named_before(names, refs, k, names[k]),
    ensures
        placed_before(
            names,
            table_order(names, refs, OrderPolicy::ConstraintSafe).0,
            refs[k][0],
            names[k],
        ),
{
    let cs = OrderPolicy::ConstraintSafe;
    let pl = placed(names, placed_until(names, refs, cs, k).0);
    lemma_index_of(pl, names[k]);
    if index_of(pl, names[k]) >= 0 {
        assert(pl[index_of(pl, names[k])] == names[k]);
        assert(pl.contains(names[k]));
        lemma_placed_until_sources(names, refs, cs, k, names[k]);
    }
    lemma_constraint_safe_reference_first(names, refs, k);
}

/// Walking the references is walking all but the last, then the last.
proof fn lemma_place_refs_last(
    names: Seq<Seq<char>>,
    policy: OrderPolicy,
    out: Seq<usize>,
    p: int,
    missing: Seq<Seq<char>>,
    refs: Seq<Seq<char>>,
)
    requires
        refs.len() > 0,
    ensures
        place_refs(names, policy, out, p, missing, refs) == ({
            let (o, q, m) = place_refs(names, policy, out, p, missing, refs.drop_last());
            place_ref(names, policy, o, q, m, refs.last())
        }),
    decreases refs.len(),
{
    reveal_with_fuel(place_refs, 2);
    if refs.len() == 1 {
        assert(refs.drop_first().len() == 0);
        assert(refs.drop_last().len() == 0);
        assert(refs.last() == refs[0]);
    } else {
        let (o1, q1, m1) = place_ref(names, policy, out, p, missing, refs[0]);
        lemma_place_refs_last(names, policy, o1, q1, m1, refs.drop_first());
        assert(refs.drop_last().drop_first() =~= refs.drop_first().drop_last());
        assert(refs.drop_last()[0] == refs[0]);
        assert(refs.drop_first().last() == refs.last());
        assert(place_refs(names, policy, out, p, missing, refs) == place_refs(
            names,
            policy,
            o1,
            q1,
            m1,
            refs.drop_first(),
        ));
        assert(place_refs(names, policy, out, p, missing, refs.drop_last()) == place_refs(
            names,
            policy,
            o1,
            q1,
            m1,
            refs.drop_last().drop_first(),
        ));
    }
}

/// Locality order, for any number of foreign keys: a table not yet placed
/// whose last-visited foreign key references a table already placed at that
/// moment, at index `i`, is inserted at `i`, right in front of it.
pub proof fn lemma_locality_last_reference_lands_before(
    names: Seq<Seq<char>>,
    refs: Seq<Seq<Seq<char>>>,
    out: Seq<usize>,
    missing: Seq<Seq<char>>,
    k: int,
)
    requires
        0 <= k < names.len() <= usize::MAX,
        k < refs.len(),
        valid_order(names, out),
        refs[k].len() >= 1,
        refs[k].last() != names[k],
        index_of(placed(names, out), names[k]) < 0,
        ({
            let (o, q, m) = place_refs(
                names,
                OrderPolicy::Locality,
                out,
                out.len() as int,
                missing,
                refs[k].drop_last(),
            );
            &&& index_of(placed(names, o), names[k]) < 0
            &&& index_of(placed(names, o), refs[k].last()) >= 0
        }),
    ensures
        ({
            let lo = OrderPolicy::Locality;
            let (o, q, m) = place_refs(names, lo, out, out.len() as int, missing, refs[k].drop_last());
            let i = index_of(placed(names, o), refs[k].last());
            let r = place_table(names, refs, lo, out, missing, k).0;
            &&& r == o.insert(i, k as usize)
            &&& index_of(placed(names, r), names[k]) == i
            &&& index_of(placed(names, r), refs[k].last()) == i + 1
        }),
{
    let lo = OrderPolicy::Locality;
    let p = out.len() as int;
    lemma_index_of(placed(names, out), names[k]);
    let (o, q, m) = place_refs(names, lo, out, p, missing, refs[k].drop_last());
    lemma_place_refs_keeps(names, lo, out, p, missing, refs[k].drop_last(), names[k], names[k]);
    lemma_place_refs_last(names, lo, out, p, missing, refs[k]);
    let r = refs[k].last();
    let pl = placed(names, o);
    let i = index_of(pl, r);
    lemma_index_of(pl, r);
    assert(place_ref(names, lo, o, q, m, r) == (o, i, m));
    lemma_insert_valid(names, o, i, k as usize);
    lemma_index_of_insert_new(pl, i, names[k]);
    lemma_index_of_insert(pl, i, names[k], r);
}

/// Locality order, for any number of foreign keys, over the whole run: a table
/// that no earlier table names or references, whose last-visited foreign key
/// references a table already placed at that moment, ends up before that table.
pub proof fn lemma_locality_last_reference_first(
    names: Seq<Seq<char>>,
    refs: Seq<Seq<Seq<char>>>,
    k: int,
)
    requires
        names.len() <= usize::MAX,
        refs.len() == names.len(),
        0 <= k < names.len(),
        refs[k].len() >= 1,
        refs[k].last() != names[k],
        !named_before(names, refs, k, names[k]),
        ({
            let (o0, m0) = placed_until(names, refs, OrderPolicy::Locality, k);
            let (o, q, m) = place_refs(
                names,
                OrderPolicy::Locality,
                o0,
                o0.len() as int,
                m0,
                refs[k].drop_last(),
            );
            &&& index_of(placed(names, o), names[k]) < 0
            &&& index_of(placed(names, o), refs[k].last()) >= 0
        }),
    ensures
        placed_before(
            names,
            table_order(names, refs, OrderPolicy::Locality).0,
            names[k],
            refs[k].last(),
        ),
{
    let lo = OrderPolicy::Locality;
    lemma_placed_until(names, refs, lo, k);
    let (o0, m0) = placed_until(names, refs, lo, k);
    let pl = placed(names, o0);
    lemma_index_of(pl, names[k]);
    if index_of(pl, names[k]) >= 0 {
        assert(pl[index_of(pl, names[k])] == names[k]);
        assert(pl.contains(names[k]));
        lemma_placed_until_sources(names, refs, lo, k, names[k]);
    }
    lemma_locality_last_reference_lands_before(names, refs, o0, m0, k);
    let (o1, m1) = place_table(names, refs, lo, o0, m0, k);
    let (o, q, m) = place_refs(names, lo, o0, o0.len() as int, m0, refs[k].drop_last());
    lemma_place_refs_keeps(names, lo, o0, o0.len() as int, m0, refs[k].drop_last(), names[k], names[k]);
    lemma_index_of(placed(names, o), refs[k].last());
    lemma_insert_valid(names, o, index_of(placed(names, o), refs[k].last()), k as usize);
    lemma_place_from_keeps(names, refs, lo, o1, m1, k + 1, names[k], refs[k].last());
}

} // verus!
