//! Lookup of the first item that carries a given name.
use vstd::prelude::*;

verus! {

/// Index of the first occurrence of `n` in `names`, or -1 when it does not occur.
pub open spec fn index_of(names: Seq<Seq<char>>, n: Seq<char>) -> int
    decreases names.len(),
{
    if names.len() == 0 {
        -1
    } else {
        let k = index_of(names.drop_last(), n);
        if k >= 0 {
            k
        } else if names.last() == n {
            names.len() - 1
        } else {
            -1
        }
    }
}

/// `index_of` is the first position holding `n`, and -1 exactly when no position does.
pub proof fn lemma_index_of(names: Seq<Seq<char>>, n: Seq<char>)
    ensures
        -1 <= index_of(names, n) < names.len(),
        index_of(names, n) == -1 <==> forall|i: int| 0 <= i < names.len() ==> names[i] != n,
        index_of(names, n) >= 0 ==> names[index_of(names, n)] == n,
        forall|j: int| 0 <= j < index_of(names, n) ==> names[j] != n,
    decreases names.len(),
{
    if names.len() > 0 {
        lemma_index_of(names.drop_last(), n);
        let k = index_of(names.drop_last(), n);
        if k < 0 {
            assert forall|j: int| 0 <= j < names.len() - 1 implies names[j] != n by {
                assert(names.drop_last()[j] == names[j]);
            }
        } else {
            assert(names.drop_last()[k] == names[k]);
            assert forall|j: int| 0 <= j < k implies names[j] != n by {
                assert(names.drop_last()[j] == names[j]);
            }
        }
    }
}

/// A first occurrence within a prefix is the first occurrence in the whole sequence.
pub proof fn lemma_index_of_prefix(names: Seq<Seq<char>>, k: int, n: Seq<char>)
    requires
        0 <= k <= names.len(),
        index_of(names.subrange(0, k), n) >= 0,
    ensures
        index_of(names, n) == index_of(names.subrange(0, k), n),
    decreases names.len() - k,
{
    if k < names.len() {
        assert(names.subrange(0, k + 1).drop_last() =~= names.subrange(0, k));
        lemma_index_of_prefix(names, k + 1, n);
    } else {
        assert(names.subrange(0, k) =~= names);
    }
}

/// The position of `n` after inserting `x` at `p`, when `x` is not `n`.
pub proof fn lemma_index_of_insert(names: Seq<Seq<char>>, p: int, x: Seq<char>, n: Seq<char>)
    requires
        0 <= p <= names.len(),
        x != n,
    ensures
        index_of(names.insert(p, x), n) == if index_of(names, n) < 0 {
            -1
        } else if index_of(names, n) < p {
            index_of(names, n)
        } else {
            index_of(names, n) + 1
        },
{
    let s = names.insert(p, x);
    lemma_index_of(names, n);
    lemma_index_of(s, n);
    let k = index_of(names, n);
    let m = index_of(s, n);
    if k < 0 {
        if m >= 0 {
            if m < p {
                assert(names[m] == n);
            } else if m > p {
                assert(names[m - 1] == n);
            }
        }
    } else if k < p {
        assert(s[k] == n);
        if m < k {
            assert(names[m] == n);
        }
    } else {
        assert(s[k + 1] == n);
        if m < k + 1 {
            if m < p {
                assert(names[m] == n);
            } else if m > p {
                assert(names[m - 1] == n);
            }
        }
    }
}

/// A name that did not occur is found where it was inserted.
pub proof fn lemma_index_of_insert_new(names: Seq<Seq<char>>, p: int, x: Seq<char>)
    requires
        0 <= p <= names.len(),
        index_of(names, x) < 0,
    ensures
        index_of(names.insert(p, x), x) == p,
{
    let s = names.insert(p, x);
    lemma_index_of(names, x);
    lemma_index_of(s, x);
    let m = index_of(s, x);
    assert(s[p] == x);
    if m < p {
        assert(names[m] == x);
    }
}

} // verus!
