//! The stable sorter. Rows are ordered by one column's value in codepoint
//! order, ascending or descending; rows with equal keys keep their input
//! order in both directions. The contract pins the output down as the one
//! ordering that is sorted and breaks key ties by input position.

use vstd::prelude::*;

use crate::text::{
    lemma_lex_irrefl, lemma_lex_total, lemma_lex_trans, lex_lt, str_eq, str_lt,
};

verus! {

/// The sort key of row `i`: its value in the sort column, empty when the
/// row is too narrow.
pub open spec fn row_key(rows: Seq<Vec<String>>, i: int, col: int) -> Seq<char> {
    let r = rows[i]@;
    if 0 <= col < r.len() {
        r[col]@
    } else {
        Seq::empty()
    }
}

/// Whether row `i`'s key sorts strictly before row `j`'s, in the chosen
/// direction.
pub open spec fn key_lt(rows: Seq<Vec<String>>, i: int, j: int, col: int, desc: bool) -> bool {
    if desc {
        lex_lt(row_key(rows, j, col), row_key(rows, i, col))
    } else {
        lex_lt(row_key(rows, i, col), row_key(rows, j, col))
    }
}

/// The total strict order the sorter realises: by key, and by input
/// position where the keys are equal. Breaking ties by position is what
/// makes the sort stable, in both directions.
pub open spec fn idx_lt(rows: Seq<Vec<String>>, i: int, j: int, col: int, desc: bool) -> bool {
    key_lt(rows, i, j, col, desc) || (row_key(rows, i, col) == row_key(rows, j, col) && i < j)
}

proof fn lemma_idx_lt_total(rows: Seq<Vec<String>>, i: int, j: int, col: int, desc: bool)
    requires
        i != j,
    ensures
        idx_lt(rows, i, j, col, desc) || idx_lt(rows, j, i, col, desc),
{
    lemma_lex_total(row_key(rows, i, col), row_key(rows, j, col));
}

proof fn lemma_idx_lt_trans(rows: Seq<Vec<String>>, i: int, j: int, k: int, col: int, desc: bool)
    requires
        idx_lt(rows, i, j, col, desc),
        idx_lt(rows, j, k, col, desc),
    ensures
        idx_lt(rows, i, k, col, desc),
{
    let ki = row_key(rows, i, col);
    let kj = row_key(rows, j, col);
    let kk = row_key(rows, k, col);
    if desc {
        if lex_lt(kj, ki) && lex_lt(kk, kj) {
            lemma_lex_trans(kk, kj, ki);
        }
    } else {
        if lex_lt(ki, kj) && lex_lt(kj, kk) {
            lemma_lex_trans(ki, kj, kk);
        }
    }
}

proof fn lemma_insert_get<A>(s: Seq<A>, p: int, x: A, k: int)
    requires
        0 <= p <= s.len(),
        0 <= k <= s.len(),
    ensures
        k < p ==> s.insert(p, x)[k] == s[k],
        k == p ==> s.insert(p, x)[k] == x,
        k > p ==> s.insert(p, x)[k] == s[k - 1],
{
    s.insert_ensures(p, x);
    if k > p {
        assert(s.insert(p, x)[(k - 1) + 1] == s[k - 1]);
    }
}

/// What the sorter promises: `ord` lists every input position exactly
/// once, `output` is the input read in that order, and the order is
/// sorted by key with ties broken by input position.
pub open spec fn stable_ordering(
    input: Seq<Vec<String>>,
    output: Seq<Vec<String>>,
    ord: Seq<int>,
    col: int,
    desc: bool,
) -> bool {
    &&& ord.len() == input.len()
    &&& output.len() == input.len()
    &&& forall|k: int| 0 <= k < ord.len() ==> 0 <= #[trigger] ord[k] < input.len()
    &&& forall|k: int, l: int| 0 <= k < l < ord.len() ==> idx_lt(input, ord[k], ord[l], col, desc)
    &&& forall|k: int| 0 <= k < ord.len() ==> #[trigger] output[k]@ == input[ord[k]]@
    &&& forall|v: int| 0 <= v < input.len() ==> #[trigger] ord.contains(v)
}

/// Rows with equal sort keys keep their relative input order, under
/// either direction: the earlier row's copy stands earlier in the output.
pub proof fn lemma_sort_stable(
    input: Seq<Vec<String>>,
    output: Seq<Vec<String>>,
    ord: Seq<int>,
    col: int,
    desc: bool,
    i: int,
    j: int,
)
    requires
        stable_ordering(input, output, ord, col, desc),
        0 <= i < j < input.len(),
        row_key(input, i, col) == row_key(input, j, col),
    ensures
        exists|k: int, l: int|
            0 <= k < l < ord.len() && ord[k] == i && ord[l] == j && output[k]@ == input[i]@
                && output[l]@ == input[j]@,
{
    assert(ord.contains(i));
    assert(ord.contains(j));
    let k = choose|k: int| 0 <= k < ord.len() && ord[k] == i;
    let l = choose|l: int| 0 <= l < ord.len() && ord[l] == j;
    assert(k != l);
    if l < k {
        assert(idx_lt(input, j, i, col, desc));
        lemma_lex_irrefl(row_key(input, i, col));
        assert(false);
    }
}

/// The key of row `i`, as a string slice.
fn key_of<'a>(rows: &'a Vec<Vec<String>>, i: usize, col: usize) -> (r: &'a str)
    requires
        i < rows@.len(),
    ensures
        r@ == row_key(rows@, i as int, col as int),
{
    let row = &rows[i];
    if col < row.len() {
        row[col].as_str()
    } else {
        proof {
            reveal_strlit("");
            assert(""@ =~= Seq::<char>::empty());
        }
        ""
    }
}

/// Decides the total strict order on two row positions.
fn idx_before(rows: &Vec<Vec<String>>, a: usize, b: usize, col: usize, descending: bool) -> (r:
    bool)
    requires
        a < rows@.len(),
        b < rows@.len(),
    ensures
        r == idx_lt(rows@, a as int, b as int, col as int, descending),
{
    let ka = key_of(rows, a, col);
    let kb = key_of(rows, b, col);
    let lt = if descending {
        str_lt(kb, ka)
    } else {
        str_lt(ka, kb)
    };
    if lt {
        true
    } else if str_eq(ka, kb) {
        a < b
    } else {
        false
    }
}

/// The position where `x` belongs among the first `upto` entries of
/// `order`: past every entry that sorts before it.
fn find_insert_pos(
    rows: &Vec<Vec<String>>,
    order: &Vec<usize>,
    upto: usize,
    x: usize,
    col: usize,
    descending: bool,
) -> (p: usize)
    requires
        upto <= order@.len(),
        x < rows@.len(),
        forall|k: int| 0 <= k < order@.len() ==> order@[k] < rows@.len(),
    ensures
        p <= upto,
        forall|k: int| 0 <= k < p ==> idx_lt(rows@, order@[k] as int, x as int, col as int,
            descending),
        p < upto ==> !idx_lt(rows@, order@[p as int] as int, x as int, col as int, descending),
{
    let mut p: usize = 0;
    loop
        invariant
            p <= upto,
            upto <= order@.len(),
            x < rows@.len(),
            forall|k: int| 0 <= k < order@.len() ==> order@[k] < rows@.len(),
            forall|k: int| 0 <= k < p ==> idx_lt(rows@, order@[k] as int, x as int, col as int,
                descending),
        decreases upto - p,
    {
        if p >= upto {
            return p;
        }
        if !idx_before(rows, order[p], x, col, descending) {
            return p;
        }
        p = p + 1;
    }
}

/// Sorts the rows stably by the value of one column, ascending or
/// descending. A sorted-with-tiebreak ordering of distinct positions is
/// unique, so this contract determines the output completely.
pub fn sort_rows(rows: &Vec<Vec<String>>, col: usize, descending: bool) -> (r: Vec<Vec<String>>)
    ensures
        r@.len() == rows@.len(),
        exists|ord: Seq<int>| stable_ordering(rows@, r@, ord, col as int, descending),
{
    let n = rows.len();
    let mut order: Vec<usize> = Vec::new();
    let mut i: usize = 0;
    while i < n
        invariant
            i <= n,
            order@.len() == i,
            forall|k: int| 0 <= k < i ==> order@[k] == k,
        decreases n - i,
    {
        order.push(i);
        i = i + 1;
    }
    proof {
        assert forall|v: usize| v < n implies #[trigger] order@.contains(v) by {
            assert(order@[v as int] == v);
        }
    }
    let mut s: usize = 1;
    while s < n
        invariant
            n == rows@.len(),
            1 <= s || n == 0,
            s <= n || n == 0,
            order@.len() == n,
            forall|k: int| 0 <= k < n ==> order@[k] < n,
            forall|k: int, l: int| 0 <= k < l < n ==> order@[k] != order@[l],
            forall|v: usize| v < n ==> #[trigger] order@.contains(v),
            forall|k: int, l: int|
                0 <= k < l < s && l < n ==> idx_lt(rows@, order@[k] as int, order@[l] as int,
                    col as int, descending),
        decreases n - s,
    {
        let x = order[s];
        let ghost before = order@;
        order.remove(s);
        let ghost removed = order@;
        proof {
            before.remove_ensures(s as int);
            assert forall|k: int, l: int| 0 <= k < l < removed.len() implies removed[k]
                != removed[l] by {
                let bk: int = if k < s { k } else { k + 1 };
                let bl: int = if l < s { l } else { l + 1 };
                assert(removed[k] == before[bk] && removed[l] == before[bl]);
            }
            assert forall|k: int| 0 <= k < removed.len() implies removed[k] != x by {
                let bk: int = if k < s { k } else { k + 1 };
                assert(removed[k] == before[bk]);
                assert(before[s as int] == x);
            }
        }
        let p = find_insert_pos(rows, &order, s, x, col, descending);
        order.insert(p, x);
        proof {
            let after = order@;
            assert(after == removed.insert(p as int, x));
            removed.insert_ensures(p as int, x);
            // every position is still listed exactly once
            assert forall|k: int, l: int| 0 <= k < l < after.len() implies after[k] != after[l] by {
                lemma_insert_get(removed, p as int, x, k);
                lemma_insert_get(removed, p as int, x, l);
            }
            assert forall|v: usize| v < n implies #[trigger] after.contains(v) by {
                assert(before.contains(v));
                let bk = choose|bk: int| 0 <= bk < before.len() && before[bk] == v;
                if bk == s {
                    lemma_insert_get(removed, p as int, x, p as int);
                    assert(after[p as int] == v);
                } else {
                    let rk: int = if bk < s { bk } else { bk - 1 };
                    assert(removed[rk] == v);
                    let ak: int = if rk < p { rk } else { rk + 1 };
                    lemma_insert_get(removed, p as int, x, ak);
                    assert(after[ak] == v);
                }
            }
            // the sorted prefix grew by one
            assert forall|k: int, l: int|
                0 <= k < l < s + 1 && l < n implies idx_lt(rows@, after[k] as int, after[l] as int,
                    col as int, descending) by {
                if p < s {
                    assert(!idx_lt(rows@, removed[p as int] as int, x as int, col as int,
                        descending));
                    assert(removed[p as int] != x);
                    lemma_idx_lt_total(rows@, removed[p as int] as int, x as int, col as int,
                        descending);
                }
                lemma_insert_get(removed, p as int, x, k);
                lemma_insert_get(removed, p as int, x, l);
                if k == p {
                    // x against a later entry of the old prefix
                    let rl = l - 1;
                    assert(after[l] == removed[rl]);
                    assert(removed[rl] == before[rl]);
                    if rl > p {
                        assert(idx_lt(rows@, before[p as int] as int, before[rl] as int,
                            col as int, descending));
                        lemma_idx_lt_trans(rows@, x as int, before[p as int] as int,
                            before[rl] as int, col as int, descending);
                    }
                } else if l == p {
                    assert(after[k] == removed[k] && removed[k] == before[k]);
                } else {
                    let rk: int = if k < p { k } else { k - 1 };
                    let rl: int = if l < p { l } else { l - 1 };
                    assert(after[k] == removed[rk] && after[l] == removed[rl]);
                    assert(removed[rk] == before[rk] && removed[rl] == before[rl]);
                    if k < p {
                        assert(idx_lt(rows@, before[rk] as int, x as int, col as int, descending));
                    }
                    assert(rk < rl);
                    assert(idx_lt(rows@, before[rk] as int, before[rl] as int, col as int,
                        descending));
                }
            }
        }
        s = s + 1;
    }
    let mut out: Vec<Vec<String>> = Vec::new();
    let mut k: usize = 0;
    while k < n
        invariant
            k <= n,
            n == rows@.len(),
            order@.len() == n,
            out@.len() == k,
            forall|t: int| 0 <= t < n ==> order@[t] < n,
            forall|t: int, u: int| 0 <= t < u < n ==> idx_lt(rows@, order@[t] as int,
                order@[u] as int, col as int, descending),
            forall|v: usize| v < n ==> #[trigger] order@.contains(v),
            forall|t: int| 0 <= t < k ==> #[trigger] out@[t]@ == rows@[order@[t] as int]@,
        decreases n - k,
    {
        let picked = rows[order[k]].clone();
        proof {
            assert forall|q: int| 0 <= q < picked@.len() implies picked@[q]
                == rows@[order@[k as int] as int]@[q] by {
                assert(vstd::pervasive::cloned(rows@[order@[k as int] as int]@[q], picked@[q]));
            }
            assert(picked@ =~= rows@[order@[k as int] as int]@);
        }
        out.push(picked);
        k = k + 1;
    }
    proof {
        let ghost_ord = Seq::new(n as nat, |t: int| order@[t] as int);
        assert forall|v: int| 0 <= v < n implies #[trigger] ghost_ord.contains(v) by {
            assert(order@.contains(v as usize));
            let t = choose|t: int| 0 <= t < order@.len() && order@[t] == v as usize;
            assert(ghost_ord[t] == v);
        }
        assert(stable_ordering(rows@, out@, ghost_ord, col as int, descending));
    }
    out
}

} // verus!
