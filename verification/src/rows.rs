//! Row parsing and row-level predicates: splitting a line into trimmed
//! cells, the substring match filter, and the empty-projection filter that
//! drops rows whose displayed columns are all empty.

use vstd::prelude::*;

use crate::specs::ColSpec;
use crate::text::{contains_sub, spec_contains, spec_split, spec_trim, split_str, trim_str};

verus! {

/// The cells a line yields: the line split on the separator, each piece
/// trimmed.
pub open spec fn row_spec(line: Seq<char>, sep: Seq<char>) -> Seq<Seq<char>> {
    spec_split(line, sep).map_values(|p: Seq<char>| spec_trim(p))
}

/// The value of column `c` in a row: its cell, or empty when the row is
/// too narrow. Indexing past a row's end is a defined "missing" case,
/// never an error.
pub open spec fn cell_at(row: Seq<Seq<char>>, c: int) -> Seq<char> {
    if 0 <= c < row.len() {
        row[c]
    } else {
        Seq::empty()
    }
}

/// The value of column `c` in `row`, the empty string when missing.
pub fn cell_of<'a>(row: &'a Vec<String>, c: usize) -> (r: &'a str)
    ensures
        r@ == cell_at(row.deep_view(), c as int),
{
    if c < row.len() {
        row[c].as_str()
    } else {
        proof {
            reveal_strlit("");
            assert(""@ =~= Seq::<char>::empty());
        }
        ""
    }
}

/// Splits an input line into a row of trimmed cells. The cell count is not
/// held against the header count: narrower and wider rows are legal.
pub fn parse_row(line: &str, separator: &str) -> (r: Vec<String>)
    ensures
        r.deep_view() == row_spec(line@, separator@),
{
    let pieces = split_str(line, separator);
    let mut cells: Vec<String> = Vec::new();
    let mut i: usize = 0;
    while i < pieces.len()
        invariant
            i <= pieces.len(),
            cells@.len() == i,
            forall|k: int| 0 <= k < i ==> cells.deep_view()[k] == spec_trim(pieces.deep_view()[k]),
        decreases pieces.len() - i,
    {
        let trimmed = trim_str(pieces[i].as_str());
        let ghost prev = cells.deep_view();
        cells.push(trimmed);
        proof {
            let piece = pieces.deep_view()[i as int];
            assert(cells.deep_view() =~= prev.push(spec_trim(piece)));
        }
        i = i + 1;
    }
    proof {
        assert(cells.deep_view() =~= row_spec(line@, separator@));
    }
    cells
}

/// Whether one match entry accepts the row: the entry's column value holds
/// at least one of the entry's substrings.
pub open spec fn entry_accepts(row: Seq<Seq<char>>, entry: (usize, Seq<Seq<char>>)) -> bool {
    exists|v: int| 0 <= v < entry.1.len() && spec_contains(cell_at(row, entry.0 as int), entry.1[v])
}

/// Whether the match filter keeps the row: every entry accepts it. An
/// empty filter keeps every row.
pub open spec fn row_passes(row: Seq<Seq<char>>, entries: Seq<(usize, Seq<Seq<char>>)>) -> bool {
    forall|e: int| 0 <= e < entries.len() ==> entry_accepts(row, entries[e])
}

/// Whether the value of column `col` in `row` holds one of `vals` as a
/// substring.
fn entry_hit(row: &Vec<String>, col: usize, vals: &Vec<String>) -> (r: bool)
    ensures
        r == exists|v: int|
            0 <= v < vals.deep_view().len() && spec_contains(
                cell_at(row.deep_view(), col as int),
                vals.deep_view()[v],
            ),
{
    let cell = cell_of(row, col);
    let mut v: usize = 0;
    loop
        invariant
            v <= vals.len(),
            cell@ == cell_at(row.deep_view(), col as int),
            forall|w: int| 0 <= w < v ==> !spec_contains(cell@, vals.deep_view()[w]),
        decreases vals.len() - v,
    {
        if v >= vals.len() {
            return false;
        }
        if contains_sub(cell, vals[v].as_str()) {
            proof {
                assert(vals.deep_view()[v as int] == vals@[v as int]@);
            }
            return true;
        }
        v = v + 1;
    }
}

/// Decides the match filter on one row.
pub fn row_matches(row: &Vec<String>, filter: &ColSpec) -> (r: bool)
    ensures
        r == row_passes(row.deep_view(), filter.entries_view()),
{
    let mut e: usize = 0;
    loop
        invariant
            e <= filter.entries.len(),
            forall|k: int| 0 <= k < e ==> entry_accepts(row.deep_view(), filter.entries_view()[k]),
        decreases filter.entries.len() - e,
    {
        if e >= filter.entries.len() {
            return true;
        }
        let col = filter.entries[e].0;
        if !entry_hit(row, col, &filter.entries[e].1) {
            proof {
                assert(!entry_accepts(row.deep_view(), filter.entries_view()[e as int]));
            }
            return false;
        }
        proof {
            assert(entry_accepts(row.deep_view(), filter.entries_view()[e as int]));
        }
        e = e + 1;
    }
}

/// Whether the row is kept for display: at least one of the output columns
/// holds a non-empty value.
pub open spec fn keep_spec(row: Seq<Seq<char>>, cols: Seq<usize>) -> bool {
    exists|k: int| 0 <= k < cols.len() && cell_at(row, cols[k] as int).len() > 0
}

/// Decides the empty-projection filter: a row whose displayed columns are
/// all empty is dropped, whatever its other columns hold.
pub fn keep_row(row: &Vec<String>, cols: &Vec<usize>) -> (r: bool)
    ensures
        r == keep_spec(row.deep_view(), cols@),
{
    let mut k: usize = 0;
    loop
        invariant
            k <= cols.len(),
            forall|t: int| 0 <= t < k ==> cell_at(row.deep_view(), cols@[t] as int).len() == 0,
        decreases cols.len() - k,
    {
        if k >= cols.len() {
            return false;
        }
        let cell = cell_of(row, cols[k]);
        if !cell.is_empty() {
            return true;
        }
        k = k + 1;
    }
}

} // verus!
