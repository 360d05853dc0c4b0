//! Column widths and the aligned table text. A column is as wide as its
//! widest content — header label or cell — plus a fixed padding of two;
//! cells are left-aligned and joined by a fixed five-character glyph, and
//! an optional header block adds a label line and a dashed rule line.

use vstd::prelude::*;

use crate::columns::HeaderTable;
use crate::rows::cell_at;

verus! {

/// `n` spaces.
pub open spec fn spaces(n: nat) -> Seq<char> {
    Seq::new(n, |i: int| ' ')
}

/// `n` dashes.
pub open spec fn dashes(n: nat) -> Seq<char> {
    Seq::new(n, |i: int| '-')
}

/// `c` left-aligned in a field of `w` characters; wider content is kept
/// whole, never cut.
pub open spec fn padded(c: Seq<char>, w: nat) -> Seq<char> {
    if c.len() >= w {
        c
    } else {
        c + spaces((w - c.len()) as nat)
    }
}

/// The pieces joined by `sep`, in order.
pub open spec fn joined(pieces: Seq<Seq<char>>, sep: Seq<char>) -> Seq<char>
    decreases pieces.len(),
{
    if pieces.len() == 0 {
        Seq::empty()
    } else if pieces.len() == 1 {
        pieces[0]
    } else {
        joined(pieces.drop_last(), sep) + sep + pieces.last()
    }
}

/// The length of the cell of column `c` in one row, zero when missing.
pub open spec fn cell_len(row: Vec<String>, c: int) -> nat {
    if 0 <= c < row@.len() {
        row@[c]@.len()
    } else {
        0
    }
}

/// The longest cell of column `c` over all rows.
pub open spec fn max_cell_len(rows: Seq<Vec<String>>, c: int) -> nat
    decreases rows.len(),
{
    if rows.len() == 0 {
        0
    } else {
        let rest = max_cell_len(rows.drop_last(), c);
        let cl = cell_len(rows.last(), c);
        if cl > rest {
            cl
        } else {
            rest
        }
    }
}

/// The width of output column `c`: the larger of the header label's
/// length and the longest cell, plus a padding of two. A width beyond
/// what a machine word holds saturates there.
pub open spec fn spec_col_width(rows: Seq<Vec<String>>, headers: Seq<Seq<char>>, c: int) -> nat {
    let h: nat = if 0 <= c < headers.len() {
        headers[c].len()
    } else {
        0
    };
    let m = max_cell_len(rows, c);
    let base: nat = if h > m {
        h
    } else {
        m
    };
    if base + 2 > usize::MAX {
        usize::MAX as nat
    } else {
        (base + 2) as nat
    }
}

/// The length of the cell of column `c`, zero when the row is narrower.
fn cell_len_of(row: &Vec<String>, c: usize) -> (r: usize)
    ensures
        r as nat == cell_len(*row, c as int),
{
    if c < row.len() {
        row[c].as_str().unicode_len()
    } else {
        0
    }
}

/// Computes the width of each output column, in the order of `cols`. A
/// column listed twice gets the same width twice.
pub fn compute_widths(rows: &Vec<Vec<String>>, cols: &Vec<usize>, headers: &HeaderTable) -> (r:
    Vec<usize>)
    ensures
        r@.len() == cols@.len(),
        forall|k: int|
            0 <= k < cols@.len() ==> #[trigger] r@[k] as nat == spec_col_width(
                rows@,
                headers.names_view(),
                cols@[k] as int,
            ),
{
    let mut r: Vec<usize> = Vec::new();
    let mut k: usize = 0;
    while k < cols.len()
        invariant
            k <= cols@.len(),
            r@.len() == k,
            forall|t: int|
                0 <= t < k ==> #[trigger] r@[t] as nat == spec_col_width(
                    rows@,
                    headers.names_view(),
                    cols@[t] as int,
                ),
        decreases cols@.len() - k,
    {
        let c = cols[k];
        let mut m: usize = 0;
        let mut t: usize = 0;
        while t < rows.len()
            invariant
                t <= rows@.len(),
                m as nat == max_cell_len(rows@.take(t as int), c as int),
            decreases rows@.len() - t,
        {
            let cl = cell_len_of(&rows[t], c);
            proof {
                assert(rows@.take(t + 1).drop_last() =~= rows@.take(t as int));
                assert(rows@.take(t + 1).last() == rows@[t as int]);
            }
            if cl > m {
                m = cl;
            }
            t = t + 1;
        }
        proof {
            assert(rows@.take(rows@.len() as int) =~= rows@);
        }
        let h: usize = if c < headers.names.len() {
            headers.names[c].as_str().unicode_len()
        } else {
            0
        };
        let base: usize = if h > m {
            h
        } else {
            m
        };
        let w: usize = if base > usize::MAX - 2 {
            usize::MAX
        } else {
            base + 2
        };
        r.push(w);
        k = k + 1;
    }
    r
}

/// The column joiner between cells of one line.
pub open spec fn glyph_sep() -> Seq<char> {
    "  |  "@
}

/// The joiner between the dashed segments of the rule line.
pub open spec fn rule_sep() -> Seq<char> {
    "+"@
}

/// The line break each emitted line ends with.
pub open spec fn newline() -> Seq<char> {
    "\n"@
}

/// The header label of column `c`, empty when the header row is narrower.
pub open spec fn label_at(headers: Seq<Seq<char>>, c: int) -> Seq<char> {
    if 0 <= c < headers.len() {
        headers[c]
    } else {
        Seq::empty()
    }
}

/// The header line: each label padded to its column's width.
pub open spec fn header_line(
    headers: Seq<Seq<char>>,
    cols: Seq<usize>,
    widths: Seq<usize>,
) -> Seq<char> {
    joined(
        Seq::new(cols.len(), |k: int| padded(label_at(headers, cols[k] as int), widths[k] as nat)),
        glyph_sep(),
    ) + newline()
}

/// The rule line: width-plus-two dashes per column, joined by a plus.
pub open spec fn rule_line(cols: Seq<usize>, widths: Seq<usize>) -> Seq<char> {
    joined(Seq::new(cols.len(), |k: int| dashes(widths[k] as nat + 2)), rule_sep()) + newline()
}

/// One data line: each displayed cell padded to its column's width.
pub open spec fn row_line(row: Vec<String>, cols: Seq<usize>, widths: Seq<usize>) -> Seq<char> {
    joined(
        Seq::new(
            cols.len(),
            |k: int| padded(cell_at(row.deep_view(), cols[k] as int), widths[k] as nat),
        ),
        glyph_sep(),
    ) + newline()
}

/// The data lines, one per row, in order.
pub open spec fn rows_text(rows: Seq<Vec<String>>, cols: Seq<usize>, widths: Seq<usize>) -> Seq<
    char,
>
    decreases rows.len(),
{
    if rows.len() == 0 {
        Seq::empty()
    } else {
        rows_text(rows.drop_last(), cols, widths) + row_line(rows.last(), cols, widths)
    }
}

/// The whole table text: the header block when headers are shown, then
/// the data lines.
pub open spec fn render_spec(
    headers: Seq<Seq<char>>,
    rows: Seq<Vec<String>>,
    cols: Seq<usize>,
    widths: Seq<usize>,
    show_headers: bool,
) -> Seq<char> {
    (if show_headers {
        header_line(headers, cols, widths) + rule_line(cols, widths)
    } else {
        Seq::empty()
    }) + rows_text(rows, cols, widths)
}

/// `s` padded with spaces to `w` characters.
fn pad_str(s: &str, w: usize) -> (r: String)
    ensures
        r@ == padded(s@, w as nat),
{
    let mut r = String::from_str(s);
    let len = s.unicode_len();
    if len >= w {
        proof {
            assert(r@ =~= padded(s@, w as nat));
        }
        return r;
    }
    let mut i: usize = len;
    proof {
        reveal_strlit(" ");
        assert(r@ =~= s@ + spaces(0));
    }
    while i < w
        invariant
            len <= i <= w,
            len == s@.len(),
            len < w,
            r@ == s@ + spaces((i - len) as nat),
        decreases w - i,
    {
        r.append(" ");
        proof {
            reveal_strlit(" ");
            assert(" "@ =~= seq![' ']);
            assert(s@ + spaces((i - len) as nat) + " "@ =~= s@ + spaces((i + 1 - len) as nat));
        }
        i = i + 1;
    }
    proof {
        assert(r@ =~= padded(s@, w as nat));
    }
    r
}

/// A dashed rule segment of `w` plus two dashes.
fn dash_str(w: usize) -> (r: String)
    ensures
        r@ == dashes(w as nat + 2),
{
    let mut r = String::new();
    let mut i: usize = 0;
    proof {
        reveal_strlit("-");
        assert(r@ =~= dashes(0));
    }
    while i < w
        invariant
            i <= w,
            r@ == dashes(i as nat),
        decreases w - i,
    {
        r.append("-");
        proof {
            reveal_strlit("-");
            assert("-"@ =~= seq!['-']);
            assert(dashes(i as nat) + "-"@ =~= dashes(i as nat + 1));
        }
        i = i + 1;
    }
    r.append("-");
    r.append("-");
    proof {
        reveal_strlit("-");
        assert("-"@ =~= seq!['-']);
        assert(dashes(w as nat) + "-"@ + "-"@ =~= dashes(w as nat + 2));
    }
    r
}

/// Joins the pieces with the separator.
fn join_line(pieces: &Vec<String>, sep: &str) -> (r: String)
    ensures
        r@ == joined(pieces.deep_view(), sep@),
{
    let mut r = String::new();
    let mut k: usize = 0;
    while k < pieces.len()
        invariant
            k <= pieces@.len(),
            r@ == joined(pieces.deep_view().take(k as int), sep@),
        decreases pieces@.len() - k,
    {
        if k > 0 {
            r.append(sep);
        }
        r.append(pieces[k].as_str());
        proof {
            let done = pieces.deep_view().take(k + 1);
            assert(done.drop_last() =~= pieces.deep_view().take(k as int));
            assert(done.last() == pieces.deep_view()[k as int]);
            assert(pieces.deep_view()[k as int] == pieces@[k as int]@);
            if k == 0 {
                assert(joined(done, sep@) == done[0]);
                assert(r@ =~= joined(done, sep@));
            } else {
                assert(r@ =~= joined(done, sep@));
            }
        }
        k = k + 1;
    }
    proof {
        assert(pieces.deep_view().take(pieces@.len() as int) =~= pieces.deep_view());
    }
    r
}

/// Renders the table: when headers are shown, a label line and a rule
/// line come first; then one line per row, all cells padded to the
/// column widths and joined by the column glyph.
pub fn render(
    headers: &HeaderTable,
    rows: &Vec<Vec<String>>,
    cols: &Vec<usize>,
    widths: &Vec<usize>,
    show_headers: bool,
) -> (r: String)
    requires
        widths@.len() == cols@.len(),
    ensures
        r@ == render_spec(headers.names_view(), rows@, cols@, widths@, show_headers),
{
    let mut out = String::new();
    if show_headers {
        let mut pieces: Vec<String> = Vec::new();
        let mut k: usize = 0;
        while k < cols.len()
            invariant
                k <= cols@.len(),
                widths@.len() == cols@.len(),
                pieces@.len() == k,
                forall|t: int|
                    0 <= t < k ==> pieces.deep_view()[t] == padded(
                        label_at(headers.names_view(), cols@[t] as int),
                        widths@[t] as nat,
                    ),
            decreases cols@.len() - k,
        {
            let c = cols[k];
            let label: &str = if c < headers.names.len() {
                headers.names[c].as_str()
            } else {
                proof {
                    reveal_strlit("");
                    assert(""@ =~= Seq::<char>::empty());
                }
                ""
            };
            let piece = pad_str(label, widths[k]);
            let ghost prev = pieces.deep_view();
            pieces.push(piece);
            proof {
                assert(pieces.deep_view() =~= prev.push(
                    padded(label_at(headers.names_view(), cols@[k as int] as int),
                    widths@[k as int] as nat),
                ));
            }
            k = k + 1;
        }
        let line = join_line(&pieces, "  |  ");
        out.append(line.as_str());
        out.append("\n");
        proof {
            assert(pieces.deep_view() =~= Seq::new(
                cols@.len(),
                |t: int| padded(label_at(headers.names_view(), cols@[t] as int),
                widths@[t] as nat),
            ));
            assert(out@ =~= header_line(headers.names_view(), cols@, widths@));
        }
        let mut rule_pieces: Vec<String> = Vec::new();
        let mut k2: usize = 0;
        while k2 < cols.len()
            invariant
                k2 <= cols@.len(),
                widths@.len() == cols@.len(),
                rule_pieces@.len() == k2,
                forall|t: int|
                    0 <= t < k2 ==> rule_pieces.deep_view()[t] == dashes(widths@[t] as nat + 2),
            decreases cols@.len() - k2,
        {
            let piece = dash_str(widths[k2]);
            let ghost prev = rule_pieces.deep_view();
            rule_pieces.push(piece);
            proof {
                assert(rule_pieces.deep_view() =~= prev.push(dashes(widths@[k2 as int] as nat + 2)));
            }
            k2 = k2 + 1;
        }
        let rule = join_line(&rule_pieces, "+");
        out.append(rule.as_str());
        out.append("\n");
        proof {
            assert(rule_pieces.deep_view() =~= Seq::new(
                cols@.len(),
                |t: int| dashes(widths@[t] as nat + 2),
            ));
            assert(out@ =~= header_line(headers.names_view(), cols@, widths@) + rule_line(
                cols@,
                widths@,
            ));
        }
    }
    let ghost head = out@;
    proof {
        assert(head =~= (if show_headers {
            header_line(headers.names_view(), cols@, widths@) + rule_line(cols@, widths@)
        } else {
            Seq::<char>::empty()
        }));
        assert(out@ =~= head + rows_text(rows@.take(0), cols@, widths@));
    }
    let mut t: usize = 0;
    while t < rows.len()
        invariant
            t <= rows@.len(),
            widths@.len() == cols@.len(),
            head == (if show_headers {
                header_line(headers.names_view(), cols@, widths@) + rule_line(cols@, widths@)
            } else {
                Seq::<char>::empty()
            }),
            out@ == head + rows_text(rows@.take(t as int), cols@, widths@),
        decreases rows@.len() - t,
    {
        let row = &rows[t];
        let mut pieces: Vec<String> = Vec::new();
        let mut k: usize = 0;
        while k < cols.len()
            invariant
                k <= cols@.len(),
                widths@.len() == cols@.len(),
                pieces@.len() == k,
                t < rows@.len(),
                row == &rows@[t as int],
                forall|q: int|
                    0 <= q < k ==> pieces.deep_view()[q] == padded(
                        cell_at(rows@[t as int].deep_view(), cols@[q] as int),
                        widths@[q] as nat,
                    ),
            decreases cols@.len() - k,
        {
            let cell = crate::rows::cell_of(row, cols[k]);
            let piece = pad_str(cell, widths[k]);
            let ghost prev = pieces.deep_view();
            pieces.push(piece);
            proof {
                assert(pieces.deep_view() =~= prev.push(
                    padded(cell_at(rows@[t as int].deep_view(), cols@[k as int] as int),
                    widths@[k as int] as nat),
                ));
            }
            k = k + 1;
        }
        let line = join_line(&pieces, "  |  ");
        out.append(line.as_str());
        out.append("\n");
        proof {
            assert(pieces.deep_view() =~= Seq::new(
                cols@.len(),
                |q: int| padded(cell_at(rows@[t as int].deep_view(), cols@[q] as int),
                widths@[q] as nat),
            ));
            assert(rows@.take(t + 1).drop_last() =~= rows@.take(t as int));
            assert(rows@.take(t + 1).last() == rows@[t as int]);
            assert(out@ =~= head + rows_text(rows@.take(t + 1), cols@, widths@));
        }
        t = t + 1;
    }
    proof {
        assert(rows@.take(rows@.len() as int) =~= rows@);
        assert(out@ =~= render_spec(headers.names_view(), rows@, cols@, widths@, show_headers));
    }
    out
}

} // verus!
