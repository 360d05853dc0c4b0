//! The whole row-processing pipeline: headers, column resolution, row
//! parsing, match filter, transformations, empty-projection filter,
//! stable sort, result skipping, widths and rendering, in that order.
//! Where every stage is deterministic — no match or transform argument,
//! no sort — the contract pins the output text down completely; the
//! stages' own contracts carry the rest.

use vstd::prelude::*;

use crate::columns::{
    header_names_spec, is_dollar, parse_col_identifier, parse_headers, resolve_idx, resolve_ok,
    strip_quotes, HeaderTable,
};
use crate::json::{json_top_of, obj_entries};
use crate::errors::TfError;
use crate::render::{compute_widths, render, render_spec, spec_col_width};
use crate::rows::{keep_row, keep_spec, parse_row, row_matches, row_passes, row_spec};
use crate::sort::{sort_rows, stable_ordering};
use crate::specs::{
    built_spec, json_arg_err, json_arg_ok, parse_match_arg, parse_transform_arg, ColSpec,
};
use crate::transform::apply_transformers;

verus! {

/// The header names the pipeline works with.
pub open spec fn names_of(lines: Seq<String>, headers_row: usize, sep: Seq<char>) -> Seq<
    Seq<char>,
> {
    header_names_spec(lines[headers_row - 1]@, sep)
}

/// Whether every requested output column resolves.
pub open spec fn cols_ok(cols: Seq<String>, names: Seq<Seq<char>>) -> bool {
    forall|k: int| 0 <= k < cols.len() ==> resolve_ok(cols[k]@, names)
}

/// The first output column that does not resolve.
pub open spec fn first_bad_col(cols: Seq<String>, names: Seq<Seq<char>>) -> int
    decreases cols.len(),
{
    if cols.len() == 0 {
        0
    } else if !resolve_ok(cols[0]@, names) {
        0
    } else {
        1 + first_bad_col(cols.drop_first(), names)
    }
}

proof fn lemma_first_bad_col_at(cols: Seq<String>, names: Seq<Seq<char>>, i: int)
    requires
        0 <= i < cols.len(),
        forall|k: int| 0 <= k < i ==> resolve_ok(cols[k]@, names),
        !resolve_ok(cols[i]@, names),
    ensures
        first_bad_col(cols, names) == i,
    decreases i,
{
    if i > 0 {
        let d = cols.drop_first();
        assert(forall|k: int| 0 <= k < i - 1 ==> resolve_ok(d[k]@, names));
        assert(!resolve_ok(d[i - 1]@, names));
        lemma_first_bad_col_at(d, names, i - 1);
    }
}

/// The error the resolver gives for an identifier that does not resolve.
pub open spec fn resolver_err(ident: Seq<char>, e: TfError) -> bool {
    if is_dollar(ident) {
        e == TfError::InvalidColumnNumber
    } else {
        e matches TfError::ColumnNotFound(n) && n@ == strip_quotes(ident)
    }
}

/// The resolved output columns, in order.
pub open spec fn resolved_cols(cols: Seq<String>, names: Seq<Seq<char>>) -> Seq<usize> {
    Seq::new(cols.len(), |k: int| resolve_idx(cols[k]@, names) as usize)
}

/// The data rows: every line from `start` on, parsed into trimmed cells.
pub open spec fn parsed_rows(lines: Seq<String>, start: int, sep: Seq<char>) -> Seq<
    Seq<Seq<char>>,
> {
    if start >= lines.len() {
        Seq::empty()
    } else {
        Seq::new((lines.len() - start) as nat, |i: int| row_spec(lines[start + i]@, sep))
    }
}

/// The match spec a configured match argument denotes, nothing when none
/// is configured.
pub open spec fn spec_match_entries(match_json: Option<&str>, names: Seq<Seq<char>>) -> Option<
    Seq<(usize, Seq<Seq<char>>)>,
> {
    match match_json {
        None => None,
        Some(m) => Some(built_spec(obj_entries(json_top_of(m@)), names)),
    }
}

/// The rows that survive the match filter and the empty-projection
/// filter, in order.
pub open spec fn surviving_spec(
    rows: Seq<Seq<Seq<char>>>,
    mentries: Option<Seq<(usize, Seq<Seq<char>>)>>,
    cols: Seq<usize>,
) -> Seq<Seq<Seq<char>>>
    decreases rows.len(),
{
    if rows.len() == 0 {
        Seq::empty()
    } else {
        let rest = surviving_spec(rows.drop_last(), mentries, cols);
        let row = rows.last();
        let pass = match mentries {
            None => true,
            Some(es) => row_passes(row, es),
        };
        if pass && keep_spec(row, cols) {
            rest.push(row)
        } else {
            rest
        }
    }
}

/// The rows left after skipping the first `skip` results: all of them
/// gone when fewer remain.
pub open spec fn after_skip(rows: Seq<Seq<Seq<char>>>, skip: int) -> Seq<Seq<Seq<char>>> {
    if skip >= rows.len() {
        Seq::empty()
    } else {
        rows.skip(skip)
    }
}

/// The cell contents of a row collection.
pub open spec fn deep_of(rows: Seq<Vec<String>>) -> Seq<Seq<Seq<char>>> {
    Seq::new(rows.len(), |i: int| rows[i].deep_view())
}

/// The rows left after skipping the first `skip` of them: all of them
/// gone when fewer remain.
pub open spec fn after_skip_rows(rows: Seq<Vec<String>>, skip: int) -> Seq<Vec<String>> {
    if skip >= rows.len() {
        Seq::empty()
    } else {
        rows.skip(skip)
    }
}

/// Runs the pipeline over the buffered input lines.
///
/// `headers_row` is 1-based; `skip_lines` lines after the header row are
/// ignored; `skip_results` rows are dropped after sorting. `match_json`
/// and `transform_json` are the raw JSON arguments, absent when not
/// configured; `sort_ident` is the sort column identifier with
/// `sort_desc` giving the direction.
pub fn run_pipeline(
    lines: &Vec<String>,
    headers_row: usize,
    skip_lines: usize,
    skip_results: usize,
    cols: &Vec<String>,
    separator: &str,
    match_json: Option<&str>,
    sort_ident: Option<&str>,
    sort_desc: bool,
    transform_json: Option<&str>,
    show_headers: bool,
) -> (r: Result<String, TfError>)
    ensures
        !(1 <= headers_row <= lines@.len()) ==> r == Err::<String, TfError>(
            TfError::InvalidHeaderRow,
        ),
        (1 <= headers_row <= lines@.len() && !cols_ok(
            cols@,
            names_of(lines@, headers_row, separator@),
        )) ==> (r matches Err(e) && resolver_err(
            cols@[first_bad_col(cols@, names_of(lines@, headers_row, separator@))]@,
            e,
        )),
        r is Ok ==> 1 <= headers_row <= lines@.len() && cols_ok(
            cols@,
            names_of(lines@, headers_row, separator@),
        ) && (sort_ident matches Some(si) ==> resolve_ok(
            si@,
            names_of(lines@, headers_row, separator@),
        )) && (match_json matches Some(m) ==> json_arg_ok(
            m@,
            names_of(lines@, headers_row, separator@),
        )) && (transform_json matches Some(t) ==> json_arg_ok(
            t@,
            names_of(lines@, headers_row, separator@),
        )),
        (1 <= headers_row <= lines@.len() && cols_ok(
            cols@,
            names_of(lines@, headers_row, separator@),
        ) && (match_json matches Some(m) && !json_arg_ok(
            m@,
            names_of(lines@, headers_row, separator@),
        ))) ==> (r matches Err(e) && json_arg_err(
            match_json->0@,
            names_of(lines@, headers_row, separator@),
            false,
            e,
        )),
        (1 <= headers_row <= lines@.len() && cols_ok(
            cols@,
            names_of(lines@, headers_row, separator@),
        ) && (match_json is None || json_arg_ok(
            match_json->0@,
            names_of(lines@, headers_row, separator@),
        )) && (transform_json matches Some(t) && !json_arg_ok(
            t@,
            names_of(lines@, headers_row, separator@),
        ))) ==> (r matches Err(e) && json_arg_err(
            transform_json->0@,
            names_of(lines@, headers_row, separator@),
            true,
            e,
        )),
        (1 <= headers_row <= lines@.len() && cols_ok(
            cols@,
            names_of(lines@, headers_row, separator@),
        ) && (match_json is None || json_arg_ok(
            match_json->0@,
            names_of(lines@, headers_row, separator@),
        )) && (transform_json is None || json_arg_ok(
            transform_json->0@,
            names_of(lines@, headers_row, separator@),
        )) && (sort_ident matches Some(si) && !resolve_ok(
            si@,
            names_of(lines@, headers_row, separator@),
        ))) ==> (r matches Err(e) && resolver_err(sort_ident->0@, e)),
        (1 <= headers_row <= lines@.len() && cols_ok(
            cols@,
            names_of(lines@, headers_row, separator@),
        ) && (match_json is None || json_arg_ok(
            match_json->0@,
            names_of(lines@, headers_row, separator@),
        )) && (transform_json is None || json_arg_ok(
            transform_json->0@,
            names_of(lines@, headers_row, separator@),
        )) && (sort_ident is None || (sort_ident matches Some(si) && resolve_ok(
            si@,
            names_of(lines@, headers_row, separator@),
        )))) ==> r is Ok,
        transform_json is None && sort_ident is None ==> (r matches Ok(text)
            ==> exists|shown: Seq<Vec<String>>, widths: Seq<usize>|
            #![trigger render_spec(names_of(lines@, headers_row, separator@), shown, resolved_cols(cols@, names_of(lines@, headers_row, separator@)), widths, show_headers)]
            {
                let names = names_of(lines@, headers_row, separator@);
                let rcols = resolved_cols(cols@, names);
                &&& deep_of(shown) == after_skip(
                    surviving_spec(
                        parsed_rows(
                            lines@,
                            headers_row as int + skip_lines as int,
                            separator@,
                        ),
                        spec_match_entries(match_json, names),
                        rcols,
                    ),
                    skip_results as int,
                )
                &&& widths.len() == rcols.len()
                &&& (forall|k: int|
                    0 <= k < rcols.len() ==> #[trigger] widths[k] as nat == spec_col_width(
                        shown,
                        names,
                        rcols[k] as int,
                    ))
                &&& text@ == render_spec(names, shown, rcols, widths, show_headers)
            }),
        transform_json is None && sort_ident is Some ==> (r matches Ok(text)
            ==> exists|pre: Seq<Vec<String>>, sorted: Seq<Vec<String>>, ord: Seq<int>, widths: Seq<usize>|
            #![trigger stable_ordering(pre, sorted, ord, resolve_idx(sort_ident->0@, names_of(lines@, headers_row, separator@)), sort_desc), widths.len()]
            {
                let names = names_of(lines@, headers_row, separator@);
                let rcols = resolved_cols(cols@, names);
                let shown = after_skip_rows(sorted, skip_results as int);
                &&& deep_of(pre) == surviving_spec(
                    parsed_rows(
                        lines@,
                        headers_row as int + skip_lines as int,
                        separator@,
                    ),
                    spec_match_entries(match_json, names),
                    rcols,
                )
                &&& stable_ordering(
                    pre,
                    sorted,
                    ord,
                    resolve_idx(sort_ident->0@, names),
                    sort_desc,
                )
                &&& widths.len() == rcols.len()
                &&& (forall|k: int|
                    0 <= k < rcols.len() ==> #[trigger] widths[k] as nat == spec_col_width(
                        shown,
                        names,
                        rcols[k] as int,
                    ))
                &&& text@ == render_spec(names, shown, rcols, widths, show_headers)
            }),
{
    let ghost names = names_of(lines@, headers_row, separator@);
    let table = match parse_headers(lines, headers_row, separator) {
        Ok(t) => t,
        Err(e) => {
            return Err(e);
        },
    };
    proof {
        assert(1 <= headers_row <= lines@.len());
        assert(table.names_view() == names);
    }
    let mut row_cols: Vec<usize> = Vec::new();
    let mut k: usize = 0;
    while k < cols.len()
        invariant
            k <= cols@.len(),
            1 <= headers_row <= lines@.len(),
            names == names_of(lines@, headers_row, separator@),
            table.names_view() == names,
            row_cols@.len() == k,
            forall|t: int| 0 <= t < k ==> resolve_ok(cols@[t]@, names),
            forall|t: int|
                0 <= t < k ==> #[trigger] row_cols@[t] as int == resolve_idx(cols@[t]@, names),
        decreases cols@.len() - k,
    {
        match parse_col_identifier(cols[k].as_str(), &table) {
            Ok(c) => {
                row_cols.push(c);
            },
            Err(e) => {
                proof {
                    lemma_first_bad_col_at(cols@, names, k as int);
                }
                return Err(e);
            },
        }
        k = k + 1;
    }
    proof {
        assert(row_cols@ =~= resolved_cols(cols@, names));
    }
    let matcher: Option<ColSpec> = match match_json {
        None => None,
        Some(m) => match parse_match_arg(m, &table) {
            Ok(s) => {
                proof {
                    assert(json_arg_ok(m@, names));
                    assert(s.entries_view() == built_spec(
                        obj_entries(json_top_of(m@)),
                        names,
                    ));
                }
                Some(s)
            },
            Err(e) => {
                return Err(e);
            },
        },
    };
    let transforms: ColSpec = match transform_json {
        None => ColSpec::new_empty(),
        Some(t) => match parse_transform_arg(t, &table) {
            Ok(s) => s,
            Err(e) => {
                return Err(e);
            },
        },
    };
    let sort_col: Option<usize> = match sort_ident {
        None => None,
        Some(s) => match parse_col_identifier(s, &table) {
            Ok(c) => Some(c),
            Err(e) => {
                return Err(e);
            },
        },
    };
    let ghost det = transform_json is None;
    let ghost ments = spec_match_entries(match_json, names);
    let ghost start_int = headers_row as int + skip_lines as int;
    let ghost pr = parsed_rows(lines@, start_int, separator@);
    let n = lines.len();
    let start_eff: usize = if skip_lines <= n && headers_row <= n - skip_lines {
        headers_row + skip_lines
    } else {
        n
    };
    proof {
        if start_int < n {
            assert(start_eff as int == start_int);
            assert(pr.len() == n - start_int);
        } else {
            assert(start_eff as int == n as int);
            assert(pr.len() == 0);
        }
        assert(pr.take(0) =~= Seq::<Seq<Seq<char>>>::empty());
    }
    let mut data: Vec<Vec<String>> = Vec::new();
    let mut i: usize = start_eff;
    while i < n
        invariant
            start_eff <= i <= n,
            n == lines@.len(),
            1 <= headers_row <= lines@.len(),
            names == names_of(lines@, headers_row, separator@),
            table.names_view() == names,
            row_cols@ == resolved_cols(cols@, names),
            det == (transform_json is None),
            ments == spec_match_entries(match_json, names),
            match_json is None ==> matcher is None,
            match_json matches Some(m) ==> (matcher matches Some(msp) && msp.entries_view()
                == built_spec(obj_entries(json_top_of(m@)), names)),
            sort_ident is None ==> sort_col is None,
            sort_ident matches Some(si) ==> resolve_ok(si@, names),
            sort_ident matches Some(si) ==> (sort_col matches Some(c) && c as int == resolve_idx(
                si@,
                names,
            )),
            match_json matches Some(m) ==> json_arg_ok(m@, names),
            transform_json matches Some(t) ==> json_arg_ok(t@, names),
            pr == parsed_rows(lines@, start_int, separator@),
            start_int < n ==> start_eff as int == start_int && pr.len() == n - start_int,
            start_int >= n ==> start_eff as int == n as int && pr.len() == 0,
            transforms.wf(),
            transform_json is None ==> transforms.entries_view().len() == 0,
            det ==> data.deep_view() == surviving_spec(
                pr.take(i - start_eff),
                ments,
                row_cols@,
            ),
        decreases n - i,
    {
        let mut row = parse_row(lines[i].as_str(), separator);
        let ghost parsed_view = row.deep_view();
        proof {
            if start_int < n {
                assert(pr[i - start_eff] == row_spec(lines@[i as int]@, separator@));
            }
        }
        let passes = match &matcher {
            None => true,
            Some(m) => row_matches(&row, m),
        };
        if passes {
            let ghost before_transform = row@;
            apply_transformers(&mut row, &transforms);
            proof {
                if transform_json is None {
                    assert forall|c: int|
                        0 <= c < before_transform.len() implies row@[c]
                        == before_transform[c] by {
                        assert(!transforms.has_col(c));
                    }
                    assert(row@ =~= before_transform);
                    assert(row.deep_view() =~= parsed_view);
                }
            }
            if keep_row(&row, &row_cols) {
                let ghost prev = data.deep_view();
                data.push(row);
                proof {
                    if det {
                        assert(match ments {
                            None => true,
                            Some(es) => row_passes(parsed_view, es),
                        });
                        assert(data.deep_view() =~= prev.push(parsed_view));
                        assert(pr.take(i - start_eff + 1).drop_last() =~= pr.take(
                            i - start_eff,
                        ));
                        assert(pr.take(i - start_eff + 1).last() == pr[i - start_eff]);
                    }
                }
            } else {
                proof {
                    if det {
                        assert(pr.take(i - start_eff + 1).drop_last() =~= pr.take(
                            i - start_eff,
                        ));
                        assert(pr.take(i - start_eff + 1).last() == pr[i - start_eff]);
                    }
                }
            }
        } else {
            proof {
                if det {
                    assert(matcher matches Some(msp) ==> !row_passes(
                        parsed_view,
                        msp.entries_view(),
                    ));
                    assert(match ments {
                        None => true,
                        Some(es) => !row_passes(parsed_view, es),
                    });
                    assert(pr.take(i - start_eff + 1).drop_last() =~= pr.take(i - start_eff));
                    assert(pr.take(i - start_eff + 1).last() == pr[i - start_eff]);
                }
            }
        }
        i = i + 1;
    }
    proof {
        if det {
            if start_int < n {
                assert(pr.take(n - start_int) =~= pr);
            } else {
                assert(pr.take(0) =~= pr);
            }
        }
    }
    let mut data = data;
    let ghost pre_sort = data@;
    let ghost pre_sort_deep = data.deep_view();
    if let Some(c) = sort_col {
        data = sort_rows(&data, c, sort_desc);
    }
    let at: usize = if skip_results < data.len() {
        skip_results
    } else {
        data.len()
    };
    let ghost before_skip = data.deep_view();
    let ghost pre_split = data@;
    let shown_rows = data.split_off(at);
    proof {
        if det && sort_ident is None {
            assert forall|q: int| 0 <= q < shown_rows.deep_view().len() implies
                shown_rows.deep_view()[q] == before_skip[at + q] by {
                assert(shown_rows.deep_view()[q] == shown_rows@[q].deep_view());
            }
            assert(shown_rows.deep_view() =~= after_skip(before_skip, skip_results as int));
        }
    }
    let widths = compute_widths(&shown_rows, &row_cols, &table);
    let text = render(&table, &shown_rows, &row_cols, &widths, show_headers);
    proof {
        if det && sort_ident is None {
            assert(deep_of(shown_rows@) =~= shown_rows.deep_view());
            let rcols = resolved_cols(cols@, names);
            assert(text@ == render_spec(names, shown_rows@, rcols, widths@, show_headers));
            assert(deep_of(shown_rows@) == after_skip(
                surviving_spec(
                    parsed_rows(lines@, headers_row as int + skip_lines as int, separator@),
                    spec_match_entries(match_json, names),
                    rcols,
                ),
                skip_results as int,
            ));
            assert forall|q: int| 0 <= q < rcols.len() implies #[trigger] widths@[q] as nat
                == spec_col_width(shown_rows@, names, rcols[q] as int) by {}
        }
        if det && sort_ident is Some {
            let rcols = resolved_cols(cols@, names);
            let scol = resolve_idx(sort_ident->0@, names);
            let c = sort_col->0;
            assert(c as int == scol);
            assert(exists|ord: Seq<int>|
                stable_ordering(pre_sort, pre_split, ord, c as int, sort_desc));
            let ord = choose|ord: Seq<int>|
                stable_ordering(pre_sort, pre_split, ord, c as int, sort_desc);
            assert(deep_of(pre_sort) =~= pre_sort_deep);
            assert(shown_rows@ =~= after_skip_rows(pre_split, skip_results as int));
            assert(text@ == render_spec(
                names,
                after_skip_rows(pre_split, skip_results as int),
                rcols,
                widths@,
                show_headers,
            ));
            assert forall|q: int| 0 <= q < rcols.len() implies #[trigger] widths@[q] as nat
                == spec_col_width(shown_rows@, names, rcols[q] as int) by {}
            assert(stable_ordering(pre_sort, pre_split, ord, scol, sort_desc));
        }
    }
    Ok(text)
}

} // verus!
