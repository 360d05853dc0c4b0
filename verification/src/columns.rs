//! Header parsing and column identifier resolution. A column identifier is
//! either a `$N` positional literal (1-based) or a header name, looked up
//! case-insensitively in the header table.

use vstd::prelude::*;

use crate::casing::{to_upper, upper_fold};
use crate::errors::TfError;
use crate::text::{
    char_digit, digits_val, is_digit, lemma_digits_val_mono, lemma_digits_val_nonneg,
    lemma_digits_val_step, spec_is_digit, spec_split, spec_trim, split_str, str_eq, trim_str,
};

verus! {

/// The table of column names taken from the header row, uppercased and
/// trimmed, in parse order. A name's column index is its position; when a
/// name occurs twice, the later position wins at lookup.
#[derive(Debug)]
pub struct HeaderTable {
    pub names: Vec<String>,
}

impl HeaderTable {
    /// The header names as character sequences.
    pub open spec fn names_view(&self) -> Seq<Seq<char>> {
        self.names.deep_view()
    }
}

/// The index of the last occurrence of `t` among `names`, or `-1` when
/// there is none. The last occurrence wins, mirroring how later duplicate
/// header names overwrite earlier ones.
pub open spec fn lookup_last(names: Seq<Seq<char>>, t: Seq<char>) -> int
    decreases names.len(),
{
    if names.len() == 0 {
        -1
    } else if names.last() == t {
        names.len() - 1
    } else {
        lookup_last(names.drop_last(), t)
    }
}

proof fn lemma_lookup_last_found(names: Seq<Seq<char>>, t: Seq<char>, j: int)
    requires
        0 <= j < names.len(),
        names[j] == t,
        forall|k: int| j < k < names.len() ==> names[k] != t,
    ensures
        lookup_last(names, t) == j,
    decreases names.len(),
{
    if j == names.len() - 1 {
    } else {
        assert(names.last() != t);
        let m = names.drop_last();
        assert(m[j] == t);
        assert(forall|k: int| j < k < m.len() ==> m[k] != t);
        lemma_lookup_last_found(m, t, j);
    }
}

proof fn lemma_lookup_last_none(names: Seq<Seq<char>>, t: Seq<char>)
    requires
        forall|k: int| 0 <= k < names.len() ==> names[k] != t,
    ensures
        lookup_last(names, t) == -1,
    decreases names.len(),
{
    if names.len() > 0 {
        let m = names.drop_last();
        assert(forall|k: int| 0 <= k < m.len() ==> m[k] != t);
        lemma_lookup_last_none(m, t);
    }
}

/// `s` with one layer of surrounding double quotes removed.
pub open spec fn strip_quotes(s: Seq<char>) -> Seq<char> {
    if s.len() >= 2 && s[0] == '"' && s.last() == '"' {
        s.subrange(1, s.len() - 1)
    } else {
        s
    }
}

/// Removes one layer of surrounding double quotes.
pub fn strip_quotes_str<'a>(s: &'a str) -> (r: &'a str)
    ensures
        r@ == strip_quotes(s@),
{
    let n = s.unicode_len();
    if n >= 2 && s.get_char(0) == '"' && s.get_char(n - 1) == '"' {
        s.substring_char(1, n - 1)
    } else {
        s
    }
}

/// The digits of a `$N` remainder, after at most one leading plus sign.
pub open spec fn digits_part(rest: Seq<char>) -> Seq<char> {
    if rest.len() >= 1 && rest[0] == '+' {
        rest.drop_first()
    } else {
        rest
    }
}

/// Whether the remainder of a `$N` literal denotes a positive integer that
/// a machine word can hold.
pub open spec fn dollar_num_ok(rest: Seq<char>) -> bool {
    let d = digits_part(rest);
    d.len() >= 1 && (forall|k: int| 0 <= k < d.len() ==> spec_is_digit(d[k])) && 1 <= digits_val(d)
        <= usize::MAX
}

/// The number the remainder of a `$N` literal denotes.
pub open spec fn dollar_num_val(rest: Seq<char>) -> int {
    digits_val(digits_part(rest))
}

/// Whether the identifier, quotes stripped, is a `$N` positional literal.
pub open spec fn is_dollar(ident: Seq<char>) -> bool {
    let t = strip_quotes(ident);
    t.len() >= 1 && t[0] == '$'
}

/// Whether the identifier resolves against the given header names.
pub open spec fn resolve_ok(ident: Seq<char>, names: Seq<Seq<char>>) -> bool {
    let t = strip_quotes(ident);
    if is_dollar(ident) {
        dollar_num_ok(t.drop_first())
    } else {
        lookup_last(names, upper_fold(t)) >= 0
    }
}

/// The zero-based column index the identifier resolves to.
pub open spec fn resolve_idx(ident: Seq<char>, names: Seq<Seq<char>>) -> int {
    let t = strip_quotes(ident);
    if is_dollar(ident) {
        dollar_num_val(t.drop_first()) - 1
    } else {
        lookup_last(names, upper_fold(t))
    }
}

/// Resolution is case-insensitive: two names with the same uppercase fold
/// resolve alike against every header table.
pub proof fn lemma_resolve_case_insensitive(a: Seq<char>, b: Seq<char>, names: Seq<Seq<char>>)
    requires
        !is_dollar(a),
        !is_dollar(b),
        upper_fold(strip_quotes(a)) == upper_fold(strip_quotes(b)),
    ensures
        resolve_ok(a, names) == resolve_ok(b, names),
        resolve_ok(a, names) ==> resolve_idx(a, names) == resolve_idx(b, names),
{
}

/// Parses the digits of a `$N` remainder, `rest` being the identifier after
/// the dollar sign.
fn parse_dollar_number(t: &str, start: usize) -> (r: Result<usize, TfError>)
    requires
        start >= 1,
        start as int <= t@.len(),
        digits_part(t@.skip(1)) == t@.skip(start as int),
    ensures
        dollar_num_ok(t@.skip(1)) <==> (r is Ok),
        r matches Ok(v) ==> 1 <= v as int <= usize::MAX && v as int == dollar_num_val(t@.skip(1)),
        r is Err ==> r == Err::<usize, TfError>(TfError::InvalidColumnNumber),
{
    let ghost d = t@.skip(start as int);
    let n = t.unicode_len();
    if start >= n {
        proof {
            assert(digits_part(t@.skip(1)).len() == 0);
        }
        return Err(TfError::InvalidColumnNumber);
    }
    let mut i: usize = start;
    let mut acc: usize = 0;
    loop
        invariant
            start <= i <= n,
            n == t@.len(),
            start >= 1,
            d == t@.skip(start as int),
            digits_part(t@.skip(1)) == d,
            start < n,
            forall|k: int| 0 <= k < i - start ==> spec_is_digit(d[k]),
            acc as int == digits_val(d.take(i - start)),
        decreases n - i,
    {
        if i >= n {
            proof {
                assert(d.take(i - start) =~= d);
                lemma_digits_val_nonneg(d);
            }
            if acc == 0 {
                proof {
                    assert(digits_val(digits_part(t@.skip(1))) == 0);
                }
                return Err(TfError::InvalidColumnNumber);
            }
            return Ok(acc);
        }
        let c = t.get_char(i);
        proof {
            assert(d[i - start] == t@[i as int]);
        }
        if !is_digit(c) {
            proof {
                assert(!spec_is_digit(digits_part(t@.skip(1))[i - start]));
            }
            return Err(TfError::InvalidColumnNumber);
        }
        let dv: usize = (c as u32 as usize) - 0x30;
        proof {
            lemma_digits_val_step(d, i - start);
        }
        let next = match acc.checked_mul(10) {
            Some(x) => x.checked_add(dv),
            None => None,
        };
        match next {
            Some(v) => {
                acc = v;
            },
            None => {
                proof {
                    assert(digits_val(d.take(i - start + 1)) > usize::MAX);
                    if dollar_num_ok(t@.skip(1)) {
                        assert forall|k: int| 0 <= k < d.len() implies spec_is_digit(d[k]) by {
                            assert(spec_is_digit(digits_part(t@.skip(1))[k]));
                        }
                        lemma_digits_val_mono(d, i - start + 1, d.len() as int);
                        assert(d.take(d.len() as int) =~= d);
                    }
                }
                return Err(TfError::InvalidColumnNumber);
            },
        }
        i = i + 1;
    }
}

/// Resolves a user-supplied column identifier to a zero-based column index.
///
/// A quoted or bare `$N` literal names the N-th column, 1-based; anything
/// else is uppercased and looked up among the header names, the last
/// occurrence winning. A `$` remainder that is not a positive integer is
/// `InvalidColumnNumber`; an unknown name is `ColumnNotFound` and carries
/// the name as given, quotes stripped.
pub fn parse_col_identifier(ident: &str, headers: &HeaderTable) -> (r: Result<usize, TfError>)
    ensures
        resolve_ok(ident@, headers.names_view()) <==> (r is Ok),
        r matches Ok(i) ==> i as int == resolve_idx(ident@, headers.names_view()),
        !resolve_ok(ident@, headers.names_view()) && is_dollar(ident@) ==> r == Err::<
            usize,
            TfError,
        >(TfError::InvalidColumnNumber),
        !resolve_ok(ident@, headers.names_view()) && !is_dollar(ident@) ==> (r matches Err(
            TfError::ColumnNotFound(n),
        ) && n@ == strip_quotes(ident@)),
{
    let t = strip_quotes_str(ident);
    let n = t.unicode_len();
    if n >= 1 && t.get_char(0) == '$' {
        let start: usize = if n >= 2 && t.get_char(1) == '+' {
            2
        } else {
            1
        };
        proof {
            let rest = t@.skip(1);
            if start == 2 {
                assert(rest[0] == t@[1]);
                assert(digits_part(rest) =~= t@.skip(2));
            } else {
                assert(rest.len() >= 1 ==> rest[0] == t@[1]);
                assert(digits_part(rest) =~= t@.skip(1));
            }
        }
        proof {
            assert(t@.skip(1) =~= strip_quotes(ident@).drop_first());
        }
        match parse_dollar_number(t, start) {
            Ok(v) => Ok(v - 1),
            Err(e) => Err(e),
        }
    } else {
        let u = to_upper(t);
        let mut i: usize = headers.names.len();
        loop
            invariant
                i <= headers.names.len(),
                u@ == upper_fold(strip_quotes(ident@)),
                t@ == strip_quotes(ident@),
                !is_dollar(ident@),
                forall|k: int|
                    i <= k < headers.names_view().len() ==> headers.names_view()[k] != u@,
            decreases i,
        {
            if i == 0 {
                proof {
                    lemma_lookup_last_none(headers.names_view(), u@);
                }
                return Err(TfError::ColumnNotFound(String::from_str(t)));
            }
            if str_eq(headers.names[i - 1].as_str(), u.as_str()) {
                proof {
                    lemma_lookup_last_found(headers.names_view(), u@, i - 1);
                }
                return Ok(i - 1);
            }
            i = i - 1;
        }
    }
}

/// The header names a header line yields: the line split on the separator,
/// each piece trimmed and uppercased.
pub open spec fn header_names_spec(line: Seq<char>, sep: Seq<char>) -> Seq<Seq<char>> {
    spec_split(line, sep).map_values(|p: Seq<char>| upper_fold(spec_trim(p)))
}

/// Builds the header table from the designated header line.
///
/// `headers_row` is 1-based; a value of zero or one beyond the number of
/// input lines is `InvalidHeaderRow`.
pub fn parse_headers(lines: &Vec<String>, headers_row: usize, separator: &str) -> (r: Result<
    HeaderTable,
    TfError,
>)
    ensures
        (1 <= headers_row <= lines@.len()) <==> (r is Ok),
        r is Err ==> r == Err::<HeaderTable, TfError>(TfError::InvalidHeaderRow),
        r matches Ok(h) ==> h.names_view() == header_names_spec(
            lines@[headers_row - 1]@,
            separator@,
        ),
{
    if headers_row == 0 || headers_row > lines.len() {
        return Err(TfError::InvalidHeaderRow);
    }
    let line = &lines[headers_row - 1];
    let pieces = split_str(line.as_str(), separator);
    let mut names: Vec<String> = Vec::new();
    let mut i: usize = 0;
    while i < pieces.len()
        invariant
            i <= pieces.len(),
            names@.len() == i,
            forall|k: int|
                0 <= k < i ==> names.deep_view()[k] == upper_fold(spec_trim(pieces.deep_view()[k])),
        decreases pieces.len() - i,
    {
        let trimmed = trim_str(pieces[i].as_str());
        let upped = to_upper(trimmed.as_str());
        let ghost prev = names.deep_view();
        names.push(upped);
        proof {
            let piece = pieces.deep_view()[i as int];
            assert(names.deep_view() =~= prev.push(upper_fold(spec_trim(piece))));
        }
        i = i + 1;
    }
    proof {
        assert(names.deep_view() =~= header_names_spec(lines@[headers_row - 1]@, separator@));
    }
    Ok(HeaderTable { names })
}

} // verus!
