//! The per-column specifications the pipeline is configured with: a match
//! spec maps a column index to the substrings it accepts, a transform spec
//! maps a column index to an ordered list of operation names. Both share
//! one shape.

use vstd::pervasive::VecAdditionalExecFns;
use vstd::prelude::*;

use crate::columns::{is_dollar, parse_col_identifier, resolve_idx, resolve_ok, strip_quotes,
    HeaderTable};
use crate::errors::TfError;
use crate::json::{json_top_of, leaf_ok, leaf_vals, parse_json_object, JsonLeaf, JsonTop};

verus! {

/// A mapping from column index to a list of strings, kept as entries with
/// pairwise distinct indices. Independent entries carry no meaningful
/// order; only the list inside one entry does.
#[derive(Debug)]
pub struct ColSpec {
    pub entries: Vec<(usize, Vec<String>)>,
}

impl ColSpec {
    /// The entries, as index and character-sequence lists.
    pub open spec fn entries_view(&self) -> Seq<(usize, Seq<Seq<char>>)> {
        self.entries.deep_view()
    }

    /// Entries address pairwise distinct columns.
    pub open spec fn wf(&self) -> bool {
        forall|k: int, l: int|
            0 <= k < l < self.entries_view().len() ==> self.entries_view()[k].0
                != self.entries_view()[l].0
    }

    /// Whether some entry addresses column `c`.
    pub open spec fn has_col(&self, c: int) -> bool {
        exists|k: int| 0 <= k < self.entries_view().len() && self.entries_view()[k].0 == c
    }

    /// An empty specification: no constraint, no transformation.
    pub fn new_empty() -> (r: ColSpec)
        ensures
            r.entries_view() =~= Seq::<(usize, Seq<Seq<char>>)>::empty(),
            r.wf(),
    {
        let r = ColSpec { entries: Vec::new() };
        proof {
            assert(r.entries_view() =~= Seq::<(usize, Seq<Seq<char>>)>::empty());
        }
        r
    }
}

/// `m` with the list for column `c` replaced in place, or appended when
/// `c` is new.
pub open spec fn upsert_spec(
    m: Seq<(usize, Seq<Seq<char>>)>,
    c: usize,
    vals: Seq<Seq<char>>,
) -> Seq<(usize, Seq<Seq<char>>)>
    decreases m.len(),
{
    if m.len() == 0 {
        seq![(c, vals)]
    } else if m[0].0 == c {
        seq![(c, vals)] + m.drop_first()
    } else {
        seq![m[0]] + upsert_spec(m.drop_first(), c, vals)
    }
}

proof fn lemma_upsert_found(m: Seq<(usize, Seq<Seq<char>>)>, c: usize, vals: Seq<Seq<char>>, k: int)
    requires
        0 <= k < m.len(),
        m[k].0 == c,
        forall|t: int| 0 <= t < k ==> m[t].0 != c,
    ensures
        upsert_spec(m, c, vals) == m.update(k, (c, vals)),
    decreases k,
{
    if k == 0 {
        assert(upsert_spec(m, c, vals) =~= m.update(0, (c, vals)));
    } else {
        let d = m.drop_first();
        assert(d[k - 1].0 == c);
        assert(forall|t: int| 0 <= t < k - 1 ==> d[t].0 != c);
        lemma_upsert_found(d, c, vals, k - 1);
        assert(seq![m[0]] + d.update(k - 1, (c, vals)) =~= m.update(k, (c, vals)));
    }
}

proof fn lemma_upsert_absent(m: Seq<(usize, Seq<Seq<char>>)>, c: usize, vals: Seq<Seq<char>>)
    requires
        forall|t: int| 0 <= t < m.len() ==> m[t].0 != c,
    ensures
        upsert_spec(m, c, vals) == m.push((c, vals)),
    decreases m.len(),
{
    if m.len() == 0 {
        assert(upsert_spec(m, c, vals) =~= m.push((c, vals)));
    } else {
        let d = m.drop_first();
        assert(forall|t: int| 0 <= t < d.len() ==> d[t].0 != c);
        lemma_upsert_absent(d, c, vals);
        assert(seq![m[0]] + d.push((c, vals)) =~= m.push((c, vals)));
    }
}

/// Replaces or appends the list for column `c`.
fn upsert_entry(s: &mut ColSpec, c: usize, vals: Vec<String>)
    requires
        old(s).wf(),
    ensures
        final(s).entries_view() == upsert_spec(old(s).entries_view(), c, vals.deep_view()),
        final(s).wf(),
        final(s).entries_view().len() <= old(s).entries_view().len() + 1,
{
    let mut k: usize = 0;
    loop
        invariant
            k <= s.entries.len(),
            *s == *old(s),
            s.wf(),
            forall|t: int| 0 <= t < k ==> s.entries_view()[t].0 != c,
        decreases s.entries.len() - k,
    {
        if k >= s.entries.len() {
            let ghost prev = s.entries_view();
            s.entries.push((c, vals));
            proof {
                assert(s.entries_view() =~= prev.push((c, vals.deep_view())));
                lemma_upsert_absent(prev, c, vals.deep_view());
            }
            return ;
        }
        if s.entries[k].0 == c {
            let ghost prev = s.entries_view();
            s.entries.set(k, (c, vals));
            proof {
                assert(s.entries_view() =~= prev.update(k as int, (c, vals.deep_view())));
                lemma_upsert_found(prev, c, vals.deep_view(), k as int);
            }
            return ;
        }
        k = k + 1;
    }
}

/// Whether every entry of a parsed JSON object resolves and has an
/// acceptable leaf.
pub open spec fn entries_ok(entries: Seq<(String, JsonLeaf)>, names: Seq<Seq<char>>) -> bool {
    forall|i: int|
        0 <= i < entries.len() ==> resolve_ok(entries[i].0@, names) && leaf_ok(entries[i].1)
}

/// The index of the first entry that does not resolve or has a bad leaf.
pub open spec fn first_bad(entries: Seq<(String, JsonLeaf)>, names: Seq<Seq<char>>) -> int
    decreases entries.len(),
{
    if entries.len() == 0 {
        0
    } else if !(resolve_ok(entries[0].0@, names) && leaf_ok(entries[0].1)) {
        0
    } else {
        1 + first_bad(entries.drop_first(), names)
    }
}

proof fn lemma_first_bad_at(entries: Seq<(String, JsonLeaf)>, names: Seq<Seq<char>>, i: int)
    requires
        0 <= i < entries.len(),
        forall|k: int|
            0 <= k < i ==> resolve_ok(entries[k].0@, names) && leaf_ok(entries[k].1),
        !(resolve_ok(entries[i].0@, names) && leaf_ok(entries[i].1)),
    ensures
        first_bad(entries, names) == i,
    decreases i,
{
    if i > 0 {
        let d = entries.drop_first();
        assert(forall|k: int|
            0 <= k < i - 1 ==> resolve_ok(d[k].0@, names) && leaf_ok(d[k].1));
        assert(!(resolve_ok(d[i - 1].0@, names) && leaf_ok(d[i - 1].1)));
        lemma_first_bad_at(d, names, i - 1);
    }
}

/// The specification a well-formed JSON object builds: entries processed
/// in order, a later entry for the same column replacing the earlier one.
pub open spec fn built_spec(entries: Seq<(String, JsonLeaf)>, names: Seq<Seq<char>>) -> Seq<
    (usize, Seq<Seq<char>>),
>
    decreases entries.len(),
{
    if entries.len() == 0 {
        Seq::empty()
    } else {
        let e = entries.last();
        upsert_spec(
            built_spec(entries.drop_last(), names),
            resolve_idx(e.0@, names) as usize,
            leaf_vals(e.1),
        )
    }
}

/// The error the first failing entry of a JSON object gives: resolution
/// errors as the resolver gives them, a bad leaf as `malformed`.
pub open spec fn entries_err(
    entries: Seq<(String, JsonLeaf)>,
    names: Seq<Seq<char>>,
    malformed: TfError,
    e: TfError,
) -> bool {
    let b = first_bad(entries, names);
    &&& 0 <= b < entries.len()
    &&& (!resolve_ok(entries[b].0@, names) && is_dollar(entries[b].0@) ==> e
        == TfError::InvalidColumnNumber)
    &&& (!resolve_ok(entries[b].0@, names) && !is_dollar(entries[b].0@) ==> (e matches
        TfError::ColumnNotFound(n) && n@ == strip_quotes(entries[b].0@)))
    &&& (resolve_ok(entries[b].0@, names) && !leaf_ok(entries[b].1) ==> e == malformed)
}

/// What building a column spec from a JSON object's entries returns: the
/// built mapping on success, and otherwise the error of the first entry
/// that fails.
pub open spec fn build_outcome(
    entries: Seq<(String, JsonLeaf)>,
    names: Seq<Seq<char>>,
    malformed: TfError,
    r: Result<ColSpec, TfError>,
) -> bool {
    &&& (entries_ok(entries, names) <==> r is Ok)
    &&& (r matches Ok(s) ==> s.entries_view() == built_spec(entries, names) && s.wf())
    &&& (r matches Err(e) ==> entries_err(entries, names, malformed, e))
}

/// Whether a raw JSON argument is acceptable against the headers: an
/// object whose every key resolves and whose every value is a string or
/// an array of strings.
pub open spec fn json_arg_ok(s: Seq<char>, names: Seq<Seq<char>>) -> bool {
    json_top_of(s) matches JsonTop::Object(es) && entries_ok(es@, names)
}

/// The error an unacceptable raw JSON argument gives: `InvalidJson` for
/// text that is not JSON, the malformed-spec error for JSON that is not
/// an object of strings or arrays of strings, and resolution errors for
/// keys that do not resolve.
pub open spec fn json_arg_err(
    s: Seq<char>,
    names: Seq<Seq<char>>,
    for_transform: bool,
    e: TfError,
) -> bool {
    match json_top_of(s) {
        JsonTop::NotJson => e == TfError::InvalidJson,
        JsonTop::NotObject => e == spec_malformed_err(for_transform),
        JsonTop::Object(es) => entries_err(es@, names, spec_malformed_err(for_transform), e),
    }
}

/// The malformed-spec error of the argument being parsed: the transform
/// flavour or the match flavour.
pub open spec fn spec_malformed_err(for_transform: bool) -> TfError {
    if for_transform {
        TfError::MalformedTransformSpec
    } else {
        TfError::MalformedMatchSpec
    }
}

/// The malformed-spec error of the argument being parsed.
fn malformed_err(for_transform: bool) -> (r: TfError)
    ensures
        r == spec_malformed_err(for_transform),
{
    if for_transform {
        TfError::MalformedTransformSpec
    } else {
        TfError::MalformedMatchSpec
    }
}

/// The strings of an acceptable leaf, cloned out of it.
fn leaf_strings(leaf: &JsonLeaf, for_transform: bool) -> (r: Result<Vec<String>, TfError>)
    ensures
        leaf_ok(*leaf) <==> r is Ok,
        r matches Ok(v) ==> v.deep_view() == leaf_vals(*leaf),
        r is Err ==> r == Err::<Vec<String>, TfError>(spec_malformed_err(for_transform)),
{
    match leaf {
        JsonLeaf::One(s) => {
            let mut v: Vec<String> = Vec::new();
            v.push(s.clone());
            proof {
                assert(v.deep_view() =~= leaf_vals(*leaf));
            }
            Ok(v)
        },
        JsonLeaf::Many(items) => {
            let mut v: Vec<String> = Vec::new();
            let mut j: usize = 0;
            while j < items.len()
                invariant
                    *leaf == JsonLeaf::Many(*items),
                    j <= items@.len(),
                    v@.len() == j,
                    forall|w: int| 0 <= w < j ==> items@[w] is Some,
                    forall|w: int|
                        0 <= w < j ==> v.deep_view()[w] == items.deep_view()[w]->0,
                decreases items@.len() - j,
            {
                match &items[j] {
                    Some(x) => {
                        let ghost prev = v.deep_view();
                        v.push(x.clone());
                        proof {
                            assert(items.deep_view()[j as int] == items@[j as int].deep_view());
                            assert(v.deep_view() =~= prev.push(x@));
                        }
                    },
                    None => {
                        proof {
                            assert(items@[j as int] is None);
                            assert(!leaf_ok(JsonLeaf::Many(*items)));
                            assert(*leaf == JsonLeaf::Many(*items));
                        }
                        return Err(malformed_err(for_transform));
                    },
                }
                j = j + 1;
            }
            proof {
                assert forall|w: int| 0 <= w < items@.len() implies items@[w] is Some by {}
                assert(v.deep_view() =~= leaf_vals(*leaf));
            }
            Ok(v)
        },
        JsonLeaf::Other => Err(malformed_err(for_transform)),
    }
}

/// Builds a column spec from the entries of a parsed JSON object,
/// resolving each key against the headers.
fn build_col_spec(
    entries: &Vec<(String, JsonLeaf)>,
    headers: &HeaderTable,
    for_transform: bool,
) -> (r: Result<ColSpec, TfError>)
    ensures
        build_outcome(entries@, headers.names_view(), spec_malformed_err(for_transform), r),
{
    let ghost names = headers.names_view();
    let mut out = ColSpec::new_empty();
    let mut i: usize = 0;
    proof {
        assert(out.entries_view() =~= built_spec(entries@.take(0), names));
    }
    while i < entries.len()
        invariant
            i <= entries@.len(),
            out.wf(),
            forall|k: int|
                0 <= k < i ==> resolve_ok(entries@[k].0@, names) && leaf_ok(entries@[k].1),
            out.entries_view() == built_spec(entries@.take(i as int), names),
            names == headers.names_view(),
        decreases entries@.len() - i,
    {
        let ident = &entries[i].0;
        let c = match parse_col_identifier(ident.as_str(), headers) {
            Ok(c) => c,
            Err(e) => {
                proof {
                    lemma_first_bad_at(entries@, names, i as int);
                }
                return Err(e);
            },
        };
        let vals = match leaf_strings(&entries[i].1, for_transform) {
            Ok(v) => v,
            Err(e) => {
                proof {
                    lemma_first_bad_at(entries@, names, i as int);
                }
                return Err(e);
            },
        };
        proof {
            assert(entries@.take(i + 1).drop_last() =~= entries@.take(i as int));
            assert(entries@.take(i + 1).last() == entries@[i as int]);
        }
        upsert_entry(&mut out, c, vals);
        i = i + 1;
    }
    proof {
        assert(entries@.take(i as int) =~= entries@);
    }
    Ok(out)
}

/// Parses the match argument: a JSON object mapping column identifiers to
/// one accepted substring or an array of them. Text that is not JSON is
/// `InvalidJson`; JSON that is not such an object is `MalformedMatchSpec`;
/// otherwise the object's entries decide, as `match_spec_of_json` states.
pub fn parse_match_arg(match_arg: &str, headers: &HeaderTable) -> (r: Result<ColSpec, TfError>)
    ensures
        json_arg_ok(match_arg@, headers.names_view()) <==> r is Ok,
        r matches Ok(sp) ==> sp.wf(),
        r matches Ok(sp) ==> (json_top_of(match_arg@) matches JsonTop::Object(es)
            ==> sp.entries_view() == built_spec(es@, headers.names_view())),
        r matches Err(e) ==> json_arg_err(match_arg@, headers.names_view(), false, e),
{
    let top = parse_json_object(match_arg);
    let ghost gtop = top;
    let r = match_spec_of_json(top, headers);
    proof {
        match gtop {
            JsonTop::Object(es) => {
                assert(r matches Ok(sp) ==> sp.entries_view() == built_spec(
                    es@,
                    headers.names_view(),
                ));
            },
            _ => {},
        }
    }
    r
}

/// Parses the transform argument: a JSON object mapping column identifiers
/// to one operation name or an ordered array of them. Text that is not
/// JSON is `InvalidJson`; JSON that is not such an object is
/// `MalformedTransformSpec`; otherwise the object's entries decide, as
/// `transform_spec_of_json` states.
pub fn parse_transform_arg(transform_arg: &str, headers: &HeaderTable) -> (r: Result<
    ColSpec,
    TfError,
>)
    ensures
        json_arg_ok(transform_arg@, headers.names_view()) <==> r is Ok,
        r matches Ok(sp) ==> sp.wf(),
        r matches Ok(sp) ==> (json_top_of(transform_arg@) matches JsonTop::Object(es)
            ==> sp.entries_view() == built_spec(es@, headers.names_view())),
        r matches Err(e) ==> json_arg_err(transform_arg@, headers.names_view(), true, e),
{
    let top = parse_json_object(transform_arg);
    let ghost gtop = top;
    let r = transform_spec_of_json(top, headers);
    proof {
        match gtop {
            JsonTop::Object(es) => {
                assert(r matches Ok(sp) ==> sp.entries_view() == built_spec(
                    es@,
                    headers.names_view(),
                ));
            },
            _ => {},
        }
    }
    r
}

/// Turns a parsed match argument into a match spec.
pub fn match_spec_of_json(top: JsonTop, headers: &HeaderTable) -> (r: Result<ColSpec, TfError>)
    ensures
        top is NotJson ==> r == Err::<ColSpec, TfError>(TfError::InvalidJson),
        top is NotObject ==> r == Err::<ColSpec, TfError>(TfError::MalformedMatchSpec),
        top matches JsonTop::Object(entries) ==> build_outcome(
            entries@,
            headers.names_view(),
            TfError::MalformedMatchSpec,
            r,
        ),
{
    match top {
        JsonTop::NotJson => Err(TfError::InvalidJson),
        JsonTop::NotObject => Err(TfError::MalformedMatchSpec),
        JsonTop::Object(entries) => build_col_spec(&entries, headers, false),
    }
}

/// Turns a parsed transform argument into a transform spec.
pub fn transform_spec_of_json(top: JsonTop, headers: &HeaderTable) -> (r: Result<ColSpec, TfError>)
    ensures
        top is NotJson ==> r == Err::<ColSpec, TfError>(TfError::InvalidJson),
        top is NotObject ==> r == Err::<ColSpec, TfError>(TfError::MalformedTransformSpec),
        top matches JsonTop::Object(entries) ==> build_outcome(
            entries@,
            headers.names_view(),
            TfError::MalformedTransformSpec,
            r,
        ),
{
    match top {
        JsonTop::NotJson => Err(TfError::InvalidJson),
        JsonTop::NotObject => Err(TfError::MalformedTransformSpec),
        JsonTop::Object(entries) => build_col_spec(&entries, headers, true),
    }
}

} // verus!
