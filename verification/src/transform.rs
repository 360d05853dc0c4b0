//! The value transformations: `$AGE_TO_DATE` turns an age in days into a
//! timestamp, `$TO_LOWER` lowercases a cell, and every other operation
//! name is a defined no-op. Operations apply per column, in the order the
//! caller gave them.

use vstd::pervasive::VecAdditionalExecFns;
use vstd::prelude::*;

use crate::casing::{lower_fold, to_lower};
use crate::specs::ColSpec;
use crate::text::{
    char_digit, digits_val, is_digit, lemma_digits_val_nonneg, lemma_digits_val_step,
    spec_is_digit, str_eq,
};

verus! {

/// The index of the first digit in `s`, its length when there is none.
pub open spec fn first_digit_idx(s: Seq<char>) -> int
    decreases s.len(),
{
    if s.len() == 0 {
        0
    } else if spec_is_digit(s[0]) {
        0
    } else {
        1 + first_digit_idx(s.drop_first())
    }
}

/// How many digits `s` begins with.
pub open spec fn run_len(s: Seq<char>) -> int
    decreases s.len(),
{
    if s.len() > 0 && spec_is_digit(s[0]) {
        1 + run_len(s.drop_first())
    } else {
        0
    }
}

proof fn lemma_first_digit_at(s: Seq<char>, i: int)
    requires
        0 <= i <= s.len(),
        forall|k: int| 0 <= k < i ==> !spec_is_digit(s[k]),
        i < s.len() ==> spec_is_digit(s[i]),
    ensures
        first_digit_idx(s) == i,
    decreases i,
{
    if i > 0 {
        let d = s.drop_first();
        assert(forall|k: int| 0 <= k < i - 1 ==> !spec_is_digit(d[k]));
        assert(i - 1 < d.len() ==> spec_is_digit(d[i - 1]));
        lemma_first_digit_at(d, i - 1);
    }
}

proof fn lemma_run_len_at(s: Seq<char>, i: int)
    requires
        0 <= i <= s.len(),
        forall|k: int| 0 <= k < i ==> spec_is_digit(s[k]),
        i < s.len() ==> !spec_is_digit(s[i]),
    ensures
        run_len(s) == i,
    decreases i,
{
    if i > 0 {
        let d = s.drop_first();
        assert(forall|k: int| 0 <= k < i - 1 ==> spec_is_digit(d[k]));
        assert(i - 1 < d.len() ==> !spec_is_digit(d[i - 1]));
        lemma_run_len_at(d, i - 1);
    }
}

/// The first run of digits in `s`, if any.
pub open spec fn spec_digit_run(s: Seq<char>) -> Option<Seq<char>> {
    let f = first_digit_idx(s);
    if f == s.len() {
        None
    } else {
        Some(s.subrange(f, f + run_len(s.skip(f))))
    }
}

/// The day count an age cell denotes: the value of its first digit run,
/// zero when that value overflows what a signed machine word holds, and
/// nothing when the cell has no digit at all.
pub open spec fn spec_days_of(s: Seq<char>) -> Option<u64> {
    match spec_digit_run(s) {
        None => None,
        Some(run) => Some(
            if digits_val(run) > i64::MAX {
                0u64
            } else {
                digits_val(run) as u64
            },
        ),
    }
}

/// The position of the first digit in `s`, its length when there is none.
fn first_digit_pos(s: &str) -> (i: usize)
    ensures
        0 <= i <= s@.len(),
        forall|k: int| 0 <= k < i ==> !spec_is_digit(s@[k]),
        i < s@.len() ==> spec_is_digit(s@[i as int]),
{
    let n = s.unicode_len();
    let mut i: usize = 0;
    loop
        invariant
            i <= n,
            n == s@.len(),
            forall|k: int| 0 <= k < i ==> !spec_is_digit(s@[k]),
        decreases n - i,
    {
        if i >= n {
            return i;
        }
        if is_digit(s.get_char(i)) {
            return i;
        }
        i = i + 1;
    }
}

/// Extracts the day count from an age cell: the value of the first digit
/// run, with an overflowing run counted as zero days.
pub fn extract_days(value: &str) -> (r: Option<u64>)
    ensures
        r == spec_days_of(value@),
        r matches Some(v) ==> v as int <= i64::MAX,
{
    let n = value.unicode_len();
    let i = first_digit_pos(value);
    proof {
        lemma_first_digit_at(value@, i as int);
    }
    if i >= n {
        return None;
    }
    let ghost run_start = i as int;
    let mut j: usize = i;
    let mut acc: u64 = 0;
    let mut over = false;
    loop
        invariant
            i <= j <= n,
            n == value@.len(),
            i < n,
            spec_is_digit(value@[i as int]),
            run_start == i as int,
            first_digit_idx(value@) == i as int,
            forall|k: int| i <= k < j ==> spec_is_digit(value@[k]),
            !over ==> acc as int == digits_val(value@.subrange(i as int, j as int)) && acc as int
                <= i64::MAX,
            over ==> digits_val(value@.subrange(i as int, j as int)) > i64::MAX,
        decreases n - j,
    {
        let run_done = if j >= n {
            true
        } else {
            !is_digit(value.get_char(j))
        };
        if run_done {
            proof {
                let skipped = value@.skip(run_start);
                assert forall|k: int| 0 <= k < j - i implies spec_is_digit(skipped[k]) by {
                    assert(skipped[k] == value@[run_start + k]);
                }
                assert((j as int) - run_start < skipped.len() ==> !spec_is_digit(
                    skipped[(j as int) - run_start],
                )) by {
                    if j < n {
                        assert(skipped[(j as int) - run_start] == value@[j as int]);
                    }
                }
                lemma_run_len_at(skipped, (j as int) - run_start);
                let run = value@.subrange(run_start, run_start + run_len(skipped));
                assert(run =~= value@.subrange(i as int, j as int));
                assert forall|k: int| 0 <= k < run.len() implies spec_is_digit(run[k]) by {
                    assert(run[k] == value@[run_start + k]);
                }
                lemma_digits_val_nonneg(run);
            }
            if over {
                return Some(0);
            }
            return Some(acc);
        }
        let c = value.get_char(j);
        let dv: u64 = (c as u32 as u64) - 0x30;
        proof {
            let run = value@.subrange(i as int, j + 1);
            assert(run.take(j - i) =~= value@.subrange(i as int, j as int));
            assert(run.take(j + 1 - i) =~= run);
            lemma_digits_val_step(run, j - i);
            assert(run[j - i] == c);
        }
        if over {
            proof {
                lemma_digits_val_still_over(value@, i as int, j as int);
            }
        } else {
            let next = match acc.checked_mul(10) {
                Some(x) => x.checked_add(dv),
                None => None,
            };
            match next {
                Some(v) if v <= 0x7fff_ffff_ffff_ffff => {
                    acc = v;
                },
                _ => {
                    over = true;
                },
            }
        }
        j = j + 1;
    }
}

/// A digit run whose value already overflows still overflows with one
/// more digit.
proof fn lemma_digits_val_still_over(s: Seq<char>, i: int, j: int)
    requires
        0 <= i <= j < s.len(),
        forall|k: int| i <= k <= j ==> spec_is_digit(s[k]),
        digits_val(s.subrange(i, j)) > i64::MAX,
    ensures
        digits_val(s.subrange(i, j + 1)) > i64::MAX,
{
    let run = s.subrange(i, j + 1);
    assert(run.take(j - i) =~= s.subrange(i, j));
    assert(run.take(j + 1 - i) =~= run);
    lemma_digits_val_step(run, j - i);
    assert(char_digit(run[j - i]) >= 0);
}

/// The shape of a rendered timestamp, `year-month-day hour:minute:second`:
/// at least nineteen characters, the year zero-padded to four or more
/// digits (a sign ahead of it for years outside the four-digit range), and
/// two digits for each other field, with fixed separators between them.
pub open spec fn spec_timestamp_shape(s: Seq<char>) -> bool {
    let n = s.len() as int;
    &&& n >= 19
    &&& s[n - 15] == '-' && s[n - 12] == '-' && s[n - 9] == ' ' && s[n - 6] == ':' && s[n - 3]
        == ':'
    &&& spec_is_digit(s[n - 14]) && spec_is_digit(s[n - 13]) && spec_is_digit(s[n - 11])
        && spec_is_digit(s[n - 10])
    &&& spec_is_digit(s[n - 8]) && spec_is_digit(s[n - 7]) && spec_is_digit(s[n - 5])
        && spec_is_digit(s[n - 4])
    &&& spec_is_digit(s[n - 2]) && spec_is_digit(s[n - 1])
    &&& forall|k: int| 1 <= k < n - 15 ==> spec_is_digit(s[k])
    &&& (spec_is_digit(s[0]) || s[0] == '-' || s[0] == '+')
}

/// Relies on chrono (`TimeDelta::try_days`, `Utc::now`,
/// `DateTime::checked_sub_signed`, `DateTime::format`): the moment `n`
/// days before now, rendered as `year-month-day hour:minute:second`, or
/// `None` when the shifted moment falls outside the range chrono
/// supports. Every rendered moment has the fixed shape above (the year
/// zero-padded to four digits, every other field to two, and the fixed
/// format string cannot fail), and subtracting zero days from now never
/// leaves the supported range. The moment itself depends on the clock, so
/// nothing more is promised of it; like the original call, `Utc::now`
/// panics when the system clock is set before the Unix epoch.
#[verifier::external_body]
fn days_ago_timestamp(n: u64) -> (r: Option<String>)
    requires
        n as int <= i64::MAX,
    ensures
        r matches Some(t) ==> spec_timestamp_shape(t@),
        n == 0 ==> r is Some,
{
    match chrono::TimeDelta::try_days(n as i64) {
        None => None,
        Some(d) => match chrono::Utc::now().checked_sub_signed(d) {
            None => None,
            Some(t) => Some(t.format("%Y-%m-%d %H:%M:%S").to_string()),
        },
    }
}

/// The `$AGE_TO_DATE` transformation: reads the cell's first digit run as
/// an age in days and replaces the cell with the timestamp that many days
/// before now; a cell without digits stays as it is, and an overflowing
/// run counts as zero days. A cell with digits always becomes a
/// timestamp-shaped value.
pub fn parse_age_to_date(value: &str) -> (r: String)
    ensures
        spec_days_of(value@) is None ==> r@ == value@,
        spec_days_of(value@) is Some ==> spec_timestamp_shape(r@),
{
    match extract_days(value) {
        None => String::from_str(value),
        Some(n) => match days_ago_timestamp(n) {
            Some(t) => t,
            None => match days_ago_timestamp(0) {
                Some(t) => t,
                None => {
                    proof {
                        assert(false);
                    }
                    String::new()
                },
            },
        },
    }
}

/// Extracting the day count reads the first digit run alone: digits
/// followed by any non-digit trailer (letters, spaces) give the same count
/// as the digits by themselves.
pub proof fn lemma_age_ignores_trailer(u: Seq<char>, v: Seq<char>)
    requires
        u.len() >= 1,
        forall|k: int| 0 <= k < u.len() ==> spec_is_digit(u[k]),
        v.len() > 0 ==> !spec_is_digit(v[0]),
    ensures
        spec_days_of(u + v) == spec_days_of(u),
{
    let s = u + v;
    assert(spec_is_digit(s[0]));
    assert(first_digit_idx(s) == 0);
    assert(first_digit_idx(u) == 0);
    assert(s.skip(0) =~= s);
    assert(u.skip(0) =~= u);
    assert forall|k: int| 0 <= k < u.len() implies spec_is_digit(s[k]) by {
        assert(s[k] == u[k]);
    }
    assert(u.len() < s.len() ==> !spec_is_digit(s[u.len() as int]));
    lemma_run_len_at(s, u.len() as int);
    lemma_run_len_at(u, u.len() as int);
    assert(s.subrange(0, u.len() as int) =~= u);
    assert(u.subrange(0, u.len() as int) =~= u);
}

/// The name of the lowercase transformation.
pub open spec fn op_to_lower() -> Seq<char> {
    "$TO_LOWER"@
}

/// The name of the age-to-date transformation.
pub open spec fn op_age_to_date() -> Seq<char> {
    "$AGE_TO_DATE"@
}

/// How one operation relates a cell before and after: `$TO_LOWER` folds
/// the case, `$AGE_TO_DATE` keeps a cell without digits and turns one
/// with digits into a timestamp-shaped value, and an unknown name changes
/// nothing.
pub open spec fn op_relate(op: Seq<char>, a: Seq<char>, b: Seq<char>) -> bool {
    if op == op_to_lower() {
        b == lower_fold(a)
    } else if op == op_age_to_date() {
        if spec_days_of(a) is None {
            b == a
        } else {
            spec_timestamp_shape(b)
        }
    } else {
        b == a
    }
}

/// How a list of operations relates a cell before and after: each applies
/// in order to the previous result, the last operation last.
pub open spec fn ops_relate(ops: Seq<Seq<char>>, a: Seq<char>, b: Seq<char>) -> bool
    decreases ops.len(),
{
    if ops.len() == 0 {
        b == a
    } else {
        exists|mid: Seq<char>| ops_relate(ops.drop_last(), a, mid) && op_relate(ops.last(), mid, b)
    }
}

/// Applies one named operation to a cell value. An unknown name leaves
/// the value as it is; that is a defined leniency, not an error.
pub fn apply_op(op: &str, value: &String) -> (r: String)
    ensures
        op_relate(op@, value@, r@),
{
    proof {
        reveal_strlit("$TO_LOWER");
        reveal_strlit("$AGE_TO_DATE");
        assert(op_to_lower().len() != op_age_to_date().len());
    }
    if str_eq(op, "$AGE_TO_DATE") {
        parse_age_to_date(value.as_str())
    } else if str_eq(op, "$TO_LOWER") {
        to_lower(value.as_str())
    } else {
        value.clone()
    }
}

/// Applies the transform spec to a row, in place. Each entry's operation
/// list applies left to right to its column's cell; entries address
/// distinct columns, so their order among one another has no effect.
/// Columns the row does not reach are skipped.
pub fn apply_transformers(row: &mut Vec<String>, transforms: &ColSpec)
    requires
        transforms.wf(),
    ensures
        final(row)@.len() == old(row)@.len(),
        forall|c: int|
            0 <= c < old(row)@.len() && !transforms.has_col(c) ==> final(row)@[c] == old(row)@[c],
        forall|e: int|
            0 <= e < transforms.entries_view().len()
                && transforms.entries_view()[e].0 < old(row)@.len() ==> ops_relate(
                transforms.entries_view()[e].1,
                old(row)@[transforms.entries_view()[e].0 as int]@,
                final(row)@[transforms.entries_view()[e].0 as int]@,
            ),
{
    let mut e: usize = 0;
    loop
        invariant
            e <= transforms.entries.len(),
            transforms.wf(),
            row@.len() == old(row)@.len(),
            forall|c: int|
                0 <= c < old(row)@.len() && !(exists|k: int|
                    0 <= k < e && transforms.entries_view()[k].0 == c) ==> row@[c] == old(
                    row,
                )@[c],
            forall|k: int|
                0 <= k < e && transforms.entries_view()[k].0 < old(row)@.len() ==> ops_relate(
                    transforms.entries_view()[k].1,
                    old(row)@[transforms.entries_view()[k].0 as int]@,
                    row@[transforms.entries_view()[k].0 as int]@,
                ),
        decreases transforms.entries.len() - e,
    {
        if e >= transforms.entries.len() {
            proof {
                assert forall|c: int|
                    0 <= c < old(row)@.len() && !transforms.has_col(c) implies row@[c] == old(
                    row,
                )@[c] by {}
            }
            return ;
        }
        let col = transforms.entries[e].0;
        proof {
            assert(transforms.entries_view()[e as int].0 == col);
            assert forall|k: int| 0 <= k < e implies transforms.entries_view()[k].0 != col by {
                assert(transforms.entries_view()[k].0 != transforms.entries_view()[e as int].0);
            }
        }
        if col < row.len() {
            proof {
                assert(!(exists|k: int| 0 <= k < e && transforms.entries_view()[k].0 == col));
                assert(row@[col as int] == old(row)@[col as int]);
            }
            let ops = &transforms.entries[e].1;
            let mut cur: String = row[col].clone();
            let mut t: usize = 0;
            proof {
                assert(ops.deep_view().take(0) =~= Seq::<Seq<char>>::empty());
            }
            while t < ops.len()
                invariant
                    t <= ops.len(),
                    ops.deep_view() == transforms.entries_view()[e as int].1,
                    e < transforms.entries.len(),
                    ops_relate(
                        ops.deep_view().take(t as int),
                        old(row)@[transforms.entries_view()[e as int].0 as int]@,
                        cur@,
                    ),
                decreases ops.len() - t,
            {
                let stepped = apply_op(ops[t].as_str(), &cur);
                proof {
                    let orig = old(row)@[transforms.entries_view()[e as int].0 as int]@;
                    let done = ops.deep_view().take(t + 1);
                    assert(ops.deep_view()[t as int] == ops@[t as int]@);
                    assert(done.drop_last() =~= ops.deep_view().take(t as int));
                    assert(done.last() == ops.deep_view()[t as int]);
                    assert(ops_relate(done.drop_last(), orig, cur@) && op_relate(
                        done.last(),
                        cur@,
                        stepped@,
                    ));
                    assert(ops_relate(done, orig, stepped@));
                }
                cur = stepped;
                t = t + 1;
            }
            proof {
                assert(ops.deep_view().take(ops.len() as int) =~= ops.deep_view());
            }
            let ghost before = row@;
            row.set(col, cur);
            proof {
                assert(row@ == before.update(col as int, cur));
                assert(row@[col as int] == cur);
                assert forall|k: int|
                    0 <= k < e + 1 && transforms.entries_view()[k].0 < old(row)@.len()
                        implies ops_relate(
                        transforms.entries_view()[k].1,
                        old(row)@[transforms.entries_view()[k].0 as int]@,
                        row@[transforms.entries_view()[k].0 as int]@,
                    ) by {
                    if k < e {
                        assert(transforms.entries_view()[k].0 != col);
                        assert(row@[transforms.entries_view()[k].0 as int]
                            == before[transforms.entries_view()[k].0 as int]);
                    } else {
                        assert(transforms.entries_view()[k].0 == col);
                    }
                }
            }
        }
        e = e + 1;
    }
}

} // verus!
