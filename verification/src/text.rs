//! Verified text utilities: character classes, whitespace trimming,
//! substring splitting, substring containment, codepoint-order comparison,
//! and decimal digit runs. All operate on `&str` values whose views are
//! sequences of characters.

use vstd::prelude::*;

verus! {

/// The Unicode white-space characters, as one explicit list.
pub open spec fn spec_is_space(c: char) -> bool {
    let u = c as u32;
    u == 0x09 || u == 0x0A || u == 0x0B || u == 0x0C || u == 0x0D || u == 0x20 || u == 0x85
        || u == 0xA0 || u == 0x1680 || (0x2000 <= u && u <= 0x200A) || u == 0x2028 || u == 0x2029
        || u == 0x202F || u == 0x205F || u == 0x3000
}

/// Whether `c` is a white-space character.
pub fn is_space(c: char) -> (r: bool)
    ensures
        r == spec_is_space(c),
{
    let u = c as u32;
    u == 0x09 || u == 0x0A || u == 0x0B || u == 0x0C || u == 0x0D || u == 0x20 || u == 0x85
        || u == 0xA0 || u == 0x1680 || (0x2000 <= u && u <= 0x200A) || u == 0x2028 || u == 0x2029
        || u == 0x202F || u == 0x205F || u == 0x3000
}

/// The decimal digits.
pub open spec fn spec_is_digit(c: char) -> bool {
    0x30 <= c as u32 && c as u32 <= 0x39
}

/// Whether `c` is a decimal digit.
pub fn is_digit(c: char) -> (r: bool)
    ensures
        r == spec_is_digit(c),
{
    let u = c as u32;
    0x30 <= u && u <= 0x39
}

/// The numeric value of a digit character.
pub open spec fn char_digit(c: char) -> int {
    c as u32 - 0x30
}

/// The number a sequence of digit characters denotes, most significant first.
pub open spec fn digits_val(s: Seq<char>) -> int
    decreases s.len(),
{
    if s.len() == 0 {
        0
    } else {
        digits_val(s.drop_last()) * 10 + char_digit(s.last())
    }
}

/// A sequence of digits denotes a non-negative number.
pub proof fn lemma_digits_val_nonneg(s: Seq<char>)
    requires
        forall|k: int| 0 <= k < s.len() ==> spec_is_digit(s[k]),
    ensures
        digits_val(s) >= 0,
    decreases s.len(),
{
    if s.len() > 0 {
        lemma_digits_val_nonneg(s.drop_last());
    }
}

/// Extending a digit prefix by one digit multiplies its value by ten and
/// adds the digit.
pub proof fn lemma_digits_val_step(s: Seq<char>, k: int)
    requires
        0 <= k < s.len(),
    ensures
        digits_val(s.take(k + 1)) == digits_val(s.take(k)) * 10 + char_digit(s[k]),
{
    assert(s.take(k + 1).drop_last() =~= s.take(k));
    assert(s.take(k + 1).last() == s[k]);
}

/// A longer digit prefix never denotes a smaller number.
pub proof fn lemma_digits_val_mono(s: Seq<char>, i: int, j: int)
    requires
        forall|k: int| 0 <= k < s.len() ==> spec_is_digit(s[k]),
        0 <= i <= j <= s.len(),
    ensures
        digits_val(s.take(i)) <= digits_val(s.take(j)),
    decreases j - i,
{
    if i < j {
        lemma_digits_val_mono(s, i, j - 1);
        lemma_digits_val_step(s, j - 1);
        let p = s.take(j - 1);
        assert forall|k: int| 0 <= k < p.len() implies spec_is_digit(p[k]) by {
            assert(p[k] == s[k]);
        }
        lemma_digits_val_nonneg(p);
    }
}

/// `s` without its leading white space.
pub open spec fn trim_left(s: Seq<char>) -> Seq<char>
    decreases s.len(),
{
    if s.len() == 0 {
        s
    } else if spec_is_space(s[0]) {
        trim_left(s.drop_first())
    } else {
        s
    }
}

/// `s` without its trailing white space.
pub open spec fn trim_right(s: Seq<char>) -> Seq<char>
    decreases s.len(),
{
    if s.len() == 0 {
        s
    } else if spec_is_space(s.last()) {
        trim_right(s.drop_last())
    } else {
        s
    }
}

/// `s` without leading and trailing white space.
pub open spec fn spec_trim(s: Seq<char>) -> Seq<char> {
    trim_right(trim_left(s))
}

proof fn lemma_trim_left_at(s: Seq<char>, i: int)
    requires
        0 <= i <= s.len(),
        forall|k: int| 0 <= k < i ==> spec_is_space(s[k]),
        i < s.len() ==> !spec_is_space(s[i]),
    ensures
        trim_left(s) =~= s.subrange(i, s.len() as int),
    decreases i,
{
    if i == 0 {
        if s.len() > 0 {
            assert(trim_left(s) =~= s.subrange(0, s.len() as int));
        }
    } else {
        let t = s.drop_first();
        assert(forall|k: int| 0 <= k < i - 1 ==> spec_is_space(t[k]));
        lemma_trim_left_at(t, i - 1);
        assert(t.subrange(i - 1, t.len() as int) =~= s.subrange(i, s.len() as int));
    }
}

proof fn lemma_trim_right_at(s: Seq<char>, j: int)
    requires
        0 <= j <= s.len(),
        forall|k: int| j <= k < s.len() ==> spec_is_space(s[k]),
        j > 0 ==> !spec_is_space(s[j - 1]),
    ensures
        trim_right(s) =~= s.subrange(0, j),
    decreases s.len() - j,
{
    if j == s.len() {
        if s.len() > 0 {
            assert(trim_right(s) =~= s.subrange(0, j));
        }
    } else {
        let t = s.drop_last();
        assert(spec_is_space(s.last()));
        assert(forall|k: int| j <= k < t.len() ==> spec_is_space(t[k]));
        lemma_trim_right_at(t, j);
        assert(t.subrange(0, j) =~= s.subrange(0, j));
    }
}

/// The first index of `s` that holds no white space (its length when all of
/// `s` is white space).
fn first_non_space(s: &str) -> (i: usize)
    ensures
        0 <= i <= s@.len(),
        forall|k: int| 0 <= k < i ==> spec_is_space(s@[k]),
        i < s@.len() ==> !spec_is_space(s@[i as int]),
{
    let n = s.unicode_len();
    let mut i: usize = 0;
    loop
        invariant
            i <= n,
            n == s@.len(),
            forall|k: int| 0 <= k < i ==> spec_is_space(s@[k]),
        decreases n - i,
    {
        if i >= n {
            return i;
        }
        if !is_space(s.get_char(i)) {
            return i;
        }
        i = i + 1;
    }
}

/// One past the last index of `s` at or after `lo` that holds no white
/// space (`lo` when everything from `lo` on is white space).
fn last_non_space_after(s: &str, lo: usize) -> (j: usize)
    requires
        lo <= s@.len(),
    ensures
        lo <= j <= s@.len(),
        forall|k: int| j <= k < s@.len() ==> spec_is_space(s@[k]),
        j > lo ==> !spec_is_space(s@[j - 1]),
    decreases s@.len(),
{
    let n = s.unicode_len();
    let mut j: usize = n;
    loop
        invariant
            lo <= j <= n,
            n == s@.len(),
            forall|k: int| j <= k < n ==> spec_is_space(s@[k]),
        decreases j,
    {
        if j <= lo {
            return j;
        }
        if !is_space(s.get_char(j - 1)) {
            return j;
        }
        j = j - 1;
    }
}

/// Whether `pat` occurs in `s` starting at index `q`.
pub open spec fn occurs_at(s: Seq<char>, pat: Seq<char>, q: int) -> bool {
    0 <= q && q + pat.len() <= s.len() && s.subrange(q, q + pat.len()) == pat
}

/// Whether `pat` occurs anywhere in `s`.
pub open spec fn spec_contains(s: Seq<char>, pat: Seq<char>) -> bool {
    exists|q: int| occurs_at(s, pat, q)
}

/// The pieces of `s` between occurrences of `sep`, leftmost occurrence
/// first. An empty separator splits between every pair of neighbouring
/// characters, with an empty piece at each end.
pub open spec fn spec_split(s: Seq<char>, sep: Seq<char>) -> Seq<Seq<char>>
    decreases s.len(),
{
    if sep.len() == 0 {
        seq![Seq::<char>::empty()] + Seq::new(s.len(), |i: int| seq![s[i]]) + seq![
            Seq::<char>::empty(),
        ]
    } else if s.len() < sep.len() {
        seq![s]
    } else if s.subrange(0, sep.len() as int) == sep {
        seq![Seq::<char>::empty()] + spec_split(s.subrange(sep.len() as int, s.len() as int), sep)
    } else {
        let r = spec_split(s.drop_first(), sep);
        seq![seq![s[0]] + r[0]] + r.drop_first()
    }
}

/// When the first occurrence of `sep` in `s` stands at `p`, the split is the
/// prefix before `p` followed by the split of what stands after the
/// occurrence.
proof fn lemma_split_at_first(s: Seq<char>, sep: Seq<char>, p: int)
    requires
        sep.len() >= 1,
        0 <= p,
        p + sep.len() <= s.len(),
        forall|q: int| 0 <= q < p ==> !occurs_at(s, sep, q),
        occurs_at(s, sep, p),
    ensures
        spec_split(s, sep) == seq![s.subrange(0, p)] + spec_split(
            s.subrange(p + sep.len(), s.len() as int),
            sep,
        ),
    decreases p,
{
    if p == 0 {
        assert(s.subrange(0, sep.len() as int) == sep);
        assert(s.subrange(0, 0) =~= Seq::<char>::empty());
        assert(seq![Seq::<char>::empty()] =~= seq![s.subrange(0, 0)]);
    } else {
        let t = s.drop_first();
        assert(s.subrange(0, sep.len() as int) != sep) by {
            assert(!occurs_at(s, sep, 0));
        }
        assert forall|q: int| 0 <= q < p - 1 implies !occurs_at(t, sep, q) by {
            assert(!occurs_at(s, sep, q + 1));
            if 0 <= q && q + sep.len() <= t.len() {
                assert(t.subrange(q, q + sep.len()) =~= s.subrange(q + 1, q + 1 + sep.len()));
            }
        }
        assert(occurs_at(t, sep, p - 1)) by {
            assert(t.subrange(p - 1, p - 1 + sep.len()) =~= s.subrange(p, p + sep.len()));
        }
        lemma_split_at_first(t, sep, p - 1);
        let r = spec_split(t, sep);
        let rest = spec_split(t.subrange(p - 1 + sep.len(), t.len() as int), sep);
        assert(r == seq![t.subrange(0, p - 1)] + rest);
        assert(r[0] == t.subrange(0, p - 1));
        assert(r.drop_first() =~= rest);
        assert(seq![s[0]] + t.subrange(0, p - 1) =~= s.subrange(0, p));
        assert(t.subrange(p - 1 + sep.len(), t.len() as int) =~= s.subrange(
            p + sep.len(),
            s.len() as int,
        ));
        assert(spec_split(s, sep) =~= seq![s.subrange(0, p)] + spec_split(
            s.subrange(p + sep.len(), s.len() as int),
            sep,
        ));
    }
}

/// When `sep` occurs nowhere in `s`, the split is `s` alone.
proof fn lemma_split_none(s: Seq<char>, sep: Seq<char>)
    requires
        sep.len() >= 1,
        forall|q: int| !occurs_at(s, sep, q),
    ensures
        spec_split(s, sep) == seq![s],
    decreases s.len(),
{
    if s.len() < sep.len() {
    } else {
        assert(!occurs_at(s, sep, 0));
        assert(s.subrange(0, sep.len() as int) != sep);
        let t = s.drop_first();
        assert forall|q: int| !occurs_at(t, sep, q) by {
            if 0 <= q && q + sep.len() <= t.len() {
                assert(t.subrange(q, q + sep.len()) =~= s.subrange(q + 1, q + 1 + sep.len()));
                assert(!occurs_at(s, sep, q + 1));
            }
        }
        lemma_split_none(t, sep);
        let r = spec_split(t, sep);
        assert(r[0] == t);
        assert(seq![s[0]] + t =~= s);
        assert(r.drop_first() =~= Seq::<Seq<char>>::empty());
        assert(spec_split(s, sep) =~= seq![s]);
    }
}

/// Whether `pat` stands in `s` at index `p`, decided by comparing the
/// characters.
fn matches_at(s: &str, pat: &str, p: usize) -> (b: bool)
    requires
        p + pat@.len() <= s@.len(),
    ensures
        b == occurs_at(s@, pat@, p as int),
{
    let m = pat.unicode_len();
    let n = s.unicode_len();
    let mut k: usize = 0;
    loop
        invariant
            k <= m,
            m == pat@.len(),
            n == s@.len(),
            p + m <= n,
            forall|t: int| 0 <= t < k ==> s@[p + t] == pat@[t],
        decreases m - k,
    {
        if k >= m {
            proof {
                assert(s@.subrange(p as int, p + pat@.len()) =~= pat@);
            }
            return true;
        }
        if s.get_char(p + k) != pat.get_char(k) {
            proof {
                if occurs_at(s@, pat@, p as int) {
                    assert(s@.subrange(p as int, p + pat@.len())[k as int] == pat@[k as int]);
                }
            }
            return false;
        }
        k = k + 1;
    }
}

/// Whether `pat` occurs anywhere in `s` as a literal substring.
pub fn contains_sub(s: &str, pat: &str) -> (b: bool)
    ensures
        b == spec_contains(s@, pat@),
{
    let n = s.unicode_len();
    let m = pat.unicode_len();
    if m > n {
        proof {
            assert(forall|q: int| !occurs_at(s@, pat@, q));
        }
        return false;
    }
    if m == 0 {
        proof {
            assert(s@.subrange(0, 0) =~= pat@);
            assert(occurs_at(s@, pat@, 0));
        }
        return true;
    }
    let mut q: usize = 0;
    loop
        invariant
            q <= n,
            n == s@.len(),
            m == pat@.len(),
            1 <= m <= n,
            forall|t: int| 0 <= t < q ==> !occurs_at(s@, pat@, t),
        decreases n - q,
    {
        if n - q < m {
            proof {
                assert(forall|t: int| !occurs_at(s@, pat@, t));
            }
            return false;
        }
        if matches_at(s, pat, q) {
            return true;
        }
        q = q + 1;
    }
}

/// Splits `s` on occurrences of `sep`, leftmost first.
pub fn split_str(s: &str, sep: &str) -> (r: Vec<String>)
    ensures
        r.deep_view() == spec_split(s@, sep@),
{
    let n = s.unicode_len();
    let m = sep.unicode_len();
    let mut r: Vec<String> = Vec::new();
    if m == 0 {
        r.push(String::new());
        let mut i: usize = 0;
        while i < n
            invariant
                i <= n,
                n == s@.len(),
                r.deep_view() =~= seq![Seq::<char>::empty()] + Seq::new(
                    i as nat,
                    |t: int| seq![s@[t]],
                ),
            decreases n - i,
        {
            let piece = String::from_str(s.substring_char(i, i + 1));
            proof {
                assert(piece@ =~= seq![s@[i as int]]);
            }
            let ghost prev = r.deep_view();
            r.push(piece);
            proof {
                assert(r.deep_view() =~= prev.push(piece@));
                assert(r.deep_view() =~= seq![Seq::<char>::empty()] + Seq::new(
                    (i + 1) as nat,
                    |t: int| seq![s@[t]],
                ));
            }
            i = i + 1;
        }
        let ghost prev = r.deep_view();
        r.push(String::new());
        proof {
            assert(r.deep_view() =~= prev.push(Seq::<char>::empty()));
            assert(r.deep_view() =~= spec_split(s@, sep@));
        }
        return r;
    }
    let mut st: usize = 0;
    let mut p: usize = 0;
    proof {
        assert(s@.subrange(0, n as int) =~= s@);
        assert(r.deep_view() =~= Seq::<Seq<char>>::empty());
        assert(Seq::<Seq<char>>::empty() + spec_split(s@, sep@) =~= spec_split(s@, sep@));
    }
    loop
        invariant
            st <= p <= n,
            n == s@.len(),
            m == sep@.len(),
            m >= 1,
            spec_split(s@, sep@) == r.deep_view() + spec_split(
                s@.subrange(st as int, n as int),
                sep@,
            ),
            forall|q: int| st <= q < p ==> !occurs_at(s@, sep@, q),
        decreases n - p,
    {
        if n - p < m {
            let piece = String::from_str(s.substring_char(st, n));
            proof {
                let suffix = s@.subrange(st as int, n as int);
                assert forall|q: int| !occurs_at(suffix, sep@, q) by {
                    if 0 <= q && q + sep@.len() <= suffix.len() {
                        assert(suffix.subrange(q, q + sep@.len()) =~= s@.subrange(
                            st + q,
                            st + q + sep@.len(),
                        ));
                        assert(!occurs_at(s@, sep@, st + q));
                    }
                }
                lemma_split_none(suffix, sep@);
                assert((r.deep_view() + spec_split(suffix, sep@)) =~= r.deep_view().push(suffix));
            }
            let ghost old_r = r.deep_view();
            r.push(piece);
            proof {
                assert(r.deep_view() =~= old_r.push(s@.subrange(st as int, n as int)));
            }
            return r;
        }
        if matches_at(s, sep, p) {
            let piece = String::from_str(s.substring_char(st, p));
            proof {
                let suffix = s@.subrange(st as int, n as int);
                assert forall|q: int| 0 <= q < p - st implies !occurs_at(suffix, sep@, q) by {
                    if q + sep@.len() <= suffix.len() {
                        assert(suffix.subrange(q, q + sep@.len()) =~= s@.subrange(
                            st + q,
                            st + q + sep@.len(),
                        ));
                        assert(!occurs_at(s@, sep@, st + q));
                    }
                }
                assert(occurs_at(suffix, sep@, p - st)) by {
                    assert(suffix.subrange(p - st, p - st + sep@.len()) =~= s@.subrange(
                        p as int,
                        p + sep@.len(),
                    ));
                }
                lemma_split_at_first(suffix, sep@, p - st);
                assert(suffix.subrange(0, p - st) =~= s@.subrange(st as int, p as int));
                assert(suffix.subrange(p - st + sep@.len(), suffix.len() as int) =~= s@.subrange(
                    p + m,
                    n as int,
                ));
            }
            let ghost old_r = r.deep_view();
            r.push(piece);
            proof {
                assert(r.deep_view() =~= old_r.push(s@.subrange(st as int, p as int)));
                assert(r.deep_view() + spec_split(s@.subrange(p + m, n as int), sep@) =~= (old_r
                    + (seq![s@.subrange(st as int, p as int)] + spec_split(
                    s@.subrange(p + m, n as int),
                    sep@,
                ))));
            }
            st = p + m;
            p = p + m;
        } else {
            p = p + 1;
        }
    }
}

/// Strict lexicographic order on character sequences, by codepoint.
pub open spec fn lex_lt(a: Seq<char>, b: Seq<char>) -> bool
    decreases a.len(),
{
    if b.len() == 0 {
        false
    } else if a.len() == 0 {
        true
    } else if a[0] != b[0] {
        (a[0] as u32) < (b[0] as u32)
    } else {
        lex_lt(a.drop_first(), b.drop_first())
    }
}

/// The codepoint order never puts a sequence before itself.
pub proof fn lemma_lex_irrefl(a: Seq<char>)
    ensures
        !lex_lt(a, a),
    decreases a.len(),
{
    if a.len() > 0 {
        lemma_lex_irrefl(a.drop_first());
    }
}

/// Any two sequences are ordered one way, the other way, or equal.
pub proof fn lemma_lex_total(a: Seq<char>, b: Seq<char>)
    ensures
        lex_lt(a, b) || lex_lt(b, a) || a == b,
    decreases a.len(),
{
    if b.len() == 0 && a.len() == 0 {
        assert(a =~= b);
    } else if b.len() == 0 || a.len() == 0 {
    } else if a[0] != b[0] {
        assert((a[0] as u32) != (b[0] as u32)) by {
            vstd::utf8::char_u32_cast(a[0], a[0] as u32);
            vstd::utf8::char_u32_cast(b[0], b[0] as u32);
        }
    } else {
        lemma_lex_total(a.drop_first(), b.drop_first());
        if !lex_lt(a, b) && !lex_lt(b, a) {
            assert(a.drop_first() == b.drop_first());
            assert forall|k: int| 0 <= k < a.len() implies a[k] == b[k] by {
                if k > 0 {
                    assert(a.drop_first()[k - 1] == b.drop_first()[k - 1]);
                }
            }
            assert(a =~= b);
        }
    }
}

/// The codepoint order is transitive.
pub proof fn lemma_lex_trans(a: Seq<char>, b: Seq<char>, c: Seq<char>)
    requires
        lex_lt(a, b),
        lex_lt(b, c),
    ensures
        lex_lt(a, c),
    decreases a.len() + b.len() + c.len(),
{
    if c.len() == 0 {
        assert(false);
    } else if a.len() == 0 {
    } else {
        if b.len() == 0 {
            assert(false);
        } else {
            if a[0] == b[0] && b[0] == c[0] {
                lemma_lex_trans(a.drop_first(), b.drop_first(), c.drop_first());
            } else if a[0] == b[0] {
                assert((b[0] as u32) < (c[0] as u32));
            } else if b[0] == c[0] {
                assert((a[0] as u32) < (b[0] as u32));
            } else {
                assert((a[0] as u32) < (b[0] as u32) && (b[0] as u32) < (c[0] as u32));
                assert((a[0] as u32) != (c[0] as u32));
                assert(a[0] != c[0]);
            }
        }
    }
}

proof fn lemma_lex_skip(a: Seq<char>, b: Seq<char>, i: int)
    requires
        0 <= i <= a.len(),
        i <= b.len(),
        forall|k: int| 0 <= k < i ==> a[k] == b[k],
    ensures
        lex_lt(a, b) == lex_lt(a.skip(i), b.skip(i)),
    decreases i,
{
    if i > 0 {
        assert(lex_lt(a, b) == lex_lt(a.drop_first(), b.drop_first()));
        assert(forall|k: int| 0 <= k < i - 1 ==> a.drop_first()[k] == b.drop_first()[k]);
        lemma_lex_skip(a.drop_first(), b.drop_first(), i - 1);
        assert(a.drop_first().skip(i - 1) =~= a.skip(i));
        assert(b.drop_first().skip(i - 1) =~= b.skip(i));
    } else {
        assert(a.skip(0) =~= a);
        assert(b.skip(0) =~= b);
    }
}

/// Decides the strict codepoint order on two strings.
pub fn str_lt(a: &str, b: &str) -> (r: bool)
    ensures
        r == lex_lt(a@, b@),
{
    let na = a.unicode_len();
    let nb = b.unicode_len();
    let mut i: usize = 0;
    loop
        invariant
            i <= na,
            i <= nb,
            na == a@.len(),
            nb == b@.len(),
            forall|k: int| 0 <= k < i ==> a@[k] == b@[k],
        decreases na - i,
    {
        proof {
            lemma_lex_skip(a@, b@, i as int);
        }
        if i >= nb {
            return false;
        }
        if i >= na {
            return true;
        }
        let ca = a.get_char(i);
        let cb = b.get_char(i);
        if ca != cb {
            proof {
                assert(a@.skip(i as int)[0] == a@[i as int]);
                assert(b@.skip(i as int)[0] == b@[i as int]);
            }
            return (ca as u32) < (cb as u32);
        }
        i = i + 1;
    }
}

/// Decides whether two strings hold the same characters.
pub fn str_eq(a: &str, b: &str) -> (r: bool)
    ensures
        r == (a@ == b@),
{
    let na = a.unicode_len();
    let nb = b.unicode_len();
    if na != nb {
        return false;
    }
    let mut i: usize = 0;
    loop
        invariant
            i <= na,
            na == a@.len(),
            na == b@.len(),
            forall|k: int| 0 <= k < i ==> a@[k] == b@[k],
        decreases na - i,
    {
        if i >= na {
            proof {
                assert(a@ =~= b@);
            }
            return true;
        }
        if a.get_char(i) != b.get_char(i) {
            return false;
        }
        i = i + 1;
    }
}

/// `s` with surrounding white space removed.
pub fn trim_str(s: &str) -> (r: String)
    ensures
        r@ == spec_trim(s@),
{
    let i = first_non_space(s);
    let j = last_non_space_after(s, i);
    proof {
        lemma_trim_left_at(s@, i as int);
        let t = s@.subrange(i as int, s@.len() as int);
        assert(forall|k: int| j - i <= k < t.len() ==> spec_is_space(t[k]));
        assert(j > i ==> !spec_is_space(t[j - i - 1]));
        lemma_trim_right_at(t, j - i);
        assert(t.subrange(0, j - i) =~= s@.subrange(i as int, j as int));
    }
    String::from_str(s.substring_char(i, j))
}

} // verus!
