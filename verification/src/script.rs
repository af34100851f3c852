//! The script interpreter: a line-oriented command language over the
//! transform stack, the shape generators and the renderers. Numbers are
//! decimal literals read into milli-unit fixed point.
use vstd::prelude::*;

verus! {

use crate::canvas::{Canvas, PlotEvent, Rgb};
use crate::fx::sabs;
use crate::geom::{GeometryMatrix, MatMode, Point, pt_in_range};
use crate::raster::{GfxError, render_edges_with_stack, render_polygon_with_stack};
use crate::shapes::PARSE_LIM;
use crate::stack::{MStack, stack_wf};
use crate::geom::TransformMatrix;

/// What stops a script run; every error is fatal and carries the zero-based
/// line it was found on.
#[derive(Clone, PartialEq, Eq, Debug)]
pub enum ScriptError {
    /// A keyword no command matches.
    UnknownCommand { line: usize },
    /// A command needed a data line and the script ended first.
    MissingDataLine { line: usize },
    /// A field that is not a decimal literal the fixed-point range carries.
    BadNumber { line: usize },
    /// A data line with the wrong number of fields.
    WrongFieldCount { line: usize },
    /// A rotation about something other than x, y or z.
    UnknownAxis { line: usize },
    /// A transform or coordinate left the representable range.
    Overflow { line: usize },
}

/// What a render pass asked the surrounding program to do with the canvas:
/// persist it under a name, or show it; `upto` is how many plot events had
/// been recorded when the command ran.
pub enum OutputAction {
    /// Persist the canvas contents so far under the given file name.
    Save { name: Vec<char>, upto: usize },
    /// Show the canvas contents so far.
    Display { upto: usize },
}

/// A decimal digit.
pub open spec fn is_digit(c: char) -> bool {
    '0' <= c && c <= '9'
}

/// The value of a decimal digit.
pub open spec fn digit_val(c: char) -> int {
    c as int - 48
}

/// The value of a string of decimal digits.
pub open spec fn int_val(s: Seq<char>) -> int
    decreases s.len(),
{
    if s.len() == 0 {
        0
    } else {
        int_val(s.drop_last()) * 10 + digit_val(s.last())
    }
}

/// The digit at position i, or zero past the end.
pub open spec fn frac_digit(s: Seq<char>, i: int) -> int {
    if i < s.len() {
        digit_val(s[i])
    } else {
        0
    }
}

/// The milli-unit value of a fraction part: its first three digits; further
/// digits are truncated away.
pub open spec fn frac_milli(s: Seq<char>) -> int {
    100 * frac_digit(s, 0) + 10 * frac_digit(s, 1) + frac_digit(s, 2)
}

/// The literal with its sign stripped.
pub open spec fn body_of(s: Seq<char>) -> Seq<char> {
    if s.len() > 0 && s[0] == '-' {
        s.skip(1)
    } else {
        s
    }
}

/// Whether the literal is negated.
pub open spec fn neg_of(s: Seq<char>) -> bool {
    s.len() > 0 && s[0] == '-'
}

/// Whether k splits the unsigned body t into digits, an optional point at
/// k, and digits, with at least one digit in all.
pub open spec fn dotsplit_ok(t: Seq<char>, k: int) -> bool {
    &&& 0 <= k <= t.len()
    &&& (k == t.len() || t[k] == '.')
    &&& (forall|i: int| 0 <= i < k ==> is_digit(#[trigger] t[i]))
    &&& (forall|i: int| k < i < t.len() ==> is_digit(#[trigger] t[i]))
    &&& (k > 0 || k + 1 < t.len())
}

/// Whether a token is a decimal literal: an optional minus sign, digits,
/// and an optional point with fraction digits.
pub open spec fn valid_num(s: Seq<char>) -> bool {
    exists|k: int| #[trigger] dotsplit_ok(body_of(s), k)
}

/// The milli-unit value of a decimal literal, truncated after its third
/// fraction digit.
pub open spec fn num_milli_s(s: Seq<char>) -> int
    recommends
        valid_num(s),
{
    let t = body_of(s);
    let k = choose|k: int| dotsplit_ok(t, k);
    let frac = if k < t.len() {
        t.skip(k + 1)
    } else {
        Seq::empty()
    };
    let mag = int_val(t.take(k)) * 1000 + frac_milli(frac);
    if neg_of(s) {
        -mag
    } else {
        mag
    }
}

/// The split position of a literal body is unique.
proof fn lemma_dot_unique(t: Seq<char>, k1: int, k2: int)
    requires
        dotsplit_ok(t, k1),
        dotsplit_ok(t, k2),
    ensures
        k1 == k2,
{
    if k1 < k2 {
        assert(is_digit(t[k1]));
        assert(k1 < t.len());
        assert(t[k1] == '.');
        assert(false);
    }
    if k2 < k1 {
        assert(is_digit(t[k2]));
        assert(k2 < t.len());
        assert(t[k2] == '.');
        assert(false);
    }
}

/// Parse a decimal literal into milli-units. None exactly when the token is
/// not a literal or its value does not fit the fixed-point range.
#[verifier::rlimit(100)]
pub fn parse_fx(tok: &Vec<char>) -> (r: Option<i64>)
    ensures
        match r {
            Some(v) => {
                &&& valid_num(tok@)
                &&& v == num_milli_s(tok@)
                &&& sabs(v as int) <= PARSE_LIM as int
            },
            None => !valid_num(tok@) || sabs(num_milli_s(tok@)) > PARSE_LIM as int,
        },
{
    let n: usize = tok.len();
    let neg: bool = n > 0 && tok[0] == '-';
    let start: usize = if neg {
        1
    } else {
        0
    };
    let ghost t = body_of(tok@);
    proof {
        assert(t =~= tok@.skip(start as int));
    }
    if start >= n {
        proof {
            assert forall|k: int| !dotsplit_ok(t, k) by {
                if dotsplit_ok(t, k) {
                    assert(k > 0 || k + 1 < t.len());
                }
            }
        }
        return None;
    }
    let mut acc: i64 = 0;
    let mut i: usize = start;
    while i < n && tok[i] != '.'
        invariant
            start <= i <= n,
            n == tok@.len(),
            start == if neg { 1int } else { 0int },
            t == body_of(tok@),
            t =~= tok@.skip(start as int),
            forall|j: int| 0 <= j < i - start ==> is_digit(#[trigger] t[j]),
            0 <= acc <= 10_000_000,
            (int_val(t.take(i - start)) <= 1_000_000 && acc == int_val(t.take(i - start)))
                || (int_val(t.take(i - start)) > 1_000_000 && acc > 1_000_000),
        decreases n - i,
    {
        let c: char = tok[i];
        if !(c >= '0' && c <= '9') {
            proof {
                let m = i - start;
                assert(t[m] == c && !is_digit(c) && c != '.');
                lemma_no_split_bad_char(t, m);
            }
            return None;
        }
        let d: i64 = ((c as u32) - 48) as i64;
        proof {
            let m = i - start;
            assert(t.take(m + 1).drop_last() =~= t.take(m));
            assert(t.take(m + 1).last() == t[m]);
            assert(int_val(t.take(m + 1)) == int_val(t.take(m)) * 10 + digit_val(t[m]));
        }
        let grown: i64 = acc * 10 + d;
        acc = if grown > 10_000_000 {
            10_000_000
        } else {
            grown
        };
        i = i + 1;
    }
    let ghost kb = i - start;
    let mut f0: i64 = 0;
    let mut f1: i64 = 0;
    let mut f2: i64 = 0;
    let dotted: bool = i < n;
    if dotted {
        let ghost f = t.skip(kb + 1);
        let mut j: usize = i + 1;
        while j < n
            invariant
                i + 1 <= j <= n,
                n == tok@.len(),
                start <= i < n,
                t == body_of(tok@),
                t =~= tok@.skip(start as int),
                kb == i - start,
                t[kb] == '.',
                forall|m2: int| 0 <= m2 < kb ==> is_digit(#[trigger] t[m2]),
                f == t.skip(kb + 1),
                forall|m: int| 0 <= m < j - i - 1 ==> is_digit(#[trigger] f[m]),
                j >= i + 2 ==> f0 == frac_digit(f, 0),
                j < i + 2 ==> f0 == 0,
                j >= i + 3 ==> f1 == frac_digit(f, 1),
                j < i + 3 ==> f1 == 0,
                j >= i + 4 ==> f2 == frac_digit(f, 2),
                j < i + 4 ==> f2 == 0,
                0 <= f0 <= 9 && 0 <= f1 <= 9 && 0 <= f2 <= 9,
            decreases n - j,
        {
            let c: char = tok[j];
            if !(c >= '0' && c <= '9') {
                proof {
                    let m = j - start;
                    assert(t[m] == c && !is_digit(c));
                    assert(t[kb] == '.');
                    lemma_no_split_bad_frac(t, kb, m);
                }
                return None;
            }
            let d: i64 = ((c as u32) - 48) as i64;
            if j == i + 1 {
                f0 = d;
            } else if j == i + 2 {
                f1 = d;
            } else if j == i + 3 {
                f2 = d;
            }
            j = j + 1;
        }
    }
    if !(i > start || (dotted && i + 1 < n)) {
        proof {
            assert(i == start && dotted && i + 1 >= n);
            assert(t.len() == 1 && t[0] == '.');
            lemma_no_split_lone_dot(t);
        }
        return None;
    }
    proof {
        let kk = if dotted {
            kb
        } else {
            t.len() as int
        };
        if dotted {
            let f = t.skip(kb + 1);
            assert forall|m: int| kk < m < t.len() implies is_digit(#[trigger] t[m]) by {
                assert(f[m - kb - 1] == t[m]);
            }
        }
        assert(dotsplit_ok(t, kk));
        let kc = choose|k: int| dotsplit_ok(t, k);
        lemma_dot_unique(t, kc, kk);
    }
    let fmilli: i64 = 100 * f0 + 10 * f1 + f2;
    if acc > 1_000_000 {
        proof {
            let kk = if dotted {
                kb
            } else {
                t.len() as int
            };
            assert(int_val(t.take(kk)) * 1000 >= 1_000_001 * 1000) by (nonlinear_arith)
                requires
                    int_val(t.take(kk)) > 1_000_000,
            ;
            assert(frac_milli(if kk < t.len() {
                t.skip(kk + 1)
            } else {
                Seq::empty()
            }) >= 0) by {
                lemma_frac_milli_nonneg(t, kk);
            }
        }
        return None;
    }
    let v: i64 = acc * 1000 + fmilli;
    if v > PARSE_LIM {
        return None;
    }
    if neg {
        Some(-v)
    } else {
        Some(v)
    }
}

/// A body holding a character that is neither a digit nor a point admits
/// no split.
proof fn lemma_no_split_bad_char(t: Seq<char>, m: int)
    requires
        0 <= m < t.len(),
        !is_digit(t[m]),
        t[m] != '.',
    ensures
        forall|k: int| !dotsplit_ok(t, k),
{
    assert forall|k: int| !dotsplit_ok(t, k) by {
        if dotsplit_ok(t, k) {
            if k > m {
                assert(is_digit(t[m]));
            } else if k == m {
                assert(k == t.len() || t[k] == '.');
            } else {
                assert(is_digit(t[m]));
            }
        }
    }
}

/// A body with a point and a later non-digit admits no split.
proof fn lemma_no_split_bad_frac(t: Seq<char>, kb: int, m: int)
    requires
        0 <= kb < m < t.len(),
        t[kb] == '.',
        !is_digit(t[m]),
    ensures
        forall|k: int| !dotsplit_ok(t, k),
{
    assert forall|k: int| !dotsplit_ok(t, k) by {
        if dotsplit_ok(t, k) {
            if k != kb {
                if kb < k {
                    assert(is_digit(t[kb]));
                } else {
                    assert(is_digit(t[kb]));
                }
                assert(false);
            }
            assert(is_digit(t[m]));
        }
    }
}

/// A body that is a lone point admits no split.
proof fn lemma_no_split_lone_dot(t: Seq<char>)
    requires
        t.len() == 1,
        t[0] == '.',
    ensures
        forall|k: int| !dotsplit_ok(t, k),
{
    assert forall|k: int| !dotsplit_ok(t, k) by {
        if dotsplit_ok(t, k) {
            assert(k > 0 || k + 1 < t.len());
            if k > 0 {
                assert(is_digit(t[0]));
            }
        }
    }
}

/// The fraction milli value of a digit string is not negative.
proof fn lemma_frac_milli_nonneg(t: Seq<char>, kk: int)
    requires
        dotsplit_ok(t, kk),
    ensures
        frac_milli(
            if kk < t.len() {
                t.skip(kk + 1)
            } else {
                Seq::empty()
            },
        ) >= 0,
{
    let f = if kk < t.len() {
        t.skip(kk + 1)
    } else {
        Seq::empty()
    };
    assert(frac_digit(f, 0) >= 0);
    assert(frac_digit(f, 1) >= 0);
    assert(frac_digit(f, 2) >= 0);
}

/// Whether two character strings are equal.
fn eq_chars(a: &Vec<char>, b: &Vec<char>) -> (r: bool)
    ensures
        r <==> a@ == b@,
{
    if a.len() != b.len() {
        proof {
            assert(a@ != b@);
        }
        return false;
    }
    let n: usize = a.len();
    let mut i: usize = 0;
    while i < n
        invariant
            n == a@.len() == b@.len(),
            i <= n,
            forall|j: int| 0 <= j < i as int ==> a@[j] == b@[j],
        decreases n - i,
    {
        if a[i] != b[i] {
            proof {
                assert(a@ != b@);
            }
            return false;
        }
        i = i + 1;
    }
    proof {
        assert(a@ =~= b@);
    }
    true
}

/// Whether a character counts as blank space around a line or field.
pub open spec fn is_space_s(c: char) -> bool {
    c == ' ' || c == '\t' || c == '\r'
}

/// The string with blank space removed from its start.
pub open spec fn trim_start_s(s: Seq<char>) -> Seq<char>
    decreases s.len(),
{
    if s.len() > 0 && is_space_s(s[0]) {
        trim_start_s(s.skip(1))
    } else {
        s
    }
}

/// The string with blank space removed from its end.
pub open spec fn trim_end_s(s: Seq<char>) -> Seq<char>
    decreases s.len(),
{
    if s.len() > 0 && is_space_s(s.last()) {
        trim_end_s(s.drop_last())
    } else {
        s
    }
}

/// The string with blank space removed from both ends.
pub open spec fn trim_of(s: Seq<char>) -> Seq<char> {
    trim_end_s(trim_start_s(s))
}

/// A string cut into fields at single spaces: leading, trailing or doubled
/// spaces produce empty fields, exactly as the splitting runs.
pub open spec fn tokens_of(s: Seq<char>) -> Seq<Seq<char>>
    decreases s.len(),
{
    if s.len() == 0 {
        seq![Seq::<char>::empty()]
    } else {
        let rest = tokens_of(s.drop_last());
        if s.last() == ' ' {
            rest.push(Seq::<char>::empty())
        } else {
            rest.update(rest.len() - 1, rest.last().push(s.last()))
        }
    }
}

/// A split string always holds at least one field.
pub proof fn lemma_tokens_nonempty(s: Seq<char>)
    ensures
        tokens_of(s).len() >= 1,
    decreases s.len(),
{
    if s.len() > 0 {
        lemma_tokens_nonempty(s.drop_last());
    }
}

/// The position of the first newline at or after `from`, or the text's end.
pub open spec fn find_nl(text: Seq<char>, from: int) -> int
    recommends
        0 <= from,
    decreases text.len() - from,
{
    if from >= text.len() {
        text.len() as int
    } else if text[from] == '\n' {
        from
    } else {
        find_nl(text, from + 1)
    }
}

/// The first newline sits between `from` and the text's end.
pub proof fn lemma_find_nl_ge(text: Seq<char>, from: int)
    ensures
        find_nl(text, from) <= text.len(),
        from <= text.len() ==> from <= find_nl(text, from),
    decreases text.len() - from,
{
    if from >= text.len() {
    } else if text[from] == '\n' {
    } else {
        lemma_find_nl_ge(text, from + 1);
    }
}

/// The text's lines from position `start` on: newline-separated segments,
/// each trimmed; a final segment without a newline counts, an empty tail
/// after a final newline does not.
pub open spec fn raw_lines_from(text: Seq<char>, start: int) -> Seq<Seq<char>>
    recommends
        0 <= start,
    decreases text.len() - start,
    via raw_lines_from_dec
{
    if start >= text.len() {
        Seq::empty()
    } else {
        let k = find_nl(text, start);
        if k < text.len() {
            seq![trim_of(text.subrange(start, k))] + raw_lines_from(text, k + 1)
        } else {
            seq![trim_of(text.subrange(start, text.len() as int))]
        }
    }
}

#[via_fn]
proof fn raw_lines_from_dec(text: Seq<char>, start: int) {
    lemma_find_nl_ge(text, start);
}

/// The whole text cut into trimmed lines.
pub open spec fn lines_of(text: Seq<char>) -> Seq<Seq<char>> {
    raw_lines_from(text, 0)
}

/// The views of a sequence of character vectors.
pub open spec fn views_of(s: Seq<Vec<char>>) -> Seq<Seq<char>> {
    s.map(|i: int, v: Vec<char>| v@)
}

/// Whether a character counts as blank space around a line or field.
fn is_space(c: char) -> (r: bool)
    ensures
        r == is_space_s(c),
{
    c == ' ' || c == '\t' || c == '\r'
}

/// The range's text with blank space removed from both ends.
fn trimmed(v: &Vec<char>, from: usize, to: usize) -> (r: Vec<char>)
    requires
        from <= to <= v@.len(),
    ensures
        r@ == trim_of(v@.subrange(from as int, to as int)),
{
    let mut lo: usize = from;
    let mut hi: usize = to;
    while lo < hi && is_space(v[lo])
        invariant
            from <= lo <= hi <= v@.len(),
            hi == to,
            trim_start_s(v@.subrange(from as int, to as int)) == trim_start_s(
                v@.subrange(lo as int, to as int),
            ),
        decreases hi - lo,
    {
        proof {
            let cur = v@.subrange(lo as int, to as int);
            assert(cur[0] == v@[lo as int]);
            assert(cur.skip(1) =~= v@.subrange(lo as int + 1, to as int));
        }
        lo = lo + 1;
    }
    proof {
        let cur = v@.subrange(lo as int, to as int);
        assert(lo < to ==> cur[0] == v@[lo as int]);
        assert(trim_start_s(cur) == cur);
    }
    let ghost t1 = v@.subrange(lo as int, to as int);
    while hi > lo && is_space(v[hi - 1])
        invariant
            from <= lo <= hi <= to <= v@.len(),
            t1 == v@.subrange(lo as int, to as int),
            trim_end_s(t1) == trim_end_s(v@.subrange(lo as int, hi as int)),
        decreases hi - lo,
    {
        proof {
            let cur = v@.subrange(lo as int, hi as int);
            assert(cur.last() == v@[hi as int - 1]);
            assert(cur.drop_last() =~= v@.subrange(lo as int, hi as int - 1));
        }
        hi = hi - 1;
    }
    proof {
        let cur = v@.subrange(lo as int, hi as int);
        assert(hi > lo ==> cur.last() == v@[hi as int - 1]);
        assert(trim_end_s(cur) == cur);
        assert(t1 =~= trim_start_s(v@.subrange(from as int, to as int)));
    }
    let mut out: Vec<char> = Vec::new();
    let mut i: usize = lo;
    while i < hi
        invariant
            lo <= i <= hi <= v@.len(),
            out@ =~= v@.subrange(lo as int, i as int),
        decreases hi - i,
    {
        out.push(v[i]);
        proof {
            assert(out@ =~= v@.subrange(lo as int, i as int + 1));
        }
        i = i + 1;
    }
    proof {
        assert(out@ =~= v@.subrange(lo as int, hi as int));
    }
    out
}

/// The script text cut into trimmed lines.
fn split_lines(text: &Vec<char>) -> (r: Vec<Vec<char>>)
    ensures
        views_of(r@) == lines_of(text@),
{
    let n: usize = text.len();
    let mut out: Vec<Vec<char>> = Vec::new();
    let mut start: usize = 0;
    proof {
        assert(views_of(out@) + raw_lines_from(text@, 0) =~= raw_lines_from(text@, 0));
    }
    while start < n
        invariant
            start <= n,
            n == text@.len(),
            views_of(out@) + raw_lines_from(text@, start as int) == lines_of(text@),
        decreases n - start,
    {
        let mut k: usize = start;
        while k < n && text[k] != '\n'
            invariant
                start <= k <= n,
                n == text@.len(),
                find_nl(text@, start as int) == find_nl(text@, k as int),
            decreases n - k,
        {
            k = k + 1;
        }
        proof {
            assert(find_nl(text@, k as int) == k as int);
        }
        let ghost done_old = views_of(out@);
        let line = trimmed(text, start, k);
        out.push(line);
        proof {
            assert(views_of(out@) =~= done_old.push(line@));
            let rem_old = raw_lines_from(text@, start as int);
            if k < n {
                let rem_new = raw_lines_from(text@, k as int + 1);
                assert(rem_old == seq![trim_of(text@.subrange(start as int, k as int))] + rem_new);
                assert(done_old.push(line@) + rem_new =~= done_old + rem_old);
            } else {
                assert(rem_old == seq![trim_of(text@.subrange(start as int, n as int))]);
                assert(done_old.push(line@) + raw_lines_from(text@, n as int) =~= done_old
                    + rem_old);
            }
        }
        if k < n {
            start = k + 1;
        } else {
            start = n;
        }
    }
    proof {
        assert(raw_lines_from(text@, start as int) == Seq::<Seq<char>>::empty());
        assert(views_of(out@) =~= views_of(out@) + raw_lines_from(text@, start as int));
    }
    out
}

/// A line cut into fields at single spaces, as the data lines are written.
fn split_tokens(line: &Vec<char>) -> (r: Vec<Vec<char>>)
    ensures
        views_of(r@) == tokens_of(line@),
{
    let mut toks: Vec<Vec<char>> = Vec::new();
    let mut cur: Vec<char> = Vec::new();
    let n: usize = line.len();
    let mut i: usize = 0;
    proof {
        assert(line@.take(0) =~= Seq::<char>::empty());
        assert(views_of(toks@).push(cur@) =~= tokens_of(line@.take(0)));
    }
    while i < n
        invariant
            i <= n,
            n == line@.len(),
            views_of(toks@).push(cur@) == tokens_of(line@.take(i as int)),
        decreases n - i,
    {
        let c: char = line[i];
        proof {
            let pre = line@.take(i as int + 1);
            assert(pre.drop_last() =~= line@.take(i as int));
            assert(pre.last() == c);
            lemma_tokens_nonempty(line@.take(i as int));
        }
        if c == ' ' {
            toks.push(cur);
            cur = Vec::new();
            proof {
                assert(views_of(toks@) =~= tokens_of(line@.take(i as int)));
                assert(views_of(toks@).push(cur@) =~= tokens_of(line@.take(i as int + 1)));
            }
        } else {
            cur.push(c);
            proof {
                let prev = tokens_of(line@.take(i as int));
                assert(views_of(toks@).push(cur@) =~= prev.update(
                    prev.len() - 1,
                    prev.last().push(c),
                ));
            }
        }
        i = i + 1;
    }
    proof {
        assert(line@.take(n as int) =~= line@);
        lemma_tokens_nonempty(line@);
    }
    toks.push(cur);
    proof {
        assert(views_of(toks@) =~= tokens_of(line@));
    }
    toks
}

/// Fetch the data line that must follow a command; running out of script
/// where one is owed is a fatal error.
pub fn getline_or_error(lines: &Vec<Vec<char>>, num: usize) -> (r: Result<&Vec<char>, ScriptError>)
    ensures
        r is Ok <==> num < lines@.len(),
        r is Ok ==> r->Ok_0@ == lines@[num as int]@,
        r is Err ==> r == Result::<&Vec<char>, ScriptError>::Err(
            ScriptError::MissingDataLine { line: num },
        ),
{
    if num < lines.len() {
        Ok(&lines[num])
    } else {
        Err(ScriptError::MissingDataLine { line: num })
    }
}

/// Parse the fields of a data line: exactly `want` space-separated decimal
/// literals. Ok exactly when the count matches and every field reads, with
/// each value the field's milli-unit number; otherwise the first fault.
fn parse_fields(data: &Vec<char>, want: usize, num: usize) -> (r: Result<Vec<i64>, ScriptError>)
    ensures
        r is Ok <==> tokens_of(data@).len() == want && (forall|j: int|
            0 <= j < want ==> #[trigger] field_ok(data@, j)),
        r is Ok ==> r->Ok_0@.len() == want && (forall|j: int|
            0 <= j < want ==> #[trigger] r->Ok_0@[j] == fv(data@, j) && sabs(r->Ok_0@[j] as int)
                <= PARSE_LIM as int),
        r is Err ==> r->Err_0 == if tokens_of(data@).len() != want {
            ScriptError::WrongFieldCount { line: num }
        } else {
            ScriptError::BadNumber { line: num }
        },
{
    let toks = split_tokens(data);
    if toks.len() != want {
        return Err(ScriptError::WrongFieldCount { line: num });
    }
    let mut vals: Vec<i64> = Vec::new();
    let mut i: usize = 0;
    while i < want
        invariant
            i <= want,
            toks@.len() == want,
            views_of(toks@) == tokens_of(data@),
            vals@.len() == i,
            forall|j: int| 0 <= j < i as int ==> #[trigger] field_ok(data@, j),
            forall|j: int|
                0 <= j < i as int ==> #[trigger] vals@[j] == fv(data@, j) && sabs(
                    vals@[j] as int,
                ) <= PARSE_LIM as int,
        decreases want - i,
    {
        proof {
            assert(toks@[i as int]@ == tokens_of(data@)[i as int]);
        }
        match parse_fx(&toks[i]) {
            Some(v) => {
                vals.push(v);
            },
            None => {
                proof {
                    assert(!field_ok(data@, i as int));
                }
                return Err(ScriptError::BadNumber { line: num });
            },
        }
        i = i + 1;
    }
    Ok(vals)
}

/// The interpreter's state: a transform stack bottomed on the identity,
/// reusable edge and polygon matrices, a canvas, and the output actions the
/// script has requested so far.
pub struct DWScript<C: Canvas> {
    pub edges: GeometryMatrix,
    pub polygons: GeometryMatrix,
    pub stack: Vec<TransformMatrix>,
    pub img: C,
    pub outputs: Vec<OutputAction>,
}

/// The interpreter's standing invariant.
pub open spec fn dw_wf<C: Canvas>(s: DWScript<C>) -> bool {
    &&& s.stack@.len() >= 1
    &&& stack_wf(s.stack@)
    &&& s.edges.mode == MatMode::Edge
    &&& s.polygons.mode == MatMode::Polygon
}

impl<C: Canvas> DWScript<C> {
    /// A fresh interpreter over the given canvas: an identity transform
    /// frame, empty geometry, and no outputs yet.
    pub fn new(img: C) -> (r: DWScript<C>)
        ensures
            dw_wf(r),
            r.stack@.len() == 1,
            crate::geom::is_ident(r.stack@[0]),
            r.img == img,
            r.outputs@.len() == 0,
            r.edges.pts@.len() == 0,
            r.polygons.pts@.len() == 0,
    {
        DWScript {
            edges: GeometryMatrix::new_edge_matrix(),
            polygons: GeometryMatrix::new_polygon_matrix(),
            stack: Vec::<TransformMatrix>::new_stack(),
            img,
            outputs: Vec::new(),
        }
    }

    /// Render a geometry matrix after multiplying it by the stack's top,
    /// dispatching on the matrix's own mode: edges as lines, polygons as
    /// culled, filled triangles.
    pub fn render_with_top_stack(&mut self, m: &GeometryMatrix) -> (res: Result<(), GfxError>)
        requires
            dw_wf(*old(self)),
            crate::geom::gm_in_range(*m),
        ensures
            dw_wf(*final(self)),
            final(self).stack == old(self).stack,
            final(self).edges == old(self).edges,
            final(self).polygons == old(self).polygons,
            final(self).outputs == old(self).outputs,
            final(self).img.fg() == old(self).img.fg(),
            final(self).img.bg() == old(self).img.bg(),
            final(self).img.dim_w() == old(self).img.dim_w(),
            final(self).img.dim_h() == old(self).img.dim_h(),
            m.mode == MatMode::Edge ==> {
                &&& (forall|i: int|
                    0 <= i < m.pts@.len() ==> crate::geom::apply_fits_s(
                        old(self).stack@.last(),
                        #[trigger] m.pts@[i],
                    )) ==> final(self).img.events() == old(self).img.events()
                    + crate::raster::edge_matrix_events(
                    old(self).img.fg(),
                    crate::geom::transformed_pts_s(old(self).stack@.last(), m.pts@),
                ) && (res is Ok <==> m.pts@.len() % 2 == 0)
            },
            m.mode == MatMode::Polygon ==> {
                &&& (forall|i: int|
                    0 <= i < m.pts@.len() ==> crate::geom::apply_fits_s(
                        old(self).stack@.last(),
                        #[trigger] m.pts@[i],
                    )) ==> (exists|out: Seq<crate::canvas::PlotEvent>|
                    final(self).img.events() == old(self).img.events() + out
                        && crate::raster::polygon_render_rel(
                        crate::geom::transformed_pts_s(old(self).stack@.last(), m.pts@),
                        out,
                    )) && (res is Ok <==> m.pts@.len() % 3 == 0)
            },
            (exists|i: int|
                0 <= i < m.pts@.len() && !crate::geom::apply_fits_s(
                    old(self).stack@.last(),
                    #[trigger] m.pts@[i],
                )) ==> final(self).img.events() == old(self).img.events() && res == Result::<
                (),
                GfxError,
            >::Err(GfxError::CoordOverflow),
    {
        match m.mode {
            MatMode::Edge => render_edges_with_stack(&mut self.img, &self.stack, m),
            MatMode::Polygon => render_polygon_with_stack(&mut self.img, &self.stack, m),
        }
    }

}

/// The axis a rotation turns about.
#[derive(Clone, Copy, PartialEq, Eq, Structural, Debug)]
pub enum Axis {
    X,
    Y,
    Z,
}

/// One parsed script command, with its numeric fields in milli-units.
pub enum Cmd {
    Line { a: Point, b: Point },
    Circle { cx: i64, cy: i64, cz: i64, r: i64 },
    Hermite { p0: (i64, i64), p1: (i64, i64), r0: (i64, i64), r1: (i64, i64) },
    Bezier { p0: (i64, i64), p1: (i64, i64), p2: (i64, i64), p3: (i64, i64) },
    BoxShape { x: i64, y: i64, z: i64, w: i64, h: i64, d: i64 },
    Sphere { cx: i64, cy: i64, cz: i64, r: i64 },
    Torus { cx: i64, cy: i64, cz: i64, r1: i64, r2: i64 },
    Scale { x: i64, y: i64, z: i64 },
    Move { x: i64, y: i64, z: i64 },
    Rotate { axis: Axis, deg: i64 },
    Push,
    Pop,
    Save { name: Vec<char> },
    Display,
}

/// A command together with the script line it came from, for error reports.
pub struct LocatedCmd {
    pub line: usize,
    pub cmd: Cmd,
}

/// Every numeric field within the range the parser admits.
pub open spec fn cmd_in_range(c: Cmd) -> bool {
    let lim = PARSE_LIM as int;
    match c {
        Cmd::Line { a, b } => sabs(a.x as int) <= lim && sabs(a.y as int) <= lim && sabs(
            a.z as int,
        ) <= lim && sabs(b.x as int) <= lim && sabs(b.y as int) <= lim && sabs(b.z as int) <= lim,
        Cmd::Circle { cx, cy, cz, r } => sabs(cx as int) <= lim && sabs(cy as int) <= lim && sabs(
            cz as int,
        ) <= lim && sabs(r as int) <= lim,
        Cmd::Hermite { p0, p1, r0, r1 } => sabs(p0.0 as int) <= lim && sabs(p0.1 as int) <= lim
            && sabs(p1.0 as int) <= lim && sabs(p1.1 as int) <= lim && sabs(r0.0 as int) <= lim
            && sabs(r0.1 as int) <= lim && sabs(r1.0 as int) <= lim && sabs(r1.1 as int) <= lim,
        Cmd::Bezier { p0, p1, p2, p3 } => sabs(p0.0 as int) <= lim && sabs(p0.1 as int) <= lim
            && sabs(p1.0 as int) <= lim && sabs(p1.1 as int) <= lim && sabs(p2.0 as int) <= lim
            && sabs(p2.1 as int) <= lim && sabs(p3.0 as int) <= lim && sabs(p3.1 as int) <= lim,
        Cmd::BoxShape { x, y, z, w, h, d } => sabs(x as int) <= lim && sabs(y as int) <= lim
            && sabs(z as int) <= lim && sabs(w as int) <= lim && sabs(h as int) <= lim && sabs(
            d as int,
        ) <= lim,
        Cmd::Sphere { cx, cy, cz, r } => sabs(cx as int) <= lim && sabs(cy as int) <= lim && sabs(
            cz as int,
        ) <= lim && sabs(r as int) <= lim,
        Cmd::Torus { cx, cy, cz, r1, r2 } => sabs(cx as int) <= lim && sabs(cy as int) <= lim
            && sabs(cz as int) <= lim && sabs(r1 as int) <= lim && sabs(r2 as int) <= lim,
        Cmd::Scale { x, y, z } => sabs(x as int) <= lim && sabs(y as int) <= lim && sabs(z as int)
            <= lim,
        Cmd::Move { x, y, z } => sabs(x as int) <= lim && sabs(y as int) <= lim && sabs(z as int)
            <= lim,
        Cmd::Rotate { axis, deg } => sabs(deg as int) <= lim,
        Cmd::Push => true,
        Cmd::Pop => true,
        Cmd::Save { name } => true,
        Cmd::Display => true,
    }
}

/// A command that can never fault when executed: it touches only the stack
/// or the output record, never composing a transform or rendering.
pub open spec fn cmd_infallible(c: Cmd) -> bool {
    match c {
        Cmd::Push => true,
        Cmd::Pop => true,
        Cmd::Save { .. } => true,
        Cmd::Display => true,
        _ => false,
    }
}

/// The commands of a located sequence, locations set aside.
pub open spec fn cmds_of(s: Seq<LocatedCmd>) -> Seq<Cmd> {
    s.map(|i: int, lc: LocatedCmd| lc.cmd)
}

/// The stack after composing t onto its top: the frames beneath are kept and
/// the top becomes the fixed-point product t * top.
pub open spec fn compose_top_rel(
    pre: Seq<TransformMatrix>,
    t: TransformMatrix,
    post: Seq<TransformMatrix>,
) -> bool {
    &&& pre.len() >= 1
    &&& post.len() == pre.len()
    &&& post.drop_last() == pre.drop_last()
    &&& crate::geom::tm_wf(post.last())
    &&& forall|r: int, c: int|
        0 <= r < 4 && 0 <= c < 4 ==> #[trigger] crate::geom::at(post.last(), r, c)
            == crate::geom::mm_entry_s(t, pre.last(), r, c)
}

/// A point of the envelope a circle command's chords stay in.
pub open spec fn circle_env(cx: int, cy: int, cz: int, r: int, p: Point) -> bool {
    &&& sabs(p.x - cx) <= sabs(r)
    &&& sabs(p.y - cy) <= sabs(r)
    &&& p.z == cz
    &&& pt_in_range(p)
}

/// A point of the envelope a sphere command's triangles stay in.
pub open spec fn sphere_env(cx: int, cy: int, cz: int, r: int, p: Point) -> bool {
    &&& sabs(p.x - cx) <= sabs(r)
    &&& sabs(p.y - cy) <= sabs(r)
    &&& sabs(p.z - cz) <= sabs(r)
    &&& pt_in_range(p)
}

/// A point of the envelope a torus command's triangles stay in.
pub open spec fn torus_env(cx: int, cy: int, cz: int, r1: int, r2: int, p: Point) -> bool {
    &&& sabs(p.x - cx) <= sabs(r1) + sabs(r2)
    &&& sabs(p.y - cy) <= sabs(r1) + sabs(r2)
    &&& sabs(p.z - cz) <= sabs(r1) + sabs(r2)
    &&& pt_in_range(p)
}

/// The points a circle command generates: exactly its chord chain.
pub open spec fn circle_pts_ok(cx: int, cy: int, cz: int, r: int, pts: Seq<Point>) -> bool {
    &&& pts.len() == 144
    &&& forall|i: int| 0 <= i < pts.len() ==> circle_env(cx, cy, cz, r, #[trigger] pts[i])
    &&& forall|i: int|
        0 <= i < 72 ==> #[trigger] crate::shapes::circle_cell_ok(pts, 0, cx, cy, cz, r, i)
}

/// The points a box command generates: exactly its twelve wound triangles.
pub open spec fn box_pts_ok(x: int, y: int, z: int, w: int, h: int, d: int, pts: Seq<Point>) -> bool {
    pts == crate::shapes::box_pts_s(x, y, z, w, h, d)
}

/// The points a sphere command generates: exactly its triangle grid.
pub open spec fn sphere_pts_ok(cx: int, cy: int, cz: int, r: int, pts: Seq<Point>) -> bool {
    &&& pts.len() == 1536
    &&& forall|i: int| 0 <= i < pts.len() ==> sphere_env(cx, cy, cz, r, #[trigger] pts[i])
    &&& forall|ii: int, jj: int|
        0 <= ii < 16 && 0 <= jj < 16 ==> #[trigger] crate::shapes::sphere_cell_ok(
            pts,
            0,
            cx,
            cy,
            cz,
            r,
            ii,
            jj,
        )
}

/// The points a torus command generates: exactly its triangle grid.
pub open spec fn torus_pts_ok(cx: int, cy: int, cz: int, r1: int, r2: int, pts: Seq<Point>) -> bool {
    &&& pts.len() == 1536
    &&& forall|i: int| 0 <= i < pts.len() ==> torus_env(cx, cy, cz, r1, r2, #[trigger] pts[i])
    &&& forall|ii: int, jj: int|
        0 <= ii < 16 && 0 <= jj < 16 ==> #[trigger] crate::shapes::torus_cell_ok(
            pts,
            0,
            cx,
            cy,
            cz,
            r1,
            r2,
            ii,
            jj,
        )
}

/// The chord points of a cubic with the given coefficient rows.
pub open spec fn cubic_pts_ok(
    ax: int,
    bx: int,
    cx: int,
    dx: int,
    ay: int,
    by: int,
    cy: int,
    dy: int,
    pts: Seq<Point>,
) -> bool {
    &&& pts.len() == 100
    &&& forall|k: int|
        0 <= k < 50 ==> #[trigger] pts[2 * k] == crate::shapes::cubic_pt_s(
            ax,
            bx,
            cx,
            dx,
            ay,
            by,
            cy,
            dy,
            k,
        ) && pts[2 * k + 1] == crate::shapes::cubic_pt_s(ax, bx, cx, dx, ay, by, cy, dy, k + 1)
    &&& forall|i: int| 0 <= i < pts.len() ==> pt_in_range(#[trigger] pts[i])
}

/// What one command does to the transform stack and the plot record: one
/// step of the command state machine. A generated shape is pinned down as
/// far as its generator's contract pins it; a surviving step never touches
/// anything else.
pub open spec fn step_rel(
    st0: Seq<TransformMatrix>,
    ev0: Seq<PlotEvent>,
    fg: Rgb,
    cmd: Cmd,
    st1: Seq<TransformMatrix>,
    ev1: Seq<PlotEvent>,
) -> bool {
    match cmd {
        Cmd::Push => st1 == st0.push(st0.last()) && ev1 == ev0,
        Cmd::Pop => ev1 == ev0 && if st0.len() > 1 {
            st1 == st0.drop_last()
        } else {
            st1 == st0
        },
        Cmd::Move { x, y, z } => ev1 == ev0 && exists|t: TransformMatrix|
            crate::transform::is_translate(t, x as int, y as int, z as int) && #[trigger]
            compose_top_rel(st0, t, st1),
        Cmd::Scale { x, y, z } => ev1 == ev0 && exists|t: TransformMatrix|
            crate::transform::is_scale(t, x as int, y as int, z as int) && #[trigger]
            compose_top_rel(st0, t, st1),
        Cmd::Rotate { axis, deg } => ev1 == ev0 && exists|t: TransformMatrix|
            (match axis {
                Axis::X => crate::transform::is_rotate_x(t, deg as int),
                Axis::Y => crate::transform::is_rotate_y(t, deg as int),
                Axis::Z => crate::transform::is_rotate_z(t, deg as int),
            }) && #[trigger] compose_top_rel(st0, t, st1),
        Cmd::Line { a, b } => st1 == st0 && ev1 == ev0 + crate::raster::edge_matrix_events(
            fg,
            crate::geom::transformed_pts_s(st0.last(), seq![a, b]),
        ),
        Cmd::Circle { cx, cy, cz, r } => st1 == st0 && exists|pts: Seq<Point>|
            #[trigger] circle_pts_ok(cx as int, cy as int, cz as int, r as int, pts) && ev1 == ev0
                + crate::raster::edge_matrix_events(
                fg,
                crate::geom::transformed_pts_s(st0.last(), pts),
            ),
        Cmd::Hermite { p0, p1, r0, r1 } => st1 == st0 && exists|pts: Seq<Point>|
            #[trigger] cubic_pts_ok(
                2 * p0.0 - 2 * p1.0 + r0.0 + r1.0,
                -3 * p0.0 + 3 * p1.0 - 2 * r0.0 - r1.0,
                r0.0 as int,
                p0.0 as int,
                2 * p0.1 - 2 * p1.1 + r0.1 + r1.1,
                -3 * p0.1 + 3 * p1.1 - 2 * r0.1 - r1.1,
                r0.1 as int,
                p0.1 as int,
                pts,
            ) && ev1 == ev0 + crate::raster::edge_matrix_events(
                fg,
                crate::geom::transformed_pts_s(st0.last(), pts),
            ),
        Cmd::Bezier { p0, p1, p2, p3 } => st1 == st0 && exists|pts: Seq<Point>|
            #[trigger] cubic_pts_ok(
                -p0.0 + 3 * p1.0 - 3 * p2.0 + p3.0,
                3 * p0.0 - 6 * p1.0 + 3 * p2.0,
                -3 * p0.0 + 3 * p1.0,
                p0.0 as int,
                -p0.1 + 3 * p1.1 - 3 * p2.1 + p3.1,
                3 * p0.1 - 6 * p1.1 + 3 * p2.1,
                -3 * p0.1 + 3 * p1.1,
                p0.1 as int,
                pts,
            ) && ev1 == ev0 + crate::raster::edge_matrix_events(
                fg,
                crate::geom::transformed_pts_s(st0.last(), pts),
            ),
        Cmd::BoxShape { x, y, z, w, h, d } => st1 == st0 && exists|pts: Seq<Point>, out: Seq<
            PlotEvent,
        >|
            #![trigger box_pts_ok(x as int, y as int, z as int, w as int, h as int, d as int, pts), crate::raster::polygon_render_rel(crate::geom::transformed_pts_s(st0.last(), pts), out)]
            {
                &&& box_pts_ok(x as int, y as int, z as int, w as int, h as int, d as int, pts)
                &&& crate::raster::polygon_render_rel(
                    crate::geom::transformed_pts_s(st0.last(), pts),
                    out,
                )
                &&& ev1 == ev0 + out
            },
        Cmd::Sphere { cx, cy, cz, r } => st1 == st0 && exists|pts: Seq<Point>, out: Seq<PlotEvent>|
            #![trigger sphere_pts_ok(cx as int, cy as int, cz as int, r as int, pts), crate::raster::polygon_render_rel(crate::geom::transformed_pts_s(st0.last(), pts), out)]
            {
                &&& sphere_pts_ok(cx as int, cy as int, cz as int, r as int, pts)
                &&& crate::raster::polygon_render_rel(
                    crate::geom::transformed_pts_s(st0.last(), pts),
                    out,
                )
                &&& ev1 == ev0 + out
            },
        Cmd::Torus { cx, cy, cz, r1, r2 } => st1 == st0 && exists|pts: Seq<Point>, out: Seq<
            PlotEvent,
        >|
            #![trigger torus_pts_ok(cx as int, cy as int, cz as int, r1 as int, r2 as int, pts), crate::raster::polygon_render_rel(crate::geom::transformed_pts_s(st0.last(), pts), out)]
            {
                &&& torus_pts_ok(cx as int, cy as int, cz as int, r1 as int, r2 as int, pts)
                &&& crate::raster::polygon_render_rel(
                    crate::geom::transformed_pts_s(st0.last(), pts),
                    out,
                )
                &&& ev1 == ev0 + out
            },
        Cmd::Save { name } => st1 == st0 && ev1 == ev0,
        Cmd::Display => st1 == st0 && ev1 == ev0,
    }
}

/// A run of the state machine: the commands' steps chained in script order.
pub open spec fn run_rel(
    st0: Seq<TransformMatrix>,
    ev0: Seq<PlotEvent>,
    fg: Rgb,
    cmds: Seq<Cmd>,
    st1: Seq<TransformMatrix>,
    ev1: Seq<PlotEvent>,
) -> bool
    decreases cmds.len(),
{
    if cmds.len() == 0 {
        st1 == st0 && ev1 == ev0
    } else {
        exists|stm: Seq<TransformMatrix>, evm: Seq<PlotEvent>|
            #[trigger] step_rel(st0, ev0, fg, cmds[0], stm, evm) && run_rel(
                stm,
                evm,
                fg,
                cmds.skip(1),
                st1,
                ev1,
            )
    }
}

/// A script line that is skipped: blank, or a comment starting with a
/// backslash or a hash.
pub open spec fn line_is_skip(l: Seq<char>) -> bool {
    l.len() == 0 || l[0] == '\\' || l[0] == '#'
}

/// Whether field j of a data line is a decimal literal the fixed-point
/// range carries.
pub open spec fn field_ok(d: Seq<char>, j: int) -> bool {
    &&& valid_num(tokens_of(d)[j])
    &&& sabs(num_milli_s(tokens_of(d)[j])) <= PARSE_LIM as int
}

/// The milli-unit value of field j of a data line.
pub open spec fn fv(d: Seq<char>, j: int) -> i64 {
    num_milli_s(tokens_of(d)[j]) as i64
}

/// The first fault of a command's data line, if any: the data line must
/// exist, hold exactly `want` fields, and every field must be a readable
/// number.
pub open spec fn data_line_fault(lines: Seq<Seq<char>>, i: int, want: int) -> Option<ScriptError> {
    if i + 1 >= lines.len() {
        Some(ScriptError::MissingDataLine { line: (i + 1) as usize })
    } else if tokens_of(lines[i + 1]).len() != want {
        Some(ScriptError::WrongFieldCount { line: (i + 1) as usize })
    } else if exists|j: int| 0 <= j < want && !(#[trigger] field_ok(lines[i + 1], j)) {
        Some(ScriptError::BadNumber { line: (i + 1) as usize })
    } else {
        None
    }
}

/// The parse outcome after a recognized command line: an error threads
/// through unchanged (rest_err says what the rest yields for it), and a
/// success starts with this command at this line, the rest continuing as
/// rest_ok says.
pub open spec fn cmd_then(
    i: int,
    c: Cmd,
    res: Result<Seq<LocatedCmd>, ScriptError>,
    rest_err: bool,
    rest_ok: bool,
) -> bool {
    &&& (res is Err ==> rest_err)
    &&& (res is Ok ==> {
        &&& res->Ok_0.len() >= 1
        &&& res->Ok_0[0].line == i as usize
        &&& res->Ok_0[0].cmd == c
        &&& rest_ok
    })
}

/// What parsing the script from line i on yields: Ok with exactly the
/// commands the keyword dispatch reads, in order with their line numbers
/// and their fields' decimal values, or Err with the first fault and its
/// line. Skipped lines never consume a data line.
pub open spec fn parse_outcome(
    lines: Seq<Seq<char>>,
    i: int,
    res: Result<Seq<LocatedCmd>, ScriptError>,
) -> bool
    decreases lines.len() - i, 1int,
{
    if i >= lines.len() {
        res == Ok::<Seq<LocatedCmd>, ScriptError>(Seq::empty())
    } else {
        let l = lines[i];
        if line_is_skip(l) {
            parse_outcome(lines, i + 1, res)
        } else if l == seq!['l', 'i', 'n', 'e'] {
            match data_line_fault(lines, i, 6) {
                Some(e) => res == Err::<Seq<LocatedCmd>, ScriptError>(e),
                None => {
                    let d = lines[i + 1];
                    cmd_then(i, Cmd::Line { a: Point { x: fv(d, 0), y: fv(d, 1), z: fv(d, 2) }, b: Point { x: fv(d, 3), y: fv(d, 4), z: fv(d, 5) }, }, res, parse_outcome(lines, i + 2, res), parse_outcome(lines, i + 2, Ok(res->Ok_0.skip(1))))
                },
            }
        } else if l == seq!['c', 'i', 'r', 'c', 'l', 'e'] {
            match data_line_fault(lines, i, 4) {
                Some(e) => res == Err::<Seq<LocatedCmd>, ScriptError>(e),
                None => {
                    let d = lines[i + 1];
                    cmd_then(i, Cmd::Circle { cx: fv(d, 0), cy: fv(d, 1), cz: fv(d, 2), r: fv(d, 3) }, res, parse_outcome(lines, i + 2, res), parse_outcome(lines, i + 2, Ok(res->Ok_0.skip(1))))
                },
            }
        } else if l == seq!['h', 'e', 'r', 'm', 'i', 't', 'e'] {
            match data_line_fault(lines, i, 8) {
                Some(e) => res == Err::<Seq<LocatedCmd>, ScriptError>(e),
                None => {
                    let d = lines[i + 1];
                    cmd_then(i, Cmd::Hermite { p0: (fv(d, 0), fv(d, 1)), p1: (fv(d, 2), fv(d, 3)), r0: (fv(d, 4), fv(d, 5)), r1: (fv(d, 6), fv(d, 7)), }, res, parse_outcome(lines, i + 2, res), parse_outcome(lines, i + 2, Ok(res->Ok_0.skip(1))))
                },
            }
        } else if l == seq!['b', 'e', 'z', 'i', 'e', 'r'] {
            match data_line_fault(lines, i, 8) {
                Some(e) => res == Err::<Seq<LocatedCmd>, ScriptError>(e),
                None => {
                    let d = lines[i + 1];
                    cmd_then(i, Cmd::Bezier { p0: (fv(d, 0), fv(d, 1)), p1: (fv(d, 2), fv(d, 3)), p2: (fv(d, 4), fv(d, 5)), p3: (fv(d, 6), fv(d, 7)), }, res, parse_outcome(lines, i + 2, res), parse_outcome(lines, i + 2, Ok(res->Ok_0.skip(1))))
                },
            }
        } else if l == seq!['b', 'o', 'x'] {
            match data_line_fault(lines, i, 6) {
                Some(e) => res == Err::<Seq<LocatedCmd>, ScriptError>(e),
                None => {
                    let d = lines[i + 1];
                    cmd_then(i, Cmd::BoxShape { x: fv(d, 0), y: fv(d, 1), z: fv(d, 2), w: fv(d, 3), h: fv(d, 4), d: fv(d, 5), }, res, parse_outcome(lines, i + 2, res), parse_outcome(lines, i + 2, Ok(res->Ok_0.skip(1))))
                },
            }
        } else if l == seq!['s', 'p', 'h', 'e', 'r', 'e'] {
            match data_line_fault(lines, i, 4) {
                Some(e) => res == Err::<Seq<LocatedCmd>, ScriptError>(e),
                None => {
                    let d = lines[i + 1];
                    cmd_then(i, Cmd::Sphere { cx: fv(d, 0), cy: fv(d, 1), cz: fv(d, 2), r: fv(d, 3) }, res, parse_outcome(lines, i + 2, res), parse_outcome(lines, i + 2, Ok(res->Ok_0.skip(1))))
                },
            }
        } else if l == seq!['t', 'o', 'r', 'u', 's'] {
            match data_line_fault(lines, i, 5) {
                Some(e) => res == Err::<Seq<LocatedCmd>, ScriptError>(e),
                None => {
                    let d = lines[i + 1];
                    cmd_then(i, Cmd::Torus { cx: fv(d, 0), cy: fv(d, 1), cz: fv(d, 2), r1: fv(d, 3), r2: fv(d, 4), }, res, parse_outcome(lines, i + 2, res), parse_outcome(lines, i + 2, Ok(res->Ok_0.skip(1))))
                },
            }
        } else if l == seq!['s', 'c', 'a', 'l', 'e'] {
            match data_line_fault(lines, i, 3) {
                Some(e) => res == Err::<Seq<LocatedCmd>, ScriptError>(e),
                None => {
                    let d = lines[i + 1];
                    cmd_then(i, Cmd::Scale { x: fv(d, 0), y: fv(d, 1), z: fv(d, 2) }, res, parse_outcome(lines, i + 2, res), parse_outcome(lines, i + 2, Ok(res->Ok_0.skip(1))))
                },
            }
        } else if l == seq!['m', 'o', 'v', 'e'] {
            match data_line_fault(lines, i, 3) {
                Some(e) => res == Err::<Seq<LocatedCmd>, ScriptError>(e),
                None => {
                    let d = lines[i + 1];
                    cmd_then(i, Cmd::Move { x: fv(d, 0), y: fv(d, 1), z: fv(d, 2) }, res, parse_outcome(lines, i + 2, res), parse_outcome(lines, i + 2, Ok(res->Ok_0.skip(1))))
                },
            }
        } else if l == seq!['r', 'o', 't', 'a', 't', 'e'] {
            if i + 1 >= lines.len() {
                res == Err::<Seq<LocatedCmd>, ScriptError>(
                    ScriptError::MissingDataLine { line: (i + 1) as usize },
                )
            } else {
                let t = tokens_of(lines[i + 1]);
                if t.len() != 2 {
                    res == Err::<Seq<LocatedCmd>, ScriptError>(
                        ScriptError::WrongFieldCount { line: (i + 1) as usize },
                    )
                } else if !field_ok(lines[i + 1], 1) {
                    res == Err::<Seq<LocatedCmd>, ScriptError>(
                        ScriptError::BadNumber { line: (i + 1) as usize },
                    )
                } else if t[0] == seq!['x'] {
                    cmd_then(i, Cmd::Rotate { axis: Axis::X, deg: fv(lines[i + 1], 1) }, res, parse_outcome(lines, i + 2, res), parse_outcome(lines, i + 2, Ok(res->Ok_0.skip(1))))
                } else if t[0] == seq!['y'] {
                    cmd_then(i, Cmd::Rotate { axis: Axis::Y, deg: fv(lines[i + 1], 1) }, res, parse_outcome(lines, i + 2, res), parse_outcome(lines, i + 2, Ok(res->Ok_0.skip(1))))
                } else if t[0] == seq!['z'] {
                    cmd_then(i, Cmd::Rotate { axis: Axis::Z, deg: fv(lines[i + 1], 1) }, res, parse_outcome(lines, i + 2, res), parse_outcome(lines, i + 2, Ok(res->Ok_0.skip(1))))
                } else {
                    res == Err::<Seq<LocatedCmd>, ScriptError>(
                        ScriptError::UnknownAxis { line: (i + 1) as usize },
                    )
                }
            }
        } else if l == seq!['p', 'u', 's', 'h'] {
            cmd_then(i, Cmd::Push, res, parse_outcome(lines, i + 1, res), parse_outcome(lines, i + 1, Ok(res->Ok_0.skip(1))))
        } else if l == seq!['p', 'o', 'p'] {
            cmd_then(i, Cmd::Pop, res, parse_outcome(lines, i + 1, res), parse_outcome(lines, i + 1, Ok(res->Ok_0.skip(1))))
        } else if l == seq!['s', 'a', 'v', 'e'] {
            if i + 1 >= lines.len() {
                res == Err::<Seq<LocatedCmd>, ScriptError>(
                    ScriptError::MissingDataLine { line: (i + 1) as usize },
                )
            } else {
                &&& (res is Err ==> parse_outcome(lines, i + 2, res))
                &&& (res is Ok ==> {
                    &&& res->Ok_0.len() >= 1
                    &&& res->Ok_0[0].line == i as usize
                    &&& (res->Ok_0[0].cmd matches Cmd::Save { name } && name@ == lines[i + 1])
                    &&& parse_outcome(lines, i + 2, Ok(res->Ok_0.skip(1)))
                })
            }
        } else if l == seq!['d', 'i', 's', 'p', 'l', 'a', 'y'] {
            cmd_then(i, Cmd::Display, res, parse_outcome(lines, i + 1, res), parse_outcome(lines, i + 1, Ok(res->Ok_0.skip(1))))
        } else {
            res == Err::<Seq<LocatedCmd>, ScriptError>(
                ScriptError::UnknownCommand { line: i as usize },
            )
        }
    }
}

/// A prefix of already-parsed commands prepended to a later outcome.
pub open spec fn prep(
    done: Seq<LocatedCmd>,
    r: Result<Seq<LocatedCmd>, ScriptError>,
) -> Result<Seq<LocatedCmd>, ScriptError> {
    match r {
        Ok(s) => Ok(done + s),
        Err(e) => Err(e),
    }
}

/// Whether sample k of a hermite command's cubic is representable and maps
/// into range through the given stack top.
pub open spec fn hermite_step_ok(
    p0: (i64, i64),
    p1: (i64, i64),
    r0: (i64, i64),
    r1: (i64, i64),
    top: TransformMatrix,
    k: int,
) -> bool {
    &&& crate::shapes::cubic_pt_ok_s(
        2 * p0.0 - 2 * p1.0 + r0.0 + r1.0,
        -3 * p0.0 + 3 * p1.0 - 2 * r0.0 - r1.0,
        r0.0 as int,
        p0.0 as int,
        2 * p0.1 - 2 * p1.1 + r0.1 + r1.1,
        -3 * p0.1 + 3 * p1.1 - 2 * r0.1 - r1.1,
        r0.1 as int,
        p0.1 as int,
        k,
    )
    &&& crate::geom::apply_fits_s(
        top,
        crate::shapes::cubic_pt_s(
            2 * p0.0 - 2 * p1.0 + r0.0 + r1.0,
            -3 * p0.0 + 3 * p1.0 - 2 * r0.0 - r1.0,
            r0.0 as int,
            p0.0 as int,
            2 * p0.1 - 2 * p1.1 + r0.1 + r1.1,
            -3 * p0.1 + 3 * p1.1 - 2 * r0.1 - r1.1,
            r0.1 as int,
            p0.1 as int,
            k,
        ),
    )
}

/// Whether sample k of a bezier command's cubic is representable and maps
/// into range through the given stack top.
pub open spec fn bezier_step_ok(
    p0: (i64, i64),
    p1: (i64, i64),
    p2: (i64, i64),
    p3: (i64, i64),
    top: TransformMatrix,
    k: int,
) -> bool {
    &&& crate::shapes::cubic_pt_ok_s(
        -p0.0 + 3 * p1.0 - 3 * p2.0 + p3.0,
        3 * p0.0 - 6 * p1.0 + 3 * p2.0,
        -3 * p0.0 + 3 * p1.0,
        p0.0 as int,
        -p0.1 + 3 * p1.1 - 3 * p2.1 + p3.1,
        3 * p0.1 - 6 * p1.1 + 3 * p2.1,
        -3 * p0.1 + 3 * p1.1,
        p0.1 as int,
        k,
    )
    &&& crate::geom::apply_fits_s(
        top,
        crate::shapes::cubic_pt_s(
            -p0.0 + 3 * p1.0 - 3 * p2.0 + p3.0,
            3 * p0.0 - 6 * p1.0 + 3 * p2.0,
            -3 * p0.0 + 3 * p1.0,
            p0.0 as int,
            -p0.1 + 3 * p1.1 - 3 * p2.1 + p3.1,
            3 * p0.1 - 6 * p1.1 + 3 * p2.1,
            -3 * p0.1 + 3 * p1.1,
            p0.1 as int,
            k,
        ),
    )
}

/// Whether a command can run without a fixed-point fault against the given
/// stack top: the composed transform stays within the entry bound, and every
/// point the command can hand the renderer — exactly known for line, box and
/// the curves, enveloped for circle, sphere and torus — maps into the
/// representable coordinate range.
pub open spec fn cmd_ok(c: Cmd, top: TransformMatrix) -> bool {
    match c {
        Cmd::Push => true,
        Cmd::Pop => true,
        Cmd::Save { .. } => true,
        Cmd::Display => true,
        Cmd::Move { x, y, z } => forall|t: TransformMatrix|
            #[trigger] crate::transform::is_translate(t, x as int, y as int, z as int)
                ==> crate::geom::mm_fits_s(t, top),
        Cmd::Scale { x, y, z } => forall|t: TransformMatrix|
            #[trigger] crate::transform::is_scale(t, x as int, y as int, z as int)
                ==> crate::geom::mm_fits_s(t, top),
        Cmd::Rotate { axis, deg } => match axis {
            Axis::X => forall|t: TransformMatrix|
                #[trigger] crate::transform::is_rotate_x(t, deg as int) ==> crate::geom::mm_fits_s(
                    t,
                    top,
                ),
            Axis::Y => forall|t: TransformMatrix|
                #[trigger] crate::transform::is_rotate_y(t, deg as int) ==> crate::geom::mm_fits_s(
                    t,
                    top,
                ),
            Axis::Z => forall|t: TransformMatrix|
                #[trigger] crate::transform::is_rotate_z(t, deg as int) ==> crate::geom::mm_fits_s(
                    t,
                    top,
                ),
        },
        Cmd::Line { a, b } => crate::geom::apply_fits_s(top, a) && crate::geom::apply_fits_s(
            top,
            b,
        ),
        Cmd::BoxShape { x, y, z, w, h, d } => forall|j: int|
            0 <= j < 36 ==> crate::geom::apply_fits_s(
                top,
                #[trigger] crate::shapes::box_pts_s(
                    x as int,
                    y as int,
                    z as int,
                    w as int,
                    h as int,
                    d as int,
                )[j],
            ),
        Cmd::Hermite { p0, p1, r0, r1 } => forall|k: int|
            0 <= k < 51 ==> #[trigger] hermite_step_ok(p0, p1, r0, r1, top, k),
        Cmd::Bezier { p0, p1, p2, p3 } => forall|k: int|
            0 <= k < 51 ==> #[trigger] bezier_step_ok(p0, p1, p2, p3, top, k),
        Cmd::Circle { cx, cy, cz, r } => forall|p: Point|
            #[trigger] circle_env(cx as int, cy as int, cz as int, r as int, p)
                ==> crate::geom::apply_fits_s(top, p),
        Cmd::Sphere { cx, cy, cz, r } => forall|p: Point|
            #[trigger] sphere_env(cx as int, cy as int, cz as int, r as int, p)
                ==> crate::geom::apply_fits_s(top, p),
        Cmd::Torus { cx, cy, cz, r1, r2 } => forall|p: Point|
            #[trigger] torus_env(cx as int, cy as int, cz as int, r1 as int, r2 as int, p)
                ==> crate::geom::apply_fits_s(top, p),
    }
}

/// A run extends by one step: appending a command whose step relates the
/// run's end to a further state yields a run of the longer list.
pub proof fn lemma_run_snoc(
    st0: Seq<TransformMatrix>,
    ev0: Seq<PlotEvent>,
    fg: Rgb,
    cmds: Seq<Cmd>,
    stm: Seq<TransformMatrix>,
    evm: Seq<PlotEvent>,
    c: Cmd,
    st1: Seq<TransformMatrix>,
    ev1: Seq<PlotEvent>,
)
    requires
        run_rel(st0, ev0, fg, cmds, stm, evm),
        step_rel(stm, evm, fg, c, st1, ev1),
    ensures
        run_rel(st0, ev0, fg, cmds.push(c), st1, ev1),
    decreases cmds.len(),
{
    if cmds.len() == 0 {
        assert(stm == st0 && evm == ev0);
        assert(cmds.push(c)[0] == c);
        assert(cmds.push(c).skip(1) =~= Seq::<Cmd>::empty());
        assert(run_rel(st1, ev1, fg, cmds.push(c).skip(1), st1, ev1));
        assert(step_rel(st0, ev0, fg, cmds.push(c)[0], st1, ev1));
    } else {
        let (sta, eva) = choose|sta: Seq<TransformMatrix>, eva: Seq<PlotEvent>|
            #[trigger] step_rel(st0, ev0, fg, cmds[0], sta, eva) && run_rel(
                sta,
                eva,
                fg,
                cmds.skip(1),
                stm,
                evm,
            );
        lemma_run_snoc(sta, eva, fg, cmds.skip(1), stm, evm, c, st1, ev1);
        assert(cmds.skip(1).push(c) =~= cmds.push(c).skip(1));
        assert(cmds.push(c)[0] == cmds[0]);
        assert(run_rel(sta, eva, fg, cmds.push(c).skip(1), st1, ev1));
        assert(step_rel(st0, ev0, fg, cmds.push(c)[0], sta, eva));
    }
}

/// A parse has one outcome: the same lines cannot parse both to a command
/// list and to a fault.
pub proof fn lemma_parse_excl(ls: Seq<Seq<char>>, i: int, s: Seq<LocatedCmd>, e: ScriptError)
    ensures
        !(parse_outcome(ls, i, Ok::<Seq<LocatedCmd>, ScriptError>(s)) && parse_outcome(
            ls,
            i,
            Err::<Seq<LocatedCmd>, ScriptError>(e),
        )),
    decreases ls.len() - i,
{
    if i >= ls.len() {
    } else {
        let l = ls[i];
        if line_is_skip(l) {
            lemma_parse_excl(ls, i + 1, s, e);
        } else if l == seq!['l', 'i', 'n', 'e'] {
            if data_line_fault(ls, i, 6) is None {
                lemma_parse_excl(ls, i + 2, s.skip(1), e);
            }
        } else if l == seq!['c', 'i', 'r', 'c', 'l', 'e'] {
            if data_line_fault(ls, i, 4) is None {
                lemma_parse_excl(ls, i + 2, s.skip(1), e);
            }
        } else if l == seq!['h', 'e', 'r', 'm', 'i', 't', 'e'] {
            if data_line_fault(ls, i, 8) is None {
                lemma_parse_excl(ls, i + 2, s.skip(1), e);
            }
        } else if l == seq!['b', 'e', 'z', 'i', 'e', 'r'] {
            if data_line_fault(ls, i, 8) is None {
                lemma_parse_excl(ls, i + 2, s.skip(1), e);
            }
        } else if l == seq!['b', 'o', 'x'] {
            if data_line_fault(ls, i, 6) is None {
                lemma_parse_excl(ls, i + 2, s.skip(1), e);
            }
        } else if l == seq!['s', 'p', 'h', 'e', 'r', 'e'] {
            if data_line_fault(ls, i, 4) is None {
                lemma_parse_excl(ls, i + 2, s.skip(1), e);
            }
        } else if l == seq!['t', 'o', 'r', 'u', 's'] {
            if data_line_fault(ls, i, 5) is None {
                lemma_parse_excl(ls, i + 2, s.skip(1), e);
            }
        } else if l == seq!['s', 'c', 'a', 'l', 'e'] {
            if data_line_fault(ls, i, 3) is None {
                lemma_parse_excl(ls, i + 2, s.skip(1), e);
            }
        } else if l == seq!['m', 'o', 'v', 'e'] {
            if data_line_fault(ls, i, 3) is None {
                lemma_parse_excl(ls, i + 2, s.skip(1), e);
            }
        } else if l == seq!['r', 'o', 't', 'a', 't', 'e'] {
            if i + 1 < ls.len() {
                lemma_parse_excl(ls, i + 2, s.skip(1), e);
            }
        } else if l == seq!['p', 'u', 's', 'h'] {
            lemma_parse_excl(ls, i + 1, s.skip(1), e);
        } else if l == seq!['p', 'o', 'p'] {
            lemma_parse_excl(ls, i + 1, s.skip(1), e);
        } else if l == seq!['s', 'a', 'v', 'e'] {
            if i + 1 < ls.len() {
                lemma_parse_excl(ls, i + 2, s.skip(1), e);
            }
        } else if l == seq!['d', 'i', 's', 'p', 'l', 'a', 'y'] {
            lemma_parse_excl(ls, i + 1, s.skip(1), e);
        }
    }
}

/// The continuation algebra of one parsed command: if the outcome from the
/// next position composes with the prefix, the outcome from here composes
/// with the prefix extended by this command.
proof fn lemma_cmd_step(
    ls: Seq<Seq<char>>,
    i: int,
    done: Seq<LocatedCmd>,
    lc: LocatedCmd,
    step: int,
)
    requires
        forall|r: Result<Seq<LocatedCmd>, ScriptError>|
            r is Err && #[trigger] parse_outcome(ls, i + step, r) ==> parse_outcome(ls, i, r),
        forall|s2: Seq<LocatedCmd>|
            #[trigger] parse_outcome(ls, i + step, Ok::<Seq<LocatedCmd>, ScriptError>(s2))
                ==> parse_outcome(ls, i, Ok(seq![lc] + s2)),
        forall|r: Result<Seq<LocatedCmd>, ScriptError>|
            #[trigger] parse_outcome(ls, i, r) ==> parse_outcome(ls, 0, prep(done, r)),
    ensures
        forall|r: Result<Seq<LocatedCmd>, ScriptError>|
            #[trigger] parse_outcome(ls, i + step, r) ==> parse_outcome(
                ls,
                0,
                prep(done.push(lc), r),
            ),
{
    assert forall|r: Result<Seq<LocatedCmd>, ScriptError>|
        #[trigger] parse_outcome(ls, i + step, r) implies parse_outcome(
        ls,
        0,
        prep(done.push(lc), r),
    ) by {
        if r is Ok {
            let s2 = r->Ok_0;
            assert(r == Ok::<Seq<LocatedCmd>, ScriptError>(s2));
            assert(parse_outcome(ls, i, Ok(seq![lc] + s2)));
            assert(parse_outcome(ls, 0, prep(done, Ok(seq![lc] + s2))));
            assert(done + (seq![lc] + s2) =~= done.push(lc) + s2);
            assert(prep(done, Ok(seq![lc] + s2)) == prep(done.push(lc), r));
        } else {
            assert(parse_outcome(ls, i, r));
            assert(parse_outcome(ls, 0, prep(done, r)));
            assert(prep(done, r) == prep(done.push(lc), r));
        }
    }
}

/// A fault found at position i is the whole parse's outcome.
proof fn lemma_ret_err(ls: Seq<Seq<char>>, i: int, done: Seq<LocatedCmd>, e: ScriptError)
    requires
        parse_outcome(ls, i, Err::<Seq<LocatedCmd>, ScriptError>(e)),
        forall|r: Result<Seq<LocatedCmd>, ScriptError>|
            #[trigger] parse_outcome(ls, i, r) ==> parse_outcome(ls, 0, prep(done, r)),
    ensures
        parse_outcome(ls, 0, Err::<Seq<LocatedCmd>, ScriptError>(e)),
{
    assert(parse_outcome(ls, 0, prep(done, Err::<Seq<LocatedCmd>, ScriptError>(e))));
    assert(prep(done, Err::<Seq<LocatedCmd>, ScriptError>(e)) == Err::<
        Seq<LocatedCmd>,
        ScriptError,
    >(e));
}

/// Whether the line is the `line` keyword.
fn is_kw_line(l: &Vec<char>) -> (r: bool)
    ensures
        r == (l@ == seq!['l', 'i', 'n', 'e']),
{
    let kw: Vec<char> = vec!['l', 'i', 'n', 'e'];
    proof {
        assert(kw@ =~= seq!['l', 'i', 'n', 'e']);
    }
    eq_chars(l, &kw)
}

/// Whether the line is the `circle` keyword.
fn is_kw_circle(l: &Vec<char>) -> (r: bool)
    ensures
        r == (l@ == seq!['c', 'i', 'r', 'c', 'l', 'e']),
{
    let kw: Vec<char> = vec!['c', 'i', 'r', 'c', 'l', 'e'];
    proof {
        assert(kw@ =~= seq!['c', 'i', 'r', 'c', 'l', 'e']);
    }
    eq_chars(l, &kw)
}

/// Whether the line is the `hermite` keyword.
fn is_kw_hermite(l: &Vec<char>) -> (r: bool)
    ensures
        r == (l@ == seq!['h', 'e', 'r', 'm', 'i', 't', 'e']),
{
    let kw: Vec<char> = vec!['h', 'e', 'r', 'm', 'i', 't', 'e'];
    proof {
        assert(kw@ =~= seq!['h', 'e', 'r', 'm', 'i', 't', 'e']);
    }
    eq_chars(l, &kw)
}

/// Whether the line is the `bezier` keyword.
fn is_kw_bezier(l: &Vec<char>) -> (r: bool)
    ensures
        r == (l@ == seq!['b', 'e', 'z', 'i', 'e', 'r']),
{
    let kw: Vec<char> = vec!['b', 'e', 'z', 'i', 'e', 'r'];
    proof {
        assert(kw@ =~= seq!['b', 'e', 'z', 'i', 'e', 'r']);
    }
    eq_chars(l, &kw)
}

/// Whether the line is the `box` keyword.
fn is_kw_boxkw(l: &Vec<char>) -> (r: bool)
    ensures
        r == (l@ == seq!['b', 'o', 'x']),
{
    let kw: Vec<char> = vec!['b', 'o', 'x'];
    proof {
        assert(kw@ =~= seq!['b', 'o', 'x']);
    }
    eq_chars(l, &kw)
}

/// Whether the line is the `sphere` keyword.
fn is_kw_sphere(l: &Vec<char>) -> (r: bool)
    ensures
        r == (l@ == seq!['s', 'p', 'h', 'e', 'r', 'e']),
{
    let kw: Vec<char> = vec!['s', 'p', 'h', 'e', 'r', 'e'];
    proof {
        assert(kw@ =~= seq!['s', 'p', 'h', 'e', 'r', 'e']);
    }
    eq_chars(l, &kw)
}

/// Whether the line is the `torus` keyword.
fn is_kw_torus(l: &Vec<char>) -> (r: bool)
    ensures
        r == (l@ == seq!['t', 'o', 'r', 'u', 's']),
{
    let kw: Vec<char> = vec!['t', 'o', 'r', 'u', 's'];
    proof {
        assert(kw@ =~= seq!['t', 'o', 'r', 'u', 's']);
    }
    eq_chars(l, &kw)
}

/// Whether the line is the `scale` keyword.
fn is_kw_scale(l: &Vec<char>) -> (r: bool)
    ensures
        r == (l@ == seq!['s', 'c', 'a', 'l', 'e']),
{
    let kw: Vec<char> = vec!['s', 'c', 'a', 'l', 'e'];
    proof {
        assert(kw@ =~= seq!['s', 'c', 'a', 'l', 'e']);
    }
    eq_chars(l, &kw)
}

/// Whether the line is the `move` keyword.
fn is_kw_mv(l: &Vec<char>) -> (r: bool)
    ensures
        r == (l@ == seq!['m', 'o', 'v', 'e']),
{
    let kw: Vec<char> = vec!['m', 'o', 'v', 'e'];
    proof {
        assert(kw@ =~= seq!['m', 'o', 'v', 'e']);
    }
    eq_chars(l, &kw)
}

/// Whether the line is the `rotate` keyword.
fn is_kw_rotate(l: &Vec<char>) -> (r: bool)
    ensures
        r == (l@ == seq!['r', 'o', 't', 'a', 't', 'e']),
{
    let kw: Vec<char> = vec!['r', 'o', 't', 'a', 't', 'e'];
    proof {
        assert(kw@ =~= seq!['r', 'o', 't', 'a', 't', 'e']);
    }
    eq_chars(l, &kw)
}

/// Whether the line is the `push` keyword.
fn is_kw_push(l: &Vec<char>) -> (r: bool)
    ensures
        r == (l@ == seq!['p', 'u', 's', 'h']),
{
    let kw: Vec<char> = vec!['p', 'u', 's', 'h'];
    proof {
        assert(kw@ =~= seq!['p', 'u', 's', 'h']);
    }
    eq_chars(l, &kw)
}

/// Whether the line is the `pop` keyword.
fn is_kw_pop(l: &Vec<char>) -> (r: bool)
    ensures
        r == (l@ == seq!['p', 'o', 'p']),
{
    let kw: Vec<char> = vec!['p', 'o', 'p'];
    proof {
        assert(kw@ =~= seq!['p', 'o', 'p']);
    }
    eq_chars(l, &kw)
}

/// Whether the line is the `save` keyword.
fn is_kw_save(l: &Vec<char>) -> (r: bool)
    ensures
        r == (l@ == seq!['s', 'a', 'v', 'e']),
{
    let kw: Vec<char> = vec!['s', 'a', 'v', 'e'];
    proof {
        assert(kw@ =~= seq!['s', 'a', 'v', 'e']);
    }
    eq_chars(l, &kw)
}

/// Whether the line is the `display` keyword.
fn is_kw_display(l: &Vec<char>) -> (r: bool)
    ensures
        r == (l@ == seq!['d', 'i', 's', 'p', 'l', 'a', 'y']),
{
    let kw: Vec<char> = vec!['d', 'i', 's', 'p', 'l', 'a', 'y'];
    proof {
        assert(kw@ =~= seq!['d', 'i', 's', 'p', 'l', 'a', 'y']);
    }
    eq_chars(l, &kw)
}

/// Whether the line is the given single character.
fn is_char(l: &Vec<char>, c: char) -> (r: bool)
    ensures
        r == (l@ == seq![c]),
{
    let kw: Vec<char> = vec![c];
    proof {
        assert(kw@ =~= seq![c]);
    }
    eq_chars(l, &kw)
}

/// Parse a whole script into located commands: each keyword line, with its
/// data line's fields read as fixed-point decimals, becomes one command;
/// blank lines and lines starting with a backslash or a hash are dropped.
/// The result is exactly the parse outcome of the lines: the command list
/// in script order on success, the first fault with its line otherwise.
#[verifier::rlimit(100)]
pub fn parse_script(lines: &Vec<Vec<char>>) -> (res: Result<Vec<LocatedCmd>, ScriptError>)
    ensures
        res is Ok ==> parse_outcome(
            views_of(lines@),
            0,
            Ok::<Seq<LocatedCmd>, ScriptError>(res->Ok_0@),
        ),
        res is Err ==> parse_outcome(
            views_of(lines@),
            0,
            Err::<Seq<LocatedCmd>, ScriptError>(res->Err_0),
        ),
        res is Ok ==> forall|i: int|
            0 <= i < res->Ok_0@.len() ==> cmd_in_range(#[trigger] res->Ok_0@[i].cmd),
        res is Err ==> !(res->Err_0 matches ScriptError::Overflow { .. }),
{
    let ghost L = views_of(lines@);
    let mut out: Vec<LocatedCmd> = Vec::new();
    let n: usize = lines.len();
    let mut i: usize = 0;
    proof {
        assert forall|r: Result<Seq<LocatedCmd>, ScriptError>|
            #[trigger] parse_outcome(L, 0, r) implies parse_outcome(L, 0, prep(out@, r)) by {
            if r is Ok {
                assert(out@ + r->Ok_0 =~= r->Ok_0);
                assert(prep(out@, r) == r);
            } else {
                assert(prep(out@, r) == r);
            }
        }
    }
    while i < n
        invariant
            i <= n,
            n == lines@.len(),
            L == views_of(lines@),
            forall|j: int| 0 <= j < out@.len() ==> cmd_in_range(#[trigger] out@[j].cmd),
            forall|r: Result<Seq<LocatedCmd>, ScriptError>|
                #[trigger] parse_outcome(L, i as int, r) ==> parse_outcome(L, 0, prep(out@, r)),
        decreases n - i,
    {
        let line: &Vec<char> = &lines[i];
        proof {
            assert(L[i as int] == line@);
        }
        if line.len() == 0 || line[0] == '\\' || line[0] == '#' {
            proof {
                assert(line_is_skip(L[i as int]));
                assert forall|r: Result<Seq<LocatedCmd>, ScriptError>|
                    #[trigger] parse_outcome(L, i as int + 1, r) implies parse_outcome(
                    L,
                    0,
                    prep(out@, r),
                ) by {
                    assert(parse_outcome(L, i as int, r));
                }
            }
            i = i + 1;
        } else if is_kw_line(line) {
            let dline = match getline_or_error(lines, i + 1) {
                Ok(l) => l,
                Err(e) => {{
                    proof {{
                        assert(parse_outcome(L, i as int, Err::<Seq<LocatedCmd>, ScriptError>(e)));
                        lemma_ret_err(L, i as int, out@, e);
                    }}
                    return Err(e);
                }},
            };
            let v = match parse_fields(dline, 6, i + 1) {
                Ok(v) => v,
                Err(e) => {
                    proof {
                        assert(L[i as int + 1] == dline@);
                        assert(parse_outcome(L, i as int, Err::<Seq<LocatedCmd>, ScriptError>(e)));
                        lemma_ret_err(L, i as int, out@, e);
                    }
                    return Err(e);
                },
            };
            let lc = LocatedCmd { line: i, cmd: Cmd::Line { a: Point { x: v[0], y: v[1], z: v[2] }, b: Point { x: v[3], y: v[4], z: v[5] } } };
            proof {
                let d = L[i as int + 1];
                assert(d == dline@);
                assert(data_line_fault(L, i as int, 6) is None);
                assert(lc.cmd == Cmd::Line { a: Point { x: fv(d, 0), y: fv(d, 1), z: fv(d, 2) }, b: Point { x: fv(d, 3), y: fv(d, 4), z: fv(d, 5) } });
                assert(cmd_in_range(lc.cmd));
                assert forall|s2: Seq<LocatedCmd>|
                    #[trigger] parse_outcome(L, i as int + 2, Ok::<Seq<LocatedCmd>, ScriptError>(
                        s2,
                    )) implies parse_outcome(L, i as int, Ok(seq![lc] + s2)) by {
                    let r2 = seq![lc] + s2;
                    assert(r2.skip(1) =~= s2);
                    assert(Ok::<Seq<LocatedCmd>, ScriptError>(r2.skip(1)) == Ok::<
                        Seq<LocatedCmd>,
                        ScriptError,
                    >(s2));
                    assert(r2[0] == lc);
                }
                assert forall|r: Result<Seq<LocatedCmd>, ScriptError>|
                    r is Err && #[trigger] parse_outcome(L, i as int + 2, r) implies parse_outcome(
                    L,
                    i as int,
                    r,
                ) by {}
                lemma_cmd_step(L, i as int, out@, lc, 2);
            }
            out.push(lc);
            i = i + 2;
        } else if is_kw_circle(line) {
            let dline = match getline_or_error(lines, i + 1) {
                Ok(l) => l,
                Err(e) => {{
                    proof {{
                        assert(parse_outcome(L, i as int, Err::<Seq<LocatedCmd>, ScriptError>(e)));
                        lemma_ret_err(L, i as int, out@, e);
                    }}
                    return Err(e);
                }},
            };
            let v = match parse_fields(dline, 4, i + 1) {
                Ok(v) => v,
                Err(e) => {
                    proof {
                        assert(L[i as int + 1] == dline@);
                        assert(parse_outcome(L, i as int, Err::<Seq<LocatedCmd>, ScriptError>(e)));
                        lemma_ret_err(L, i as int, out@, e);
                    }
                    return Err(e);
                },
            };
            let lc = LocatedCmd { line: i, cmd: Cmd::Circle { cx: v[0], cy: v[1], cz: v[2], r: v[3] } };
            proof {
                let d = L[i as int + 1];
                assert(d == dline@);
                assert(data_line_fault(L, i as int, 4) is None);
                assert(lc.cmd == Cmd::Circle { cx: fv(d, 0), cy: fv(d, 1), cz: fv(d, 2), r: fv(d, 3) });
                assert(cmd_in_range(lc.cmd));
                assert forall|s2: Seq<LocatedCmd>|
                    #[trigger] parse_outcome(L, i as int + 2, Ok::<Seq<LocatedCmd>, ScriptError>(
                        s2,
                    )) implies parse_outcome(L, i as int, Ok(seq![lc] + s2)) by {
                    let r2 = seq![lc] + s2;
                    assert(r2.skip(1) =~= s2);
                    assert(Ok::<Seq<LocatedCmd>, ScriptError>(r2.skip(1)) == Ok::<
                        Seq<LocatedCmd>,
                        ScriptError,
                    >(s2));
                    assert(r2[0] == lc);
                }
                assert forall|r: Result<Seq<LocatedCmd>, ScriptError>|
                    r is Err && #[trigger] parse_outcome(L, i as int + 2, r) implies parse_outcome(
                    L,
                    i as int,
                    r,
                ) by {}
                lemma_cmd_step(L, i as int, out@, lc, 2);
            }
            out.push(lc);
            i = i + 2;
        } else if is_kw_hermite(line) {
            let dline = match getline_or_error(lines, i + 1) {
                Ok(l) => l,
                Err(e) => {{
                    proof {{
                        assert(parse_outcome(L, i as int, Err::<Seq<LocatedCmd>, ScriptError>(e)));
                        lemma_ret_err(L, i as int, out@, e);
                    }}
                    return Err(e);
                }},
            };
            let v = match parse_fields(dline, 8, i + 1) {
                Ok(v) => v,
                Err(e) => {
                    proof {
                        assert(L[i as int + 1] == dline@);
                        assert(parse_outcome(L, i as int, Err::<Seq<LocatedCmd>, ScriptError>(e)));
                        lemma_ret_err(L, i as int, out@, e);
                    }
                    return Err(e);
                },
            };
            let lc = LocatedCmd { line: i, cmd: Cmd::Hermite { p0: (v[0], v[1]), p1: (v[2], v[3]), r0: (v[4], v[5]), r1: (v[6], v[7]) } };
            proof {
                let d = L[i as int + 1];
                assert(d == dline@);
                assert(data_line_fault(L, i as int, 8) is None);
                assert(lc.cmd == Cmd::Hermite { p0: (fv(d, 0), fv(d, 1)), p1: (fv(d, 2), fv(d, 3)), r0: (fv(d, 4), fv(d, 5)), r1: (fv(d, 6), fv(d, 7)) });
                assert(cmd_in_range(lc.cmd));
                assert forall|s2: Seq<LocatedCmd>|
                    #[trigger] parse_outcome(L, i as int + 2, Ok::<Seq<LocatedCmd>, ScriptError>(
                        s2,
                    )) implies parse_outcome(L, i as int, Ok(seq![lc] + s2)) by {
                    let r2 = seq![lc] + s2;
                    assert(r2.skip(1) =~= s2);
                    assert(Ok::<Seq<LocatedCmd>, ScriptError>(r2.skip(1)) == Ok::<
                        Seq<LocatedCmd>,
                        ScriptError,
                    >(s2));
                    assert(r2[0] == lc);
                }
                assert forall|r: Result<Seq<LocatedCmd>, ScriptError>|
                    r is Err && #[trigger] parse_outcome(L, i as int + 2, r) implies parse_outcome(
                    L,
                    i as int,
                    r,
                ) by {}
                lemma_cmd_step(L, i as int, out@, lc, 2);
            }
            out.push(lc);
            i = i + 2;
        } else if is_kw_bezier(line) {
            let dline = match getline_or_error(lines, i + 1) {
                Ok(l) => l,
                Err(e) => {{
                    proof {{
                        assert(parse_outcome(L, i as int, Err::<Seq<LocatedCmd>, ScriptError>(e)));
                        lemma_ret_err(L, i as int, out@, e);
                    }}
                    return Err(e);
                }},
            };
            let v = match parse_fields(dline, 8, i + 1) {
                Ok(v) => v,
                Err(e) => {
                    proof {
                        assert(L[i as int + 1] == dline@);
                        assert(parse_outcome(L, i as int, Err::<Seq<LocatedCmd>, ScriptError>(e)));
                        lemma_ret_err(L, i as int, out@, e);
                    }
                    return Err(e);
                },
            };
            let lc = LocatedCmd { line: i, cmd: Cmd::Bezier { p0: (v[0], v[1]), p1: (v[2], v[3]), p2: (v[4], v[5]), p3: (v[6], v[7]) } };
            proof {
                let d = L[i as int + 1];
                assert(d == dline@);
                assert(data_line_fault(L, i as int, 8) is None);
                assert(lc.cmd == Cmd::Bezier { p0: (fv(d, 0), fv(d, 1)), p1: (fv(d, 2), fv(d, 3)), p2: (fv(d, 4), fv(d, 5)), p3: (fv(d, 6), fv(d, 7)) });
                assert(cmd_in_range(lc.cmd));
                assert forall|s2: Seq<LocatedCmd>|
                    #[trigger] parse_outcome(L, i as int + 2, Ok::<Seq<LocatedCmd>, ScriptError>(
                        s2,
                    )) implies parse_outcome(L, i as int, Ok(seq![lc] + s2)) by {
                    let r2 = seq![lc] + s2;
                    assert(r2.skip(1) =~= s2);
                    assert(Ok::<Seq<LocatedCmd>, ScriptError>(r2.skip(1)) == Ok::<
                        Seq<LocatedCmd>,
                        ScriptError,
                    >(s2));
                    assert(r2[0] == lc);
                }
                assert forall|r: Result<Seq<LocatedCmd>, ScriptError>|
                    r is Err && #[trigger] parse_outcome(L, i as int + 2, r) implies parse_outcome(
                    L,
                    i as int,
                    r,
                ) by {}
                lemma_cmd_step(L, i as int, out@, lc, 2);
            }
            out.push(lc);
            i = i + 2;
        } else if is_kw_boxkw(line) {
            let dline = match getline_or_error(lines, i + 1) {
                Ok(l) => l,
                Err(e) => {{
                    proof {{
                        assert(parse_outcome(L, i as int, Err::<Seq<LocatedCmd>, ScriptError>(e)));
                        lemma_ret_err(L, i as int, out@, e);
                    }}
                    return Err(e);
                }},
            };
            let v = match parse_fields(dline, 6, i + 1) {
                Ok(v) => v,
                Err(e) => {
                    proof {
                        assert(L[i as int + 1] == dline@);
                        assert(parse_outcome(L, i as int, Err::<Seq<LocatedCmd>, ScriptError>(e)));
                        lemma_ret_err(L, i as int, out@, e);
                    }
                    return Err(e);
                },
            };
            let lc = LocatedCmd { line: i, cmd: Cmd::BoxShape { x: v[0], y: v[1], z: v[2], w: v[3], h: v[4], d: v[5] } };
            proof {
                let d = L[i as int + 1];
                assert(d == dline@);
                assert(data_line_fault(L, i as int, 6) is None);
                assert(lc.cmd == Cmd::BoxShape { x: fv(d, 0), y: fv(d, 1), z: fv(d, 2), w: fv(d, 3), h: fv(d, 4), d: fv(d, 5) });
                assert(cmd_in_range(lc.cmd));
                assert forall|s2: Seq<LocatedCmd>|
                    #[trigger] parse_outcome(L, i as int + 2, Ok::<Seq<LocatedCmd>, ScriptError>(
                        s2,
                    )) implies parse_outcome(L, i as int, Ok(seq![lc] + s2)) by {
                    let r2 = seq![lc] + s2;
                    assert(r2.skip(1) =~= s2);
                    assert(Ok::<Seq<LocatedCmd>, ScriptError>(r2.skip(1)) == Ok::<
                        Seq<LocatedCmd>,
                        ScriptError,
                    >(s2));
                    assert(r2[0] == lc);
                }
                assert forall|r: Result<Seq<LocatedCmd>, ScriptError>|
                    r is Err && #[trigger] parse_outcome(L, i as int + 2, r) implies parse_outcome(
                    L,
                    i as int,
                    r,
                ) by {}
                lemma_cmd_step(L, i as int, out@, lc, 2);
            }
            out.push(lc);
            i = i + 2;
        } else if is_kw_sphere(line) {
            let dline = match getline_or_error(lines, i + 1) {
                Ok(l) => l,
                Err(e) => {{
                    proof {{
                        assert(parse_outcome(L, i as int, Err::<Seq<LocatedCmd>, ScriptError>(e)));
                        lemma_ret_err(L, i as int, out@, e);
                    }}
                    return Err(e);
                }},
            };
            let v = match parse_fields(dline, 4, i + 1) {
                Ok(v) => v,
                Err(e) => {
                    proof {
                        assert(L[i as int + 1] == dline@);
                        assert(parse_outcome(L, i as int, Err::<Seq<LocatedCmd>, ScriptError>(e)));
                        lemma_ret_err(L, i as int, out@, e);
                    }
                    return Err(e);
                },
            };
            let lc = LocatedCmd { line: i, cmd: Cmd::Sphere { cx: v[0], cy: v[1], cz: v[2], r: v[3] } };
            proof {
                let d = L[i as int + 1];
                assert(d == dline@);
                assert(data_line_fault(L, i as int, 4) is None);
                assert(lc.cmd == Cmd::Sphere { cx: fv(d, 0), cy: fv(d, 1), cz: fv(d, 2), r: fv(d, 3) });
                assert(cmd_in_range(lc.cmd));
                assert forall|s2: Seq<LocatedCmd>|
                    #[trigger] parse_outcome(L, i as int + 2, Ok::<Seq<LocatedCmd>, ScriptError>(
                        s2,
                    )) implies parse_outcome(L, i as int, Ok(seq![lc] + s2)) by {
                    let r2 = seq![lc] + s2;
                    assert(r2.skip(1) =~= s2);
                    assert(Ok::<Seq<LocatedCmd>, ScriptError>(r2.skip(1)) == Ok::<
                        Seq<LocatedCmd>,
                        ScriptError,
                    >(s2));
                    assert(r2[0] == lc);
                }
                assert forall|r: Result<Seq<LocatedCmd>, ScriptError>|
                    r is Err && #[trigger] parse_outcome(L, i as int + 2, r) implies parse_outcome(
                    L,
                    i as int,
                    r,
                ) by {}
                lemma_cmd_step(L, i as int, out@, lc, 2);
            }
            out.push(lc);
            i = i + 2;
        } else if is_kw_torus(line) {
            let dline = match getline_or_error(lines, i + 1) {
                Ok(l) => l,
                Err(e) => {{
                    proof {{
                        assert(parse_outcome(L, i as int, Err::<Seq<LocatedCmd>, ScriptError>(e)));
                        lemma_ret_err(L, i as int, out@, e);
                    }}
                    return Err(e);
                }},
            };
            let v = match parse_fields(dline, 5, i + 1) {
                Ok(v) => v,
                Err(e) => {
                    proof {
                        assert(L[i as int + 1] == dline@);
                        assert(parse_outcome(L, i as int, Err::<Seq<LocatedCmd>, ScriptError>(e)));
                        lemma_ret_err(L, i as int, out@, e);
                    }
                    return Err(e);
                },
            };
            let lc = LocatedCmd { line: i, cmd: Cmd::Torus { cx: v[0], cy: v[1], cz: v[2], r1: v[3], r2: v[4] } };
            proof {
                let d = L[i as int + 1];
                assert(d == dline@);
                assert(data_line_fault(L, i as int, 5) is None);
                assert(lc.cmd == Cmd::Torus { cx: fv(d, 0), cy: fv(d, 1), cz: fv(d, 2), r1: fv(d, 3), r2: fv(d, 4) });
                assert(cmd_in_range(lc.cmd));
                assert forall|s2: Seq<LocatedCmd>|
                    #[trigger] parse_outcome(L, i as int + 2, Ok::<Seq<LocatedCmd>, ScriptError>(
                        s2,
                    )) implies parse_outcome(L, i as int, Ok(seq![lc] + s2)) by {
                    let r2 = seq![lc] + s2;
                    assert(r2.skip(1) =~= s2);
                    assert(Ok::<Seq<LocatedCmd>, ScriptError>(r2.skip(1)) == Ok::<
                        Seq<LocatedCmd>,
                        ScriptError,
                    >(s2));
                    assert(r2[0] == lc);
                }
                assert forall|r: Result<Seq<LocatedCmd>, ScriptError>|
                    r is Err && #[trigger] parse_outcome(L, i as int + 2, r) implies parse_outcome(
                    L,
                    i as int,
                    r,
                ) by {}
                lemma_cmd_step(L, i as int, out@, lc, 2);
            }
            out.push(lc);
            i = i + 2;
        } else if is_kw_scale(line) {
            let dline = match getline_or_error(lines, i + 1) {
                Ok(l) => l,
                Err(e) => {{
                    proof {{
                        assert(parse_outcome(L, i as int, Err::<Seq<LocatedCmd>, ScriptError>(e)));
                        lemma_ret_err(L, i as int, out@, e);
                    }}
                    return Err(e);
                }},
            };
            let v = match parse_fields(dline, 3, i + 1) {
                Ok(v) => v,
                Err(e) => {
                    proof {
                        assert(L[i as int + 1] == dline@);
                        assert(parse_outcome(L, i as int, Err::<Seq<LocatedCmd>, ScriptError>(e)));
                        lemma_ret_err(L, i as int, out@, e);
                    }
                    return Err(e);
                },
            };
            let lc = LocatedCmd { line: i, cmd: Cmd::Scale { x: v[0], y: v[1], z: v[2] } };
            proof {
                let d = L[i as int + 1];
                assert(d == dline@);
                assert(data_line_fault(L, i as int, 3) is None);
                assert(lc.cmd == Cmd::Scale { x: fv(d, 0), y: fv(d, 1), z: fv(d, 2) });
                assert(cmd_in_range(lc.cmd));
                assert forall|s2: Seq<LocatedCmd>|
                    #[trigger] parse_outcome(L, i as int + 2, Ok::<Seq<LocatedCmd>, ScriptError>(
                        s2,
                    )) implies parse_outcome(L, i as int, Ok(seq![lc] + s2)) by {
                    let r2 = seq![lc] + s2;
                    assert(r2.skip(1) =~= s2);
                    assert(Ok::<Seq<LocatedCmd>, ScriptError>(r2.skip(1)) == Ok::<
                        Seq<LocatedCmd>,
                        ScriptError,
                    >(s2));
                    assert(r2[0] == lc);
                }
                assert forall|r: Result<Seq<LocatedCmd>, ScriptError>|
                    r is Err && #[trigger] parse_outcome(L, i as int + 2, r) implies parse_outcome(
                    L,
                    i as int,
                    r,
                ) by {}
                lemma_cmd_step(L, i as int, out@, lc, 2);
            }
            out.push(lc);
            i = i + 2;
        } else if is_kw_mv(line) {
            let dline = match getline_or_error(lines, i + 1) {
                Ok(l) => l,
                Err(e) => {{
                    proof {{
                        assert(parse_outcome(L, i as int, Err::<Seq<LocatedCmd>, ScriptError>(e)));
                        lemma_ret_err(L, i as int, out@, e);
                    }}
                    return Err(e);
                }},
            };
            let v = match parse_fields(dline, 3, i + 1) {
                Ok(v) => v,
                Err(e) => {
                    proof {
                        assert(L[i as int + 1] == dline@);
                        assert(parse_outcome(L, i as int, Err::<Seq<LocatedCmd>, ScriptError>(e)));
                        lemma_ret_err(L, i as int, out@, e);
                    }
                    return Err(e);
                },
            };
            let lc = LocatedCmd { line: i, cmd: Cmd::Move { x: v[0], y: v[1], z: v[2] } };
            proof {
                let d = L[i as int + 1];
                assert(d == dline@);
                assert(data_line_fault(L, i as int, 3) is None);
                assert(lc.cmd == Cmd::Move { x: fv(d, 0), y: fv(d, 1), z: fv(d, 2) });
                assert(cmd_in_range(lc.cmd));
                assert forall|s2: Seq<LocatedCmd>|
                    #[trigger] parse_outcome(L, i as int + 2, Ok::<Seq<LocatedCmd>, ScriptError>(
                        s2,
                    )) implies parse_outcome(L, i as int, Ok(seq![lc] + s2)) by {
                    let r2 = seq![lc] + s2;
                    assert(r2.skip(1) =~= s2);
                    assert(Ok::<Seq<LocatedCmd>, ScriptError>(r2.skip(1)) == Ok::<
                        Seq<LocatedCmd>,
                        ScriptError,
                    >(s2));
                    assert(r2[0] == lc);
                }
                assert forall|r: Result<Seq<LocatedCmd>, ScriptError>|
                    r is Err && #[trigger] parse_outcome(L, i as int + 2, r) implies parse_outcome(
                    L,
                    i as int,
                    r,
                ) by {}
                lemma_cmd_step(L, i as int, out@, lc, 2);
            }
            out.push(lc);
            i = i + 2;
        } else if is_kw_rotate(line) {
            let dline = match getline_or_error(lines, i + 1) {
                Ok(l) => l,
                Err(e) => {{
                    proof {{
                        assert(parse_outcome(L, i as int, Err::<Seq<LocatedCmd>, ScriptError>(e)));
                        lemma_ret_err(L, i as int, out@, e);
                    }}
                    return Err(e);
                }},
            };
            proof {
                assert(L[i as int + 1] == dline@);
            }
            let toks = split_tokens(dline);
            if toks.len() != 2 {
                let e = ScriptError::WrongFieldCount { line: i + 1 };
                proof {
                    assert(tokens_of(L[i as int + 1]).len() != 2);
                    assert(parse_outcome(L, i as int, Err::<Seq<LocatedCmd>, ScriptError>(e)));
                    lemma_ret_err(L, i as int, out@, e);
                }
                return Err(e);
            }
            proof {
                assert(toks@[1]@ == tokens_of(L[i as int + 1])[1]);
                assert(toks@[0]@ == tokens_of(L[i as int + 1])[0]);
            }
            let deg: i64 = match parse_fx(&toks[1]) {
                Some(v) => v,
                None => {
                    let e = ScriptError::BadNumber { line: i + 1 };
                    proof {
                        assert(!field_ok(L[i as int + 1], 1));
                        assert(parse_outcome(L, i as int, Err::<Seq<LocatedCmd>, ScriptError>(e)));
                        lemma_ret_err(L, i as int, out@, e);
                    }
                    return Err(e);
                },
            };
            let axis: Axis;
            if is_char(&toks[0], 'x') {
                axis = Axis::X;
            } else if is_char(&toks[0], 'y') {
                axis = Axis::Y;
            } else if is_char(&toks[0], 'z') {
                axis = Axis::Z;
            } else {
                let e = ScriptError::UnknownAxis { line: i + 1 };
                proof {
                    assert(parse_outcome(L, i as int, Err::<Seq<LocatedCmd>, ScriptError>(e)));
                    lemma_ret_err(L, i as int, out@, e);
                }
                return Err(e);
            }
            let lc = LocatedCmd { line: i, cmd: Cmd::Rotate { axis, deg } };
            proof {
                let d = L[i as int + 1];
                assert(lc.cmd == Cmd::Rotate { axis, deg: fv(d, 1) });
                assert(cmd_in_range(lc.cmd));
                assert forall|s2: Seq<LocatedCmd>|
                    #[trigger] parse_outcome(L, i as int + 2, Ok::<Seq<LocatedCmd>, ScriptError>(
                        s2,
                    )) implies parse_outcome(L, i as int, Ok(seq![lc] + s2)) by {
                    let r2 = seq![lc] + s2;
                    assert(r2.skip(1) =~= s2);
                    assert(Ok::<Seq<LocatedCmd>, ScriptError>(r2.skip(1)) == Ok::<
                        Seq<LocatedCmd>,
                        ScriptError,
                    >(s2));
                    assert(r2[0] == lc);
                }
                assert forall|r: Result<Seq<LocatedCmd>, ScriptError>|
                    r is Err && #[trigger] parse_outcome(L, i as int + 2, r) implies parse_outcome(
                    L,
                    i as int,
                    r,
                ) by {}
                lemma_cmd_step(L, i as int, out@, lc, 2);
            }
            out.push(lc);
            i = i + 2;
        } else if is_kw_push(line) {
            let lc = LocatedCmd { line: i, cmd: Cmd::Push };
            proof {
                assert forall|s2: Seq<LocatedCmd>|
                    #[trigger] parse_outcome(L, i as int + 1, Ok::<Seq<LocatedCmd>, ScriptError>(
                        s2,
                    )) implies parse_outcome(L, i as int, Ok(seq![lc] + s2)) by {
                    let r2 = seq![lc] + s2;
                    assert(r2.skip(1) =~= s2);
                    assert(Ok::<Seq<LocatedCmd>, ScriptError>(r2.skip(1)) == Ok::<
                        Seq<LocatedCmd>,
                        ScriptError,
                    >(s2));
                    assert(r2[0] == lc);
                }
                assert forall|r: Result<Seq<LocatedCmd>, ScriptError>|
                    r is Err && #[trigger] parse_outcome(L, i as int + 1, r) implies parse_outcome(
                    L,
                    i as int,
                    r,
                ) by {}
                lemma_cmd_step(L, i as int, out@, lc, 1);
            }
            out.push(lc);
            i = i + 1;
        } else if is_kw_pop(line) {
            let lc = LocatedCmd { line: i, cmd: Cmd::Pop };
            proof {
                assert forall|s2: Seq<LocatedCmd>|
                    #[trigger] parse_outcome(L, i as int + 1, Ok::<Seq<LocatedCmd>, ScriptError>(
                        s2,
                    )) implies parse_outcome(L, i as int, Ok(seq![lc] + s2)) by {
                    let r2 = seq![lc] + s2;
                    assert(r2.skip(1) =~= s2);
                    assert(Ok::<Seq<LocatedCmd>, ScriptError>(r2.skip(1)) == Ok::<
                        Seq<LocatedCmd>,
                        ScriptError,
                    >(s2));
                    assert(r2[0] == lc);
                }
                assert forall|r: Result<Seq<LocatedCmd>, ScriptError>|
                    r is Err && #[trigger] parse_outcome(L, i as int + 1, r) implies parse_outcome(
                    L,
                    i as int,
                    r,
                ) by {}
                lemma_cmd_step(L, i as int, out@, lc, 1);
            }
            out.push(lc);
            i = i + 1;
        } else if is_kw_save(line) {
            let dline = match getline_or_error(lines, i + 1) {
                Ok(l) => l,
                Err(e) => {{
                    proof {{
                        assert(parse_outcome(L, i as int, Err::<Seq<LocatedCmd>, ScriptError>(e)));
                        lemma_ret_err(L, i as int, out@, e);
                    }}
                    return Err(e);
                }},
            };
            let name: Vec<char> = dline.clone();
            proof {
                assert forall|j: int| 0 <= j < name@.len() implies name@[j] == dline@[j] by {
                    assert(vstd::pervasive::cloned::<char>(dline[j], name[j]));
                }
                assert(name@ =~= dline@);
                assert(name@ == L[i as int + 1]);
            }
            let lc = LocatedCmd { line: i, cmd: Cmd::Save { name } };
            proof {
                assert(lc.cmd matches Cmd::Save { name } && name@ == L[i as int + 1]);
                assert forall|s2: Seq<LocatedCmd>|
                    #[trigger] parse_outcome(L, i as int + 2, Ok::<Seq<LocatedCmd>, ScriptError>(
                        s2,
                    )) implies parse_outcome(L, i as int, Ok(seq![lc] + s2)) by {
                    let r2 = seq![lc] + s2;
                    assert(r2.skip(1) =~= s2);
                    assert(Ok::<Seq<LocatedCmd>, ScriptError>(r2.skip(1)) == Ok::<
                        Seq<LocatedCmd>,
                        ScriptError,
                    >(s2));
                    assert(r2[0] == lc);
                }
                assert forall|r: Result<Seq<LocatedCmd>, ScriptError>|
                    r is Err && #[trigger] parse_outcome(L, i as int + 2, r) implies parse_outcome(
                    L,
                    i as int,
                    r,
                ) by {}
                lemma_cmd_step(L, i as int, out@, lc, 2);
            }
            out.push(lc);
            i = i + 2;
        } else if is_kw_display(line) {
            let lc = LocatedCmd { line: i, cmd: Cmd::Display };
            proof {
                assert forall|s2: Seq<LocatedCmd>|
                    #[trigger] parse_outcome(L, i as int + 1, Ok::<Seq<LocatedCmd>, ScriptError>(
                        s2,
                    )) implies parse_outcome(L, i as int, Ok(seq![lc] + s2)) by {
                    let r2 = seq![lc] + s2;
                    assert(r2.skip(1) =~= s2);
                    assert(Ok::<Seq<LocatedCmd>, ScriptError>(r2.skip(1)) == Ok::<
                        Seq<LocatedCmd>,
                        ScriptError,
                    >(s2));
                    assert(r2[0] == lc);
                }
                assert forall|r: Result<Seq<LocatedCmd>, ScriptError>|
                    r is Err && #[trigger] parse_outcome(L, i as int + 1, r) implies parse_outcome(
                    L,
                    i as int,
                    r,
                ) by {}
                lemma_cmd_step(L, i as int, out@, lc, 1);
            }
            out.push(lc);
            i = i + 1;
        } else {
            let e = ScriptError::UnknownCommand { line: i };
            proof {
                assert(parse_outcome(L, i as int, Err::<Seq<LocatedCmd>, ScriptError>(e)));
                lemma_ret_err(L, i as int, out@, e);
            }
            return Err(e);
        }
    }
    proof {
        assert(parse_outcome(L, n as int, Ok::<Seq<LocatedCmd>, ScriptError>(Seq::empty())));
        assert(out@ + Seq::<LocatedCmd>::empty() =~= out@);
        assert(prep(out@, Ok(Seq::empty())) == Ok::<Seq<LocatedCmd>, ScriptError>(out@));
        assert(parse_outcome(L, 0, Ok::<Seq<LocatedCmd>, ScriptError>(out@)));
    }
    Ok(out)
}

impl<C: Canvas> DWScript<C> {
    /// Execute parsed commands strictly in order. On success the new stack
    /// and plot record are reached from the old ones by the command state
    /// machine's steps. The only fault is a fixed-point overflow: it is
    /// reported with the faulting command's line, it can only occur where
    /// that command's composed transform or a point it renders actually
    /// leaves the representable range at the state a prefix run reached,
    /// and it leaves the interpreter at exactly that prefix state. A run
    /// whose steps never fault is owed success.
    #[verifier::rlimit(100)]
    pub fn exec_cmds(&mut self, lcmds: &Vec<LocatedCmd>) -> (res: Result<(), ScriptError>)
        requires
            dw_wf(*old(self)),
            forall|i: int| 0 <= i < lcmds@.len() ==> cmd_in_range(#[trigger] lcmds@[i].cmd),
        ensures
            dw_wf(*final(self)),
            final(self).img.fg() == old(self).img.fg(),
            final(self).img.bg() == old(self).img.bg(),
            final(self).img.dim_w() == old(self).img.dim_w(),
            final(self).img.dim_h() == old(self).img.dim_h(),
            final(self).edges == old(self).edges,
            final(self).polygons == old(self).polygons,
            old(self).outputs@.is_prefix_of(final(self).outputs@),
            res is Ok ==> run_rel(
                old(self).stack@,
                old(self).img.events(),
                old(self).img.fg(),
                cmds_of(lcmds@),
                final(self).stack@,
                final(self).img.events(),
            ),
            res is Err ==> exists|k: int, stm: Seq<TransformMatrix>, evm: Seq<PlotEvent>|
                {
                    &&& 0 <= k < lcmds@.len()
                    &&& #[trigger] run_rel(
                        old(self).stack@,
                        old(self).img.events(),
                        old(self).img.fg(),
                        cmds_of(lcmds@).take(k),
                        stm,
                        evm,
                    )
                    &&& stm == final(self).stack@
                    &&& evm == final(self).img.events()
                    &&& !cmd_ok(cmds_of(lcmds@)[k], stm.last())
                    &&& res->Err_0 == (ScriptError::Overflow { line: lcmds@[k].line })
                },
            (forall|k: int, stm: Seq<TransformMatrix>, evm: Seq<PlotEvent>|
                0 <= k < lcmds@.len() && #[trigger] run_rel(
                    old(self).stack@,
                    old(self).img.events(),
                    old(self).img.fg(),
                    cmds_of(lcmds@).take(k),
                    stm,
                    evm,
                ) ==> cmd_ok(cmds_of(lcmds@)[k], stm.last())) ==> res is Ok,
            (forall|j: int| 0 <= j < lcmds@.len() ==> cmd_infallible(#[trigger] lcmds@[j].cmd))
                ==> res is Ok,
    {
        let ghost st0 = self.stack@;
        let ghost ev0 = self.img.events();
        let ghost fg = self.img.fg();
        let ghost cs = cmds_of(lcmds@);
        let n: usize = lcmds.len();
        let mut i: usize = 0;
        proof {
            assert(cs.skip(0) =~= cs);
            assert(cs.take(0) =~= Seq::<Cmd>::empty());
            assert(run_rel(st0, ev0, fg, cs.take(0), self.stack@, self.img.events()));
        }
        while i < n
            invariant
                dw_wf(*self),
                i <= n,
                n == lcmds@.len(),
                cs == cmds_of(lcmds@),
                forall|j: int| 0 <= j < lcmds@.len() ==> cmd_in_range(#[trigger] lcmds@[j].cmd),
                st0 == old(self).stack@,
                ev0 == old(self).img.events(),
                fg == old(self).img.fg(),
                self.img.fg() == fg,
                self.img.bg() == old(self).img.bg(),
                self.img.dim_w() == old(self).img.dim_w(),
                self.img.dim_h() == old(self).img.dim_h(),
                self.edges == old(self).edges,
                self.polygons == old(self).polygons,
                old(self).outputs@.is_prefix_of(self.outputs@),
                run_rel(st0, ev0, fg, cs.take(i as int), self.stack@, self.img.events()),
                forall|s2: Seq<TransformMatrix>, e2: Seq<crate::canvas::PlotEvent>|
                    run_rel(self.stack@, self.img.events(), fg, cs.skip(i as int), s2, e2)
                        ==> run_rel(st0, ev0, fg, cs, s2, e2),
            decreases n - i,
        {
            let ghost pre_st = self.stack@;
            let ghost pre_ev = self.img.events();
            let line_no: usize = lcmds[i].line;
            proof {
                assert(cs[i as int] == lcmds@[i as int].cmd);
                assert(cmd_in_range(lcmds@[i as int].cmd));
            }
            match &lcmds[i].cmd {
                Cmd::Line { a, b } => {
                    let mut m = GeometryMatrix::new_edge_matrix();
                    m.append_edge(*a, *b);
                    proof {
                        assert(m.pts@ =~= seq![*a, *b]);
                    }
                    match self.render_with_top_stack(&m) {
                        Ok(()) => {},
                        Err(_) => {
                            proof {
                                assert(lcmds@[i as int].line == line_no);
                                assert(!cmd_infallible(lcmds@[i as int].cmd));
                                assert(exists|ii: int|
                                    0 <= ii < m.pts@.len() && !crate::geom::apply_fits_s(
                                        pre_st.last(),
                                        #[trigger] m.pts@[ii],
                                    ));
                                let ii = choose|ii: int|
                                    0 <= ii < m.pts@.len() && !crate::geom::apply_fits_s(
                                        pre_st.last(),
                                        #[trigger] m.pts@[ii],
                                    );
                                assert(m.pts@[ii] == *a || m.pts@[ii] == *b);
                                assert(!cmd_ok(cs[i as int], pre_st.last()));
                                assert(self.img.events() == pre_ev);
                                assert(run_rel(st0, ev0, fg, cs.take(i as int), self.stack@,
                                    self.img.events()));
                            }
                            return Err(ScriptError::Overflow { line: line_no });
                        },
                    }
                    proof {
                        assert(step_rel(pre_st, pre_ev, fg, cs[i as int], self.stack@,
                            self.img.events()));
                    }
                },
                Cmd::Circle { cx, cy, cz, r } => {
                    let mut m = GeometryMatrix::new_edge_matrix();
                    m.add_circle(*cx, *cy, *cz, *r);
                    match self.render_with_top_stack(&m) {
                        Ok(()) => {},
                        Err(_) => {
                            proof {
                                assert(lcmds@[i as int].line == line_no);
                                assert(!cmd_infallible(lcmds@[i as int].cmd));
                                assert(exists|ii: int|
                                    0 <= ii < m.pts@.len() && !crate::geom::apply_fits_s(
                                        pre_st.last(),
                                        #[trigger] m.pts@[ii],
                                    ));
                                let ii = choose|ii: int|
                                    0 <= ii < m.pts@.len() && !crate::geom::apply_fits_s(
                                        pre_st.last(),
                                        #[trigger] m.pts@[ii],
                                    );
                                assert(circle_env(*cx as int, *cy as int, *cz as int,
                                    *r as int, m.pts@[ii]));
                                assert(!cmd_ok(cs[i as int], pre_st.last()));
                                assert(self.img.events() == pre_ev);
                                assert(run_rel(st0, ev0, fg, cs.take(i as int), self.stack@,
                                    self.img.events()));
                            }
                            return Err(ScriptError::Overflow { line: line_no });
                        },
                    }
                    proof {
                        assert(circle_pts_ok(*cx as int, *cy as int, *cz as int, *r as int, m.pts@));
                        assert(step_rel(pre_st, pre_ev, fg, cs[i as int], self.stack@,
                            self.img.events()));
                    }
                },
                Cmd::Hermite { p0, p1, r0, r1 } => {
                    let mut m = GeometryMatrix::new_edge_matrix();
                    match m.add_hermite3(*p0, *p1, *r0, *r1) {
                        Ok(()) => {},
                        Err(_) => {
                            proof {
                                assert(lcmds@[i as int].line == line_no);
                                assert(!cmd_infallible(lcmds@[i as int].cmd));
                                let kw = choose|k: int|
                                    0 <= k < 51 && !(#[trigger] crate::shapes::cubic_pt_ok_s(
                                        2 * p0.0 - 2 * p1.0 + r0.0 + r1.0,
                                        -3 * p0.0 + 3 * p1.0 - 2 * r0.0 - r1.0,
                                        r0.0 as int,
                                        p0.0 as int,
                                        2 * p0.1 - 2 * p1.1 + r0.1 + r1.1,
                                        -3 * p0.1 + 3 * p1.1 - 2 * r0.1 - r1.1,
                                        r0.1 as int,
                                        p0.1 as int,
                                        k,
                                    ));
                                assert(!hermite_step_ok(*p0, *p1, *r0, *r1, pre_st.last(), kw));
                                assert(cs[i as int] == Cmd::Hermite {
                                    p0: *p0,
                                    p1: *p1,
                                    r0: *r0,
                                    r1: *r1,
                                });
                                assert(!cmd_ok(cs[i as int], pre_st.last()));
                                assert(run_rel(st0, ev0, fg, cs.take(i as int), self.stack@,
                                    self.img.events()));
                            }
                            return Err(ScriptError::Overflow { line: line_no });
                        },
                    }
                    proof {
                        let ax = 2 * p0.0 - 2 * p1.0 + r0.0 + r1.0;
                        let bx = -3 * p0.0 + 3 * p1.0 - 2 * r0.0 - r1.0;
                        let ay = 2 * p0.1 - 2 * p1.1 + r0.1 + r1.1;
                        let by = -3 * p0.1 + 3 * p1.1 - 2 * r0.1 - r1.1;
                        let pts = m.pts@;
                        assert forall|k: int| 0 <= k < 50 implies #[trigger] pts[2 * k]
                            == crate::shapes::cubic_pt_s(ax, bx, r0.0 as int, p0.0 as int, ay, by,
                            r0.1 as int, p0.1 as int, k) && pts[2 * k + 1]
                            == crate::shapes::cubic_pt_s(ax, bx, r0.0 as int, p0.0 as int, ay, by,
                            r0.1 as int, p0.1 as int, k + 1) by {
                            assert(pts[0 + 2 * k] == crate::shapes::cubic_pt_s(ax, bx,
                                r0.0 as int, p0.0 as int, ay, by, r0.1 as int, p0.1 as int, k));
                            assert(pts[0 + 2 * k + 1] == crate::shapes::cubic_pt_s(ax, bx,
                                r0.0 as int, p0.0 as int, ay, by, r0.1 as int, p0.1 as int, k
                                + 1));
                        }
                        assert(pts.len() == 100);
                        assert forall|ii: int| 0 <= ii < pts.len() implies pt_in_range(
                            #[trigger] pts[ii],
                        ) by {}
                        assert(cubic_pts_ok(ax, bx, r0.0 as int, p0.0 as int, ay, by, r0.1 as int,
                            p0.1 as int, pts));
                    }
                    match self.render_with_top_stack(&m) {
                        Ok(()) => {},
                        Err(_) => {
                            proof {
                                assert(lcmds@[i as int].line == line_no);
                                assert(!cmd_infallible(lcmds@[i as int].cmd));
                                assert(exists|ii: int|
                                    0 <= ii < m.pts@.len() && !crate::geom::apply_fits_s(
                                        pre_st.last(),
                                        #[trigger] m.pts@[ii],
                                    ));
                                let ii = choose|ii: int|
                                    0 <= ii < m.pts@.len() && !crate::geom::apply_fits_s(
                                        pre_st.last(),
                                        #[trigger] m.pts@[ii],
                                    );
                                let ax = 2 * p0.0 - 2 * p1.0 + r0.0 + r1.0;
                                let bx = -3 * p0.0 + 3 * p1.0 - 2 * r0.0 - r1.0;
                                let ay = 2 * p0.1 - 2 * p1.1 + r0.1 + r1.1;
                                let by = -3 * p0.1 + 3 * p1.1 - 2 * r0.1 - r1.1;
                                let kk = ii / 2;
                                vstd::arithmetic::div_mod::lemma_fundamental_div_mod(ii, 2);
                                assert(0 <= kk < 50);
                                if ii % 2 == 0 {
                                    assert(m.pts@[2 * kk] == crate::shapes::cubic_pt_s(ax, bx, r0.0 as int, p0.0 as int, ay, by,
                                        r0.1 as int, p0.1 as int, kk));
                                    assert(!(crate::shapes::cubic_pt_ok_s(ax, bx, r0.0 as int, p0.0 as int, ay,
                                        by, r0.1 as int, p0.1 as int, kk) && crate::geom::apply_fits_s(
                                        pre_st.last(),
                                        crate::shapes::cubic_pt_s(ax, bx, r0.0 as int, p0.0 as int, ay, by,
                                        r0.1 as int, p0.1 as int, kk),
                                    )));
                                } else {
                                    assert(m.pts@[2 * kk] == crate::shapes::cubic_pt_s(ax, bx,
                                        r0.0 as int, p0.0 as int, ay, by, r0.1 as int,
                                        p0.1 as int, kk));
                                    assert(m.pts@[2 * kk + 1] == crate::shapes::cubic_pt_s(ax, bx, r0.0 as int, p0.0 as int, ay, by,
                                        r0.1 as int, p0.1 as int, kk + 1));
                                    assert(!(crate::shapes::cubic_pt_ok_s(ax, bx, r0.0 as int, p0.0 as int, ay,
                                        by, r0.1 as int, p0.1 as int, kk + 1)
                                        && crate::geom::apply_fits_s(
                                        pre_st.last(),
                                        crate::shapes::cubic_pt_s(ax, bx, r0.0 as int, p0.0 as int, ay, by,
                                        r0.1 as int, p0.1 as int, kk + 1),
                                    )));
                                }
                                assert(cs[i as int] == Cmd::Hermite {
                                    p0: *p0,
                                    p1: *p1,
                                    r0: *r0,
                                    r1: *r1,
                                });
                                if ii % 2 == 0 {
                                    assert(!hermite_step_ok(*p0, *p1, *r0, *r1, pre_st.last(),
                                        kk));
                                } else {
                                    assert(!hermite_step_ok(*p0, *p1, *r0, *r1, pre_st.last(),
                                        kk + 1));
                                }
                                assert(!cmd_ok(cs[i as int], pre_st.last()));
                                assert(self.img.events() == pre_ev);
                                assert(run_rel(st0, ev0, fg, cs.take(i as int), self.stack@,
                                    self.img.events()));
                            }
                            return Err(ScriptError::Overflow { line: line_no });
                        },
                    }
                    proof {
                        assert(step_rel(pre_st, pre_ev, fg, cs[i as int], self.stack@,
                            self.img.events()));
                    }
                },
                Cmd::Bezier { p0, p1, p2, p3 } => {
                    let mut m = GeometryMatrix::new_edge_matrix();
                    match m.add_bezier3(*p0, *p1, *p2, *p3) {
                        Ok(()) => {},
                        Err(_) => {
                            proof {
                                assert(lcmds@[i as int].line == line_no);
                                assert(!cmd_infallible(lcmds@[i as int].cmd));
                                let kw = choose|k: int|
                                    0 <= k < 51 && !(#[trigger] crate::shapes::cubic_pt_ok_s(
                                        -p0.0 + 3 * p1.0 - 3 * p2.0 + p3.0,
                                        3 * p0.0 - 6 * p1.0 + 3 * p2.0,
                                        -3 * p0.0 + 3 * p1.0,
                                        p0.0 as int,
                                        -p0.1 + 3 * p1.1 - 3 * p2.1 + p3.1,
                                        3 * p0.1 - 6 * p1.1 + 3 * p2.1,
                                        -3 * p0.1 + 3 * p1.1,
                                        p0.1 as int,
                                        k,
                                    ));
                                assert(!bezier_step_ok(*p0, *p1, *p2, *p3, pre_st.last(), kw));
                                assert(cs[i as int] == Cmd::Bezier {
                                    p0: *p0,
                                    p1: *p1,
                                    p2: *p2,
                                    p3: *p3,
                                });
                                assert(!cmd_ok(cs[i as int], pre_st.last()));
                                assert(run_rel(st0, ev0, fg, cs.take(i as int), self.stack@,
                                    self.img.events()));
                            }
                            return Err(ScriptError::Overflow { line: line_no });
                        },
                    }
                    proof {
                        let ax = -p0.0 + 3 * p1.0 - 3 * p2.0 + p3.0;
                        let bx = 3 * p0.0 - 6 * p1.0 + 3 * p2.0;
                        let cxx = -3 * p0.0 + 3 * p1.0;
                        let ay = -p0.1 + 3 * p1.1 - 3 * p2.1 + p3.1;
                        let by = 3 * p0.1 - 6 * p1.1 + 3 * p2.1;
                        let cyy = -3 * p0.1 + 3 * p1.1;
                        let pts = m.pts@;
                        assert forall|k: int| 0 <= k < 50 implies #[trigger] pts[2 * k]
                            == crate::shapes::cubic_pt_s(ax, bx, cxx, p0.0 as int, ay, by, cyy,
                            p0.1 as int, k) && pts[2 * k + 1] == crate::shapes::cubic_pt_s(ax, bx,
                            cxx, p0.0 as int, ay, by, cyy, p0.1 as int, k + 1) by {
                            assert(pts[0 + 2 * k] == crate::shapes::cubic_pt_s(ax, bx, cxx,
                                p0.0 as int, ay, by, cyy, p0.1 as int, k));
                            assert(pts[0 + 2 * k + 1] == crate::shapes::cubic_pt_s(ax, bx, cxx,
                                p0.0 as int, ay, by, cyy, p0.1 as int, k + 1));
                        }
                        assert(pts.len() == 100);
                        assert forall|ii: int| 0 <= ii < pts.len() implies pt_in_range(
                            #[trigger] pts[ii],
                        ) by {}
                        assert(cubic_pts_ok(ax, bx, cxx, p0.0 as int, ay, by, cyy, p0.1 as int,
                            pts));
                    }
                    match self.render_with_top_stack(&m) {
                        Ok(()) => {},
                        Err(_) => {
                            proof {
                                assert(lcmds@[i as int].line == line_no);
                                assert(!cmd_infallible(lcmds@[i as int].cmd));
                                assert(exists|ii: int|
                                    0 <= ii < m.pts@.len() && !crate::geom::apply_fits_s(
                                        pre_st.last(),
                                        #[trigger] m.pts@[ii],
                                    ));
                                let ii = choose|ii: int|
                                    0 <= ii < m.pts@.len() && !crate::geom::apply_fits_s(
                                        pre_st.last(),
                                        #[trigger] m.pts@[ii],
                                    );
                                let ax = -p0.0 + 3 * p1.0 - 3 * p2.0 + p3.0;
                                let bx = 3 * p0.0 - 6 * p1.0 + 3 * p2.0;
                                let cxx = -3 * p0.0 + 3 * p1.0;
                                let ay = -p0.1 + 3 * p1.1 - 3 * p2.1 + p3.1;
                                let by = 3 * p0.1 - 6 * p1.1 + 3 * p2.1;
                                let cyy = -3 * p0.1 + 3 * p1.1;
                                let kk = ii / 2;
                                vstd::arithmetic::div_mod::lemma_fundamental_div_mod(ii, 2);
                                assert(0 <= kk < 50);
                                if ii % 2 == 0 {
                                    assert(m.pts@[2 * kk] == crate::shapes::cubic_pt_s(ax, bx, cxx, p0.0 as int, ay, by, cyy,
                                        p0.1 as int, kk));
                                    assert(!(crate::shapes::cubic_pt_ok_s(ax, bx, cxx, p0.0 as int, ay, by, cyy,
                                        p0.1 as int, kk) && crate::geom::apply_fits_s(
                                        pre_st.last(),
                                        crate::shapes::cubic_pt_s(ax, bx, cxx, p0.0 as int, ay, by, cyy,
                                        p0.1 as int, kk),
                                    )));
                                } else {
                                    assert(m.pts@[2 * kk] == crate::shapes::cubic_pt_s(ax, bx,
                                        cxx, p0.0 as int, ay, by, cyy, p0.1 as int, kk));
                                    assert(m.pts@[2 * kk + 1] == crate::shapes::cubic_pt_s(ax, bx, cxx, p0.0 as int, ay, by, cyy,
                                        p0.1 as int, kk + 1));
                                    assert(!(crate::shapes::cubic_pt_ok_s(ax, bx, cxx, p0.0 as int, ay, by, cyy,
                                        p0.1 as int, kk + 1)
                                        && crate::geom::apply_fits_s(
                                        pre_st.last(),
                                        crate::shapes::cubic_pt_s(ax, bx, cxx, p0.0 as int, ay, by, cyy,
                                        p0.1 as int, kk + 1),
                                    )));
                                }
                                assert(cs[i as int] == Cmd::Bezier {
                                    p0: *p0,
                                    p1: *p1,
                                    p2: *p2,
                                    p3: *p3,
                                });
                                if ii % 2 == 0 {
                                    assert(!bezier_step_ok(*p0, *p1, *p2, *p3, pre_st.last(),
                                        kk));
                                } else {
                                    assert(!bezier_step_ok(*p0, *p1, *p2, *p3, pre_st.last(),
                                        kk + 1));
                                }
                                assert(!cmd_ok(cs[i as int], pre_st.last()));
                                assert(self.img.events() == pre_ev);
                                assert(run_rel(st0, ev0, fg, cs.take(i as int), self.stack@,
                                    self.img.events()));
                            }
                            return Err(ScriptError::Overflow { line: line_no });
                        },
                    }
                    proof {
                        assert(step_rel(pre_st, pre_ev, fg, cs[i as int], self.stack@,
                            self.img.events()));
                    }
                },
                Cmd::BoxShape { x, y, z, w, h, d } => {
                    let mut m = GeometryMatrix::new_polygon_matrix();
                    m.add_box(*x, *y, *z, *w, *h, *d);
                    proof {
                        assert(m.pts@ =~= crate::shapes::box_pts_s(*x as int, *y as int,
                            *z as int, *w as int, *h as int, *d as int));
                    }
                    match self.render_with_top_stack(&m) {
                        Ok(()) => {},
                        Err(_) => {
                            proof {
                                assert(lcmds@[i as int].line == line_no);
                                assert(!cmd_infallible(lcmds@[i as int].cmd));
                                assert(exists|ii: int|
                                    0 <= ii < m.pts@.len() && !crate::geom::apply_fits_s(
                                        pre_st.last(),
                                        #[trigger] m.pts@[ii],
                                    ));
                                let ii = choose|ii: int|
                                    0 <= ii < m.pts@.len() && !crate::geom::apply_fits_s(
                                        pre_st.last(),
                                        #[trigger] m.pts@[ii],
                                    );
                                assert(m.pts@[ii] == crate::shapes::box_pts_s(*x as int,
                                    *y as int, *z as int, *w as int, *h as int, *d as int)[ii]);
                                assert(!cmd_ok(cs[i as int], pre_st.last()));
                                assert(self.img.events() == pre_ev);
                                assert(run_rel(st0, ev0, fg, cs.take(i as int), self.stack@,
                                    self.img.events()));
                            }
                            return Err(ScriptError::Overflow { line: line_no });
                        },
                    }
                    proof {
                        assert(box_pts_ok(*x as int, *y as int, *z as int, *w as int, *h as int,
                            *d as int, m.pts@));
                        let out = choose|out: Seq<crate::canvas::PlotEvent>|
                            self.img.events() == pre_ev + out
                                && crate::raster::polygon_render_rel(
                                crate::geom::transformed_pts_s(pre_st.last(), m.pts@),
                                out,
                            );
                        assert(step_rel(pre_st, pre_ev, fg, cs[i as int], self.stack@,
                            self.img.events()));
                    }
                },
                Cmd::Sphere { cx, cy, cz, r } => {
                    let mut m = GeometryMatrix::new_polygon_matrix();
                    m.add_sphere(*cx, *cy, *cz, *r);
                    match self.render_with_top_stack(&m) {
                        Ok(()) => {},
                        Err(_) => {
                            proof {
                                assert(lcmds@[i as int].line == line_no);
                                assert(!cmd_infallible(lcmds@[i as int].cmd));
                                assert(exists|ii: int|
                                    0 <= ii < m.pts@.len() && !crate::geom::apply_fits_s(
                                        pre_st.last(),
                                        #[trigger] m.pts@[ii],
                                    ));
                                let ii = choose|ii: int|
                                    0 <= ii < m.pts@.len() && !crate::geom::apply_fits_s(
                                        pre_st.last(),
                                        #[trigger] m.pts@[ii],
                                    );
                                assert(sphere_env(*cx as int, *cy as int, *cz as int,
                                    *r as int, m.pts@[ii]));
                                assert(!cmd_ok(cs[i as int], pre_st.last()));
                                assert(self.img.events() == pre_ev);
                                assert(run_rel(st0, ev0, fg, cs.take(i as int), self.stack@,
                                    self.img.events()));
                            }
                            return Err(ScriptError::Overflow { line: line_no });
                        },
                    }
                    proof {
                        assert(sphere_pts_ok(*cx as int, *cy as int, *cz as int, *r as int, m.pts@));
                        let out = choose|out: Seq<crate::canvas::PlotEvent>|
                            self.img.events() == pre_ev + out
                                && crate::raster::polygon_render_rel(
                                crate::geom::transformed_pts_s(pre_st.last(), m.pts@),
                                out,
                            );
                        assert(step_rel(pre_st, pre_ev, fg, cs[i as int], self.stack@,
                            self.img.events()));
                    }
                },
                Cmd::Torus { cx, cy, cz, r1, r2 } => {
                    let mut m = GeometryMatrix::new_polygon_matrix();
                    m.add_torus(*cx, *cy, *cz, *r1, *r2);
                    match self.render_with_top_stack(&m) {
                        Ok(()) => {},
                        Err(_) => {
                            proof {
                                assert(lcmds@[i as int].line == line_no);
                                assert(!cmd_infallible(lcmds@[i as int].cmd));
                                assert(exists|ii: int|
                                    0 <= ii < m.pts@.len() && !crate::geom::apply_fits_s(
                                        pre_st.last(),
                                        #[trigger] m.pts@[ii],
                                    ));
                                let ii = choose|ii: int|
                                    0 <= ii < m.pts@.len() && !crate::geom::apply_fits_s(
                                        pre_st.last(),
                                        #[trigger] m.pts@[ii],
                                    );
                                assert(torus_env(*cx as int, *cy as int, *cz as int,
                                    *r1 as int, *r2 as int, m.pts@[ii]));
                                assert(!cmd_ok(cs[i as int], pre_st.last()));
                                assert(self.img.events() == pre_ev);
                                assert(run_rel(st0, ev0, fg, cs.take(i as int), self.stack@,
                                    self.img.events()));
                            }
                            return Err(ScriptError::Overflow { line: line_no });
                        },
                    }
                    proof {
                        assert(torus_pts_ok(*cx as int, *cy as int, *cz as int, *r1 as int,
                            *r2 as int, m.pts@));
                        let out = choose|out: Seq<crate::canvas::PlotEvent>|
                            self.img.events() == pre_ev + out
                                && crate::raster::polygon_render_rel(
                                crate::geom::transformed_pts_s(pre_st.last(), m.pts@),
                                out,
                            );
                        assert(step_rel(pre_st, pre_ev, fg, cs[i as int], self.stack@,
                            self.img.events()));
                    }
                },
                Cmd::Scale { x, y, z } => {
                    let t = crate::transform::scale(*x, *y, *z);
                    if !self.stack.transform_top(&t) {
                        proof {
                            assert(lcmds@[i as int].line == line_no);
                            assert(!cmd_infallible(lcmds@[i as int].cmd));
                            assert(!crate::geom::mm_fits_s(t, pre_st.last()));
                            assert(!cmd_ok(cs[i as int], pre_st.last()));
                            assert(run_rel(st0, ev0, fg, cs.take(i as int), self.stack@,
                                self.img.events()));
                        }
                        return Err(ScriptError::Overflow { line: line_no });
                    }
                    proof {
                        assert(compose_top_rel(pre_st, t, self.stack@));
                        assert(step_rel(pre_st, pre_ev, fg, cs[i as int], self.stack@,
                            self.img.events()));
                    }
                },
                Cmd::Move { x, y, z } => {
                    let t = crate::transform::mv(*x, *y, *z);
                    if !self.stack.transform_top(&t) {
                        proof {
                            assert(lcmds@[i as int].line == line_no);
                            assert(!cmd_infallible(lcmds@[i as int].cmd));
                            assert(!crate::geom::mm_fits_s(t, pre_st.last()));
                            assert(!cmd_ok(cs[i as int], pre_st.last()));
                            assert(run_rel(st0, ev0, fg, cs.take(i as int), self.stack@,
                                self.img.events()));
                        }
                        return Err(ScriptError::Overflow { line: line_no });
                    }
                    proof {
                        assert(compose_top_rel(pre_st, t, self.stack@));
                        assert(step_rel(pre_st, pre_ev, fg, cs[i as int], self.stack@,
                            self.img.events()));
                    }
                },
                Cmd::Rotate { axis, deg } => {
                    let t: TransformMatrix;
                    match axis {
                        Axis::X => {
                            t = crate::transform::rotatex(*deg);
                        },
                        Axis::Y => {
                            t = crate::transform::rotatey(*deg);
                        },
                        Axis::Z => {
                            t = crate::transform::rotatez(*deg);
                        },
                    }
                    if !self.stack.transform_top(&t) {
                        proof {
                            assert(lcmds@[i as int].line == line_no);
                            assert(!cmd_infallible(lcmds@[i as int].cmd));
                            assert(!crate::geom::mm_fits_s(t, pre_st.last()));
                            assert(!cmd_ok(cs[i as int], pre_st.last()));
                            assert(run_rel(st0, ev0, fg, cs.take(i as int), self.stack@,
                                self.img.events()));
                        }
                        return Err(ScriptError::Overflow { line: line_no });
                    }
                    proof {
                        assert(compose_top_rel(pre_st, t, self.stack@));
                        assert(step_rel(pre_st, pre_ev, fg, cs[i as int], self.stack@,
                            self.img.events()));
                    }
                },
                Cmd::Push => {
                    self.stack.push_matrix();
                    proof {
                        assert(step_rel(pre_st, pre_ev, fg, cs[i as int], self.stack@,
                            self.img.events()));
                    }
                },
                Cmd::Pop => {
                    self.stack.pop_matrix();
                    proof {
                        assert(step_rel(pre_st, pre_ev, fg, cs[i as int], self.stack@,
                            self.img.events()));
                    }
                },
                Cmd::Save { name } => {
                    let fname: Vec<char> = name.clone();
                    let upto: usize = self.img.events_len();
                    self.outputs.push(OutputAction::Save { name: fname, upto });
                    proof {
                        assert(step_rel(pre_st, pre_ev, fg, cs[i as int], self.stack@,
                            self.img.events()));
                    }
                },
                Cmd::Display => {
                    let upto: usize = self.img.events_len();
                    self.outputs.push(OutputAction::Display { upto });
                    proof {
                        assert(step_rel(pre_st, pre_ev, fg, cs[i as int], self.stack@,
                            self.img.events()));
                    }
                },
            }
            proof {
                lemma_run_snoc(st0, ev0, fg, cs.take(i as int), pre_st, pre_ev, cs[i as int],
                    self.stack@, self.img.events());
                assert(cs.take(i as int).push(cs[i as int]) =~= cs.take(i as int + 1));
                assert(run_rel(st0, ev0, fg, cs.take(i as int + 1), self.stack@,
                    self.img.events()));
                assert(cs.skip(i as int)[0] == cs[i as int]);
                assert(cs.skip(i as int).skip(1) =~= cs.skip(i as int + 1));
                assert forall|s2: Seq<TransformMatrix>, e2: Seq<crate::canvas::PlotEvent>|
                    run_rel(self.stack@, self.img.events(), fg, cs.skip(i as int + 1), s2, e2)
                        implies run_rel(st0, ev0, fg, cs, s2, e2) by {
                    assert(run_rel(self.stack@, self.img.events(), fg, cs.skip(i as int).skip(1),
                        s2, e2));
                    assert(step_rel(pre_st, pre_ev, fg, cs.skip(i as int)[0], self.stack@,
                        self.img.events()));
                    assert(run_rel(pre_st, pre_ev, fg, cs.skip(i as int), s2, e2));
                }
            }
            i = i + 1;
        }
        proof {
            assert(cs.skip(n as int) =~= Seq::<Cmd>::empty());
            assert(run_rel(self.stack@, self.img.events(), fg, cs.skip(n as int), self.stack@,
                self.img.events()));
        }
        Ok(())
    }

    /// Run a whole script: cut it into lines, parse the commands the text
    /// holds, and execute them strictly in order; the first fault ends the
    /// run with its line number. On success, the text's lines parse to a
    /// command list and the canvas's plot record and transform stack are
    /// related to their prior values by that list's state-machine steps; a
    /// script whose parsed commands never fault is owed success. A parse
    /// fault is returned exactly as the lines' parse outcome and leaves the
    /// stack, the plot record and the outputs untouched; an overflow fault
    /// is a real fixed-point fault of a parsed command, reported with its
    /// line, leaving the state its prefix run reached.
    pub fn do_parse(&mut self, text: &Vec<char>) -> (res: Result<(), ScriptError>)
        requires
            dw_wf(*old(self)),
        ensures
            dw_wf(*final(self)),
            final(self).img.fg() == old(self).img.fg(),
            final(self).img.bg() == old(self).img.bg(),
            final(self).img.dim_w() == old(self).img.dim_w(),
            final(self).img.dim_h() == old(self).img.dim_h(),
            final(self).edges == old(self).edges,
            final(self).polygons == old(self).polygons,
            old(self).outputs@.is_prefix_of(final(self).outputs@),
            res is Ok ==> exists|cmds: Seq<LocatedCmd>|
                {
                    &&& #[trigger] parse_outcome(
                        lines_of(text@),
                        0,
                        Ok::<Seq<LocatedCmd>, ScriptError>(cmds),
                    )
                    &&& forall|j: int| 0 <= j < cmds.len() ==> cmd_in_range(#[trigger] cmds[j].cmd)
                    &&& run_rel(
                        old(self).stack@,
                        old(self).img.events(),
                        old(self).img.fg(),
                        cmds_of(cmds),
                        final(self).stack@,
                        final(self).img.events(),
                    )
                },
            res is Err && !(res->Err_0 matches ScriptError::Overflow { .. }) ==> {
                &&& parse_outcome(
                    lines_of(text@),
                    0,
                    Err::<Seq<LocatedCmd>, ScriptError>(res->Err_0),
                )
                &&& final(self).stack@ == old(self).stack@
                &&& final(self).img.events() == old(self).img.events()
                &&& final(self).outputs@ == old(self).outputs@
            },
            res is Err && (res->Err_0 matches ScriptError::Overflow { .. }) ==> exists|
                cmds: Seq<LocatedCmd>,
                k: int,
                stm: Seq<TransformMatrix>,
                evm: Seq<PlotEvent>,
            |
                {
                    &&& #[trigger] parse_outcome(
                        lines_of(text@),
                        0,
                        Ok::<Seq<LocatedCmd>, ScriptError>(cmds),
                    )
                    &&& 0 <= k < cmds.len()
                    &&& #[trigger] run_rel(
                        old(self).stack@,
                        old(self).img.events(),
                        old(self).img.fg(),
                        cmds_of(cmds).take(k),
                        stm,
                        evm,
                    )
                    &&& stm == final(self).stack@
                    &&& evm == final(self).img.events()
                    &&& !cmd_ok(cmds_of(cmds)[k], stm.last())
                    &&& res->Err_0 == (ScriptError::Overflow { line: cmds[k].line })
                },
            (exists|cmds: Seq<LocatedCmd>|
                #[trigger] parse_outcome(
                    lines_of(text@),
                    0,
                    Ok::<Seq<LocatedCmd>, ScriptError>(cmds),
                )) && (forall|
                cmds: Seq<LocatedCmd>,
                k: int,
                stm: Seq<TransformMatrix>,
                evm: Seq<PlotEvent>,
            |
                #[trigger] parse_outcome(
                    lines_of(text@),
                    0,
                    Ok::<Seq<LocatedCmd>, ScriptError>(cmds),
                ) && 0 <= k < cmds.len() && #[trigger] run_rel(
                    old(self).stack@,
                    old(self).img.events(),
                    old(self).img.fg(),
                    cmds_of(cmds).take(k),
                    stm,
                    evm,
                ) ==> cmd_ok(cmds_of(cmds)[k], stm.last())) ==> res is Ok,
    {
        let lines = split_lines(text);
        let lcmds = match parse_script(&lines) {
            Ok(v) => v,
            Err(e) => {
                proof {
                    assert(views_of(lines@) == lines_of(text@));
                    assert forall|cmds: Seq<LocatedCmd>|
                        !(#[trigger] parse_outcome(
                            lines_of(text@),
                            0,
                            Ok::<Seq<LocatedCmd>, ScriptError>(cmds),
                        )) by {
                        lemma_parse_excl(lines_of(text@), 0, cmds, e);
                    }
                }
                return Err(e);
            },
        };
        let r = self.exec_cmds(&lcmds);
        proof {
            assert(views_of(lines@) == lines_of(text@));
            assert(parse_outcome(
                lines_of(text@),
                0,
                Ok::<Seq<LocatedCmd>, ScriptError>(lcmds@),
            ));
            if r is Ok {
                assert forall|i: int|
                    0 <= i < cmds_of(lcmds@).len() implies cmd_in_range(
                    #[trigger] cmds_of(lcmds@)[i],
                ) by {
                    assert(cmds_of(lcmds@)[i] == lcmds@[i].cmd);
                }
            }
        }
        r
    }
}


/// Law: at the command level, a push followed immediately by a pop returns
/// the machine to its exact prior state: the stack, and with it the top
/// frame, are restored and nothing is plotted.
pub proof fn lemma_push_then_pop_run(
    st0: Seq<TransformMatrix>,
    ev0: Seq<PlotEvent>,
    fg: Rgb,
    st1: Seq<TransformMatrix>,
    ev1: Seq<PlotEvent>,
)
    requires
        st0.len() >= 1,
        run_rel(st0, ev0, fg, seq![Cmd::Push, Cmd::Pop], st1, ev1),
    ensures
        st1 == st0,
        ev1 == ev0,
{
    let cmds = seq![Cmd::Push, Cmd::Pop];
    let (stm, evm) = choose|stm: Seq<TransformMatrix>, evm: Seq<PlotEvent>|
        #[trigger] step_rel(st0, ev0, fg, cmds[0], stm, evm) && run_rel(
            stm,
            evm,
            fg,
            cmds.skip(1),
            st1,
            ev1,
        );
    assert(stm == st0.push(st0.last()) && evm == ev0);
    let rest = cmds.skip(1);
    assert(rest[0] == Cmd::Pop);
    let (stm2, evm2) = choose|stm2: Seq<TransformMatrix>, evm2: Seq<PlotEvent>|
        #[trigger] step_rel(stm, evm, fg, rest[0], stm2, evm2) && run_rel(
            stm2,
            evm2,
            fg,
            rest.skip(1),
            st1,
            ev1,
        );
    assert(stm.len() > 1);
    assert(stm2 == stm.drop_last());
    assert(stm2 =~= st0);
    assert(rest.skip(1) =~= Seq::<Cmd>::empty());
    assert(st1 == stm2 && ev1 == evm2);
}

} // verus!
