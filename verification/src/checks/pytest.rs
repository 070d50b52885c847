//! pytest transcripts.

use vstd::prelude::*;

use crate::checks::{new_outcome, CheckOutcome, Failure, FailureView, OutcomeView, failure_views};
use crate::pattern::{
    all_captures, captures_all, count_or_zero, count_where, lemma_count_where_nonneg, lemma_wrapping_add_mod, first_captures, group, group_at, group_chars,
    group_count, group_string, group_text, line_captures,
};
use crate::text::{
    before_first, before_first_text, contains, contains_text, lines, lines_of, string_of, trim,
    trim_chars, views, chars_of,
};

verus! {

pub const PYTEST_COUNT: &'static str = r"(\d+) (passed|failed|error|errors|skipped|xfailed|xpassed)";

pub const PYTEST_FAILURE: &'static str = r"^(?:FAILED|ERROR) (\S+)(?: - (.*))?$";

/// A line that looks like it carries counts.
pub open spec fn mentions_counts(line: Seq<char>) -> bool {
    contains(line, " passed"@) || contains(line, " failed"@) || contains(line, " error"@)
}

/// The last of the first `n` lines that mentions counts.
pub open spec fn last_mentioning_counts(ls: Seq<Seq<char>>, n: int) -> Option<Seq<char>>
    decreases n,
{
    if n <= 0 {
        None
    } else if mentions_counts(ls[n - 1]) {
        Some(ls[n - 1])
    } else {
        last_mentioning_counts(ls, n - 1)
    }
}

/// pytest's own final summary: the last line that mentions counts, kept
/// only if it really holds one. Earlier matches can come from a plugin.
pub open spec fn summary_line(ls: Seq<Seq<char>>) -> Option<Seq<char>> {
    match last_mentioning_counts(ls, ls.len() as int) {
        Some(l) => if first_captures(PYTEST_COUNT@, l) is Some {
            Some(l)
        } else {
            None
        },
        None => None,
    }
}

/// Totals over the first `n` count groups: passed and xpassed on one side,
/// failed and errors on the other, wrapping at `u32::MAX`.
pub open spec fn tallied(caps: Seq<Seq<Option<Seq<char>>>>, n: int) -> (u32, u32)
    decreases n,
{
    if n <= 0 {
        (0, 0)
    } else {
        let (p, f) = tallied(caps, n - 1);
        let c = caps[n - 1];
        let count = count_or_zero(group_text(c, 1));
        let word = group_text(c, 2);
        if word == "passed"@ || word == "xpassed"@ {
            (vstd::wrapping::u32_specs::wrapping_add(p, count), f)
        } else if word == "failed"@ || word == "error"@ || word == "errors"@ {
            (p, vstd::wrapping::u32_specs::wrapping_add(f, count))
        } else {
            (p, f)
        }
    }
}

/// `s` without leading `'='`s.
pub open spec fn strip_equals_start(s: Seq<char>) -> Seq<char>
    decreases s.len(),
{
    if s.len() > 0 && s[0] == '=' {
        strip_equals_start(s.drop_first())
    } else {
        s
    }
}

/// `s` without trailing `'='`s.
pub open spec fn strip_equals_end(s: Seq<char>) -> Seq<char>
    decreases s.len(),
{
    if s.len() > 0 && s.last() == '=' {
        strip_equals_end(s.drop_last())
    } else {
        s
    }
}

/// The summary as shown: trimmed, its `=` banner removed, trimmed again.
pub open spec fn summary_text(l: Seq<char>) -> Seq<char> {
    trim(strip_equals_end(strip_equals_start(trim(l))))
}

/// The failure a `FAILED node - message` or `ERROR node` line names.
pub open spec fn failure_on(line: Seq<char>) -> Option<FailureView> {
    match first_captures(PYTEST_FAILURE@, line) {
        Some(c) => Some(
            FailureView {
                name: group_text(c, 1),
                file: Some(before_first(group_text(c, 1), "::"@)),
                line: None,
                message: group_at(c, 2),
            },
        ),
        None => None,
    }
}

/// The failures named among the first `n` lines, in order.
pub open spec fn pytest_failures(ls: Seq<Seq<char>>, n: int) -> Seq<FailureView>
    decreases n,
{
    if n <= 0 {
        Seq::empty()
    } else {
        let before = pytest_failures(ls, n - 1);
        match failure_on(ls[n - 1]) {
            Some(f) => before.push(f),
            None => before,
        }
    }
}

/// What a pytest transcript reports.
pub open spec fn pytest_outcome(text: Seq<char>) -> OutcomeView {
    let ls = lines(text);
    let failures = pytest_failures(ls, ls.len() as int);
    match summary_line(ls) {
        Some(l) => {
            let caps = all_captures(PYTEST_COUNT@, l);
            let (p, f) = tallied(caps, caps.len() as int);
            OutcomeView {
                passed: Some(p),
                failed: Some(f),
                failures,
                diagnostics: Seq::empty(),
                summary: Some(summary_text(l)),
            }
        },
        None => OutcomeView {
            passed: None,
            failed: None,
            failures,
            diagnostics: Seq::empty(),
            summary: None,
        },
    }
}

pub fn mentions_counts_line(line: &[char]) -> (r: bool)
    ensures
        r == mentions_counts(line@),
{
    contains_text(line, " passed") || contains_text(line, " failed") || contains_text(
        line,
        " error",
    )
}

pub fn find_summary_line(ls: &Vec<Vec<char>>) -> (r: Option<Vec<char>>)
    ensures
        match r {
            Some(v) => summary_line(views(ls@)) == Some(v@),
            None => summary_line(views(ls@)) is None,
        },
{
    let ghost l = views(ls@);
    let mut i = ls.len();
    while i > 0
        invariant
            i <= ls.len(),
            l == views(ls@),
            last_mentioning_counts(l, ls.len() as int) == last_mentioning_counts(l, i as int),
        decreases i,
    {
        assert(l[i - 1] == ls@[i - 1]@);
        if mentions_counts_line(ls[i - 1].as_slice()) {
            let found = ls[i - 1].clone();
            assert(found@ == ls@[i - 1]@);
            if line_captures(PYTEST_COUNT, found.as_slice()).is_some() {
                return Some(found);
            } else {
                return None;
            }
        }
        i -= 1;
    }
    None
}

pub fn tally(caps: &Vec<Vec<Option<String>>>) -> (r: (u32, u32))
    ensures
        r == tallied(caps.deep_view(), caps.len() as int),
{
    let mut p: u32 = 0;
    let mut f: u32 = 0;
    let mut i: usize = 0;
    while i < caps.len()
        invariant
            i <= caps.len(),
            (p, f) == tallied(caps.deep_view(), i as int),
        decreases caps.len() - i,
    {
        assert(caps.deep_view()[i as int] == caps@[i as int].deep_view());
        let count = group_count(&caps[i], 1);
        let word = group_chars(&caps[i], 2);
        let w = word.as_slice();
        if crate::text::is_text(w, "passed") || crate::text::is_text(w, "xpassed") {
            p = p.wrapping_add(count);
        } else if crate::text::is_text(w, "failed") || crate::text::is_text(w, "error")
            || crate::text::is_text(w, "errors") {
            f = f.wrapping_add(count);
        }
        i += 1;
    }
    (p, f)
}

pub fn strip_equals(s: &[char]) -> (r: Vec<char>)
    ensures
        r@ == strip_equals_end(strip_equals_start(s@)),
{
    let mut a: usize = 0;
    assert(s@.skip(0) =~= s@);
    while a < s.len() && s[a] == '='
        invariant
            a <= s.len(),
            strip_equals_start(s@) == strip_equals_start(s@.skip(a as int)),
        decreases s.len() - a,
    {
        assert(s@.skip(a as int).drop_first() =~= s@.skip(a + 1));
        a += 1;
    }
    let mut b: usize = s.len();
    let ghost rest = s@.skip(a as int);
    assert(rest.take(rest.len() as int) =~= rest);
    while b > a && s[b - 1] == '='
        invariant
            a <= b <= s.len(),
            rest == s@.skip(a as int),
            strip_equals_end(rest) == strip_equals_end(rest.take(b - a)),
        decreases b,
    {
        assert(rest.take(b - a).drop_last() =~= rest.take(b - a - 1));
        b -= 1;
    }
    assert(rest.take(b - a) =~= s@.subrange(a as int, b as int));
    crate::text::slice_range(s, a, b)
}

pub fn failure_from(line: &[char]) -> (r: Option<Failure>)
    ensures
        match r {
            Some(f) => failure_on(line@) == Some(f@),
            None => failure_on(line@) is None,
        },
{
    match line_captures(PYTEST_FAILURE, line) {
        Some(c) => {
            let name = group_chars(&c, 1);
            let file = before_first_text(name.as_slice(), "::");
            Some(
                Failure {
                    name: string_of(name.as_slice()),
                    file: Some(string_of(file.as_slice())),
                    line: None,
                    message: group(&c, 2),
                },
            )
        },
        None => None,
    }
}

/// Read a pytest transcript.
pub fn parse_pytest(text: &str) -> (o: CheckOutcome)
    ensures
        o@ == pytest_outcome(text@),
{
    let cs = chars_of(text);
    let ls = lines_of(cs.as_slice());
    let ghost l = views(ls@);
    let mut o = new_outcome();
    if let Some(summary) = find_summary_line(&ls) {
        let s = string_of(summary.as_slice());
        let caps = captures_all(PYTEST_COUNT, s.as_str());
        let (p, f) = tally(&caps);
        o.passed = Some(p);
        o.failed = Some(f);
        let t = trim_chars(summary.as_slice());
        let u = strip_equals(t.as_slice());
        let v = trim_chars(u.as_slice());
        o.summary = Some(string_of(v.as_slice()));
    }
    let mut failures: Vec<Failure> = Vec::new();
    let mut i: usize = 0;
    assert(failure_views(failures@) =~= pytest_failures(l, 0));
    while i < ls.len()
        invariant
            i <= ls.len(),
            l == views(ls@),
            failure_views(failures@) == pytest_failures(l, i as int),
        decreases ls.len() - i,
    {
        assert(l[i as int] == ls@[i as int]@);
        let ghost before = failures@;
        if let Some(f) = failure_from(ls[i].as_slice()) {
            failures.push(f);
            assert(failure_views(failures@) =~= failure_views(before).push(f@));
        }
        i += 1;
    }
    o.failures = failures;
    o
}

} // verus!

verus! {

proof fn lemma_tallied_totals(caps: Seq<Seq<Option<Seq<char>>>>, n: int)
    requires
        n >= 0,
    ensures
        tallied(caps, n).0 as int == count_where(
            caps,
            n,
            set!["passed"@, "xpassed"@],
        ) % 0x1_0000_0000,
        tallied(caps, n).1 as int == count_where(
            caps,
            n,
            set!["failed"@, "error"@, "errors"@],
        ) % 0x1_0000_0000,
    decreases n,
{
    let ps = set!["passed"@, "xpassed"@];
    let fs = set!["failed"@, "error"@, "errors"@];
    reveal_strlit("passed");
    reveal_strlit("xpassed");
    reveal_strlit("failed");
    reveal_strlit("error");
    reveal_strlit("errors");
    if n > 0 {
        lemma_tallied_totals(caps, n - 1);
        lemma_count_where_nonneg(caps, n - 1, ps);
        lemma_count_where_nonneg(caps, n - 1, fs);
        let (p, f) = tallied(caps, n - 1);
        let c = caps[n - 1];
        let count = count_or_zero(group_text(c, 1));
        lemma_wrapping_add_mod(count_where(caps, n - 1, ps), p, count);
        lemma_wrapping_add_mod(count_where(caps, n - 1, fs), f, count);
        assert(count_where(caps, n - 1, ps) % 0x1_0000_0000 == p as int);
        assert(count_where(caps, n - 1, fs) % 0x1_0000_0000 == f as int);
        vstd::arithmetic::div_mod::lemma_small_mod(p as nat, 0x1_0000_0000);
        vstd::arithmetic::div_mod::lemma_small_mod(f as nat, 0x1_0000_0000);
        let w = group_text(c, 2);
        if w == "passed"@ || w == "xpassed"@ {
            assert(ps.contains(w));
            assert("passed"@[0] == 'p' && "xpassed"@[0] == 'x');
            assert("failed"@[0] == 'f' && "error"@[0] == 'e' && "errors"@[0] == 'e');
            assert(w[0] != 'f' && w[0] != 'e');
            assert(!fs.contains(w));
            assert(count_where(caps, n, fs) == count_where(caps, n - 1, fs));
        } else if w == "failed"@ || w == "error"@ || w == "errors"@ {
            assert(!ps.contains(w));
            assert(fs.contains(w));
            assert(count_where(caps, n, ps) == count_where(caps, n - 1, ps));
        } else {
            assert(!ps.contains(w));
            assert(!fs.contains(w));
            assert(count_where(caps, n, fs) == count_where(caps, n - 1, fs));
            assert(count_where(caps, n, ps) == count_where(caps, n - 1, ps));
        }
    }
}

/// pytest's counts come from its final summary line: with one, the passed
/// count is the sum of its `passed` and `xpassed` counts, and the failed
/// count the sum of its `failed`, `error` and `errors` counts (each modulo
/// 2^32, as `u32` wraps); `skipped` and `xfailed` count for neither.
/// Without one there are no counts.
pub proof fn lemma_pytest_counts(text: Seq<char>)
    ensures
        ({
            let ls = lines(text);
            let o = pytest_outcome(text);
            match summary_line(ls) {
                Some(l) => {
                    let caps = all_captures(PYTEST_COUNT@, l);
                    &&& o.passed == Some(
                        (count_where(
                            caps,
                            caps.len() as int,
                            set!["passed"@, "xpassed"@],
                        ) % 0x1_0000_0000) as u32,
                    )
                    &&& o.failed == Some(
                        (count_where(
                            caps,
                            caps.len() as int,
                            set!["failed"@, "error"@, "errors"@],
                        ) % 0x1_0000_0000) as u32,
                    )
                },
                None => o.passed is None && o.failed is None,
            }
        }),
{
    let ls = lines(text);
    if let Some(l) = summary_line(ls) {
        let caps = all_captures(PYTEST_COUNT@, l);
        lemma_tallied_totals(caps, caps.len() as int);
    }
}

} // verus!
