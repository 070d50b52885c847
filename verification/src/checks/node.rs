//! Jest-style and TypeScript compiler transcripts.

use vstd::prelude::*;

use crate::checks::{
    named_failure, new_outcome, CheckOutcome, Diagnostic, DiagnosticView, Failure, FailureView,
    OutcomeView, diagnostic_views, failure_views,
};
use crate::pattern::{
    all_captures, captures_all, count_or_zero, count_where, lemma_count_where_nonneg, lemma_wrapping_add_mod, first_captures, group_chars, group_count,
    group_number, group_string, group_text, line_captures,
};
use crate::text::{chars_of, lines, lines_of, string_of, trim, trim_chars, views};

verus! {

pub const NODE_SUMMARY: &'static str = r"Tests:?\s+(.*)$";

pub const NODE_COUNT: &'static str = r"(\d+) (passed|failed)";

pub const NODE_FAILURE: &'static str = r"^\s*(?:✕|×|●|✗)\s+(.+?)\s*$";

pub const TSC_DIAGNOSTIC: &'static str = r"^(.+?)\((\d+),(\d+)\): (error|warning) TS\d+: (.*)$";

/// A `Tests: ...` line that carries at least one count.
pub open spec fn is_summary(line: Seq<char>) -> bool {
    first_captures(NODE_SUMMARY@, line) is Some && first_captures(NODE_COUNT@, line) is Some
}

pub open spec fn last_summary(ls: Seq<Seq<char>>, n: int) -> Option<Seq<char>>
    decreases n,
{
    if n <= 0 {
        None
    } else if is_summary(ls[n - 1]) {
        Some(ls[n - 1])
    } else {
        last_summary(ls, n - 1)
    }
}

/// Totals over the first `n` counts: `passed` on one side, everything else
/// (`failed`) on the other, wrapping at `u32::MAX`.
pub open spec fn node_tallied(caps: Seq<Seq<Option<Seq<char>>>>, n: int) -> (u32, u32)
    decreases n,
{
    if n <= 0 {
        (0, 0)
    } else {
        let (p, f) = node_tallied(caps, n - 1);
        let c = caps[n - 1];
        let count = count_or_zero(group_text(c, 1));
        if group_text(c, 2) == "passed"@ {
            (vstd::wrapping::u32_specs::wrapping_add(p, count), f)
        } else {
            (p, vstd::wrapping::u32_specs::wrapping_add(f, count))
        }
    }
}

/// The TypeScript diagnostic a line holds.
pub open spec fn tsc_diagnostic(line: Seq<char>) -> Option<DiagnosticView> {
    match first_captures(TSC_DIAGNOSTIC@, line) {
        Some(c) => Some(
            DiagnosticView {
                severity: group_text(c, 4),
                file: group_text(c, 1),
                line: count_or_zero(group_text(c, 2)),
                column: crate::text::parse_u32_spec(group_text(c, 3)),
                message: trim(group_text(c, 5)),
            },
        ),
        None => None,
    }
}

/// What one line adds: a compiler diagnostic, or else a failed test marked
/// with a cross or a bullet.
pub open spec fn node_step(
    st: (Seq<FailureView>, Seq<DiagnosticView>),
    line: Seq<char>,
) -> (Seq<FailureView>, Seq<DiagnosticView>) {
    match tsc_diagnostic(line) {
        Some(d) => (st.0, st.1.push(d)),
        None => match first_captures(NODE_FAILURE@, line) {
            Some(c) => (st.0.push(named_failure(trim(group_text(c, 1)))), st.1),
            None => st,
        },
    }
}

pub open spec fn node_run(ls: Seq<Seq<char>>, n: int) -> (Seq<FailureView>, Seq<DiagnosticView>)
    decreases n,
{
    if n <= 0 {
        (Seq::empty(), Seq::empty())
    } else {
        node_step(node_run(ls, n - 1), ls[n - 1])
    }
}

/// The number of diagnostics among the first `n` whose severity is `error`.
pub open spec fn error_count(ds: Seq<DiagnosticView>, n: int) -> nat
    decreases n,
{
    if n <= 0 {
        0
    } else {
        error_count(ds, n - 1) + if ds[n - 1].severity == "error"@ {
            1nat
        } else {
            0nat
        }
    }
}

/// What a Jest or `tsc` transcript reports. A type-check run has no test
/// totals; then the error diagnostics are the failure count.
pub open spec fn node_outcome(text: Seq<char>) -> OutcomeView {
    let ls = lines(text);
    let (fs, ds) = node_run(ls, ls.len() as int);
    let summary = last_summary(ls, ls.len() as int);
    let (passed, failed) = match summary {
        Some(l) => {
            let caps = all_captures(NODE_COUNT@, l);
            let (p, f) = node_tallied(caps, caps.len() as int);
            (Some(p), Some(f))
        },
        None => (None, None),
    };
    OutcomeView {
        passed,
        failed: if passed is None && ds.len() > 0 {
            Some(error_count(ds, ds.len() as int) as u32)
        } else {
            failed
        },
        failures: fs,
        diagnostics: ds,
        summary: match summary {
            Some(l) => Some(trim(l)),
            None => None,
        },
    }
}

pub fn is_summary_line(line: &[char]) -> (r: bool)
    ensures
        r == is_summary(line@),
{
    line_captures(NODE_SUMMARY, line).is_some() && line_captures(NODE_COUNT, line).is_some()
}

pub fn find_summary(ls: &Vec<Vec<char>>) -> (r: Option<Vec<char>>)
    ensures
        match r {
            Some(v) => last_summary(views(ls@), ls.len() as int) == Some(v@),
            None => last_summary(views(ls@), ls.len() as int) is None,
        },
{
    let ghost l = views(ls@);
    let mut i = ls.len();
    while i > 0
        invariant
            i <= ls.len(),
            l == views(ls@),
            last_summary(l, ls.len() as int) == last_summary(l, i as int),
        decreases i,
    {
        assert(l[i - 1] == ls@[i - 1]@);
        if is_summary_line(ls[i - 1].as_slice()) {
            let found = ls[i - 1].clone();
            assert(found@ == ls@[i - 1]@);
            return Some(found);
        }
        i -= 1;
    }
    None
}

pub fn node_tally(caps: &Vec<Vec<Option<String>>>) -> (r: (u32, u32))
    ensures
        r == node_tallied(caps.deep_view(), caps.len() as int),
{
    let mut p: u32 = 0;
    let mut f: u32 = 0;
    let mut i: usize = 0;
    while i < caps.len()
        invariant
            i <= caps.len(),
            (p, f) == node_tallied(caps.deep_view(), i as int),
        decreases caps.len() - i,
    {
        assert(caps.deep_view()[i as int] == caps@[i as int].deep_view());
        let count = group_count(&caps[i], 1);
        let word = group_chars(&caps[i], 2);
        if crate::text::is_text(word.as_slice(), "passed") {
            p = p.wrapping_add(count);
        } else {
            f = f.wrapping_add(count);
        }
        i += 1;
    }
    (p, f)
}

pub fn node_line(fs: &mut Vec<Failure>, ds: &mut Vec<Diagnostic>, line: &[char])
    ensures
        (failure_views(final(fs)@), diagnostic_views(final(ds)@)) == node_step(
            (failure_views(old(fs)@), diagnostic_views(old(ds)@)),
            line@,
        ),
{
    let ghost fs0 = fs@;
    let ghost ds0 = ds@;
    if let Some(c) = line_captures(TSC_DIAGNOSTIC, line) {
        let message = group_chars(&c, 5);
        let m = trim_chars(message.as_slice());
        let d = Diagnostic {
            severity: group_string(&c, 4),
            file: group_string(&c, 1),
            line: group_count(&c, 2),
            column: group_number(&c, 3),
            message: string_of(m.as_slice()),
        };
        ds.push(d);
        assert(diagnostic_views(ds@) =~= diagnostic_views(ds0).push(d@));
        return ;
    }
    if let Some(c) = line_captures(NODE_FAILURE, line) {
        let name = group_chars(&c, 1);
        let n = trim_chars(name.as_slice());
        let f = Failure { name: string_of(n.as_slice()), file: None, line: None, message: None };
        fs.push(f);
        assert(failure_views(fs@) =~= failure_views(fs0).push(f@));
    }
}

pub fn count_errors(ds: &Vec<Diagnostic>) -> (n: usize)
    ensures
        n == error_count(diagnostic_views(ds@), ds.len() as int),
{
    let mut n: usize = 0;
    let mut i: usize = 0;
    while i < ds.len()
        invariant
            i <= ds.len(),
            n == error_count(diagnostic_views(ds@), i as int),
            n <= i,
        decreases ds.len() - i,
    {
        let sev = chars_of(ds[i].severity.as_str());
        if crate::text::is_text(sev.as_slice(), "error") {
            n += 1;
        }
        i += 1;
    }
    n
}

/// Read a Jest or `tsc` transcript.
pub fn parse_node(text: &str) -> (o: CheckOutcome)
    ensures
        o@ == node_outcome(text@),
{
    let cs = chars_of(text);
    let ls = lines_of(cs.as_slice());
    let ghost l = views(ls@);
    let mut o = new_outcome();
    if let Some(summary) = find_summary(&ls) {
        let s = string_of(summary.as_slice());
        let caps = captures_all(NODE_COUNT, s.as_str());
        let (p, f) = node_tally(&caps);
        o.passed = Some(p);
        o.failed = Some(f);
        let t = trim_chars(summary.as_slice());
        o.summary = Some(string_of(t.as_slice()));
    }
    let mut failures: Vec<Failure> = Vec::new();
    let mut diagnostics: Vec<Diagnostic> = Vec::new();
    let mut i: usize = 0;
    assert(failure_views(failures@) =~= Seq::<FailureView>::empty());
    assert(diagnostic_views(diagnostics@) =~= Seq::<DiagnosticView>::empty());
    while i < ls.len()
        invariant
            i <= ls.len(),
            l == views(ls@),
            (failure_views(failures@), diagnostic_views(diagnostics@)) == node_run(l, i as int),
        decreases ls.len() - i,
    {
        assert(l[i as int] == ls@[i as int]@);
        node_line(&mut failures, &mut diagnostics, ls[i].as_slice());
        i += 1;
    }
    if o.passed.is_none() && diagnostics.len() > 0 {
        o.failed = Some(count_errors(&diagnostics) as u32);
    }
    o.failures = failures;
    o.diagnostics = diagnostics;
    o
}

} // verus!

verus! {

proof fn lemma_node_tallied_totals(caps: Seq<Seq<Option<Seq<char>>>>, n: int)
    requires
        n >= 0,
    ensures
        node_tallied(caps, n).0 as int == count_where(caps, n, set!["passed"@]) % 0x1_0000_0000,
        node_tallied(caps, n).1 as int == count_where(
            caps,
            n,
            Set::<Seq<char>>::full().remove("passed"@),
        ) % 0x1_0000_0000,
    decreases n,
{
    let ps = set!["passed"@];
    let fs = Set::<Seq<char>>::full().remove("passed"@);
    if n > 0 {
        lemma_node_tallied_totals(caps, n - 1);
        lemma_count_where_nonneg(caps, n - 1, ps);
        lemma_count_where_nonneg(caps, n - 1, fs);
        let (p, f) = node_tallied(caps, n - 1);
        let c = caps[n - 1];
        let count = count_or_zero(group_text(c, 1));
        lemma_wrapping_add_mod(count_where(caps, n - 1, ps), p, count);
        lemma_wrapping_add_mod(count_where(caps, n - 1, fs), f, count);
        vstd::arithmetic::div_mod::lemma_small_mod(p as nat, 0x1_0000_0000);
        vstd::arithmetic::div_mod::lemma_small_mod(f as nat, 0x1_0000_0000);
        let w = group_text(c, 2);
        if w == "passed"@ {
            assert(ps.contains(w) && !fs.contains(w));
            assert(count_where(caps, n, fs) == count_where(caps, n - 1, fs));
        } else {
            assert(!ps.contains(w) && fs.contains(w));
            assert(count_where(caps, n, ps) == count_where(caps, n - 1, ps));
        }
    }
}

/// A Jest run's counts come from its last `Tests:` line: the passed count
/// is the sum of its `passed` counts and the failed count the sum of the
/// others (its `failed` counts), each modulo 2^32. Without such a line a
/// type-check's failed count is its number of errors; with neither there
/// are no counts.
pub proof fn lemma_node_counts(text: Seq<char>)
    ensures
        ({
            let ls = lines(text);
            let o = node_outcome(text);
            let ds = node_run(ls, ls.len() as int).1;
            match last_summary(ls, ls.len() as int) {
                Some(l) => {
                    let caps = all_captures(NODE_COUNT@, l);
                    &&& o.passed == Some(
                        (count_where(caps, caps.len() as int, set!["passed"@]) % 0x1_0000_0000) as u32,
                    )
                    &&& o.failed == Some(
                        (count_where(
                            caps,
                            caps.len() as int,
                            Set::<Seq<char>>::full().remove("passed"@),
                        ) % 0x1_0000_0000) as u32,
                    )
                },
                None => {
                    &&& o.passed is None
                    &&& ds.len() > 0 ==> o.failed == Some(
                        error_count(ds, ds.len() as int) as u32,
                    )
                    &&& ds.len() == 0 ==> o.failed is None
                },
            }
        }),
{
    let ls = lines(text);
    if let Some(l) = last_summary(ls, ls.len() as int) {
        let caps = all_captures(NODE_COUNT@, l);
        lemma_node_tallied_totals(caps, caps.len() as int);
    }
}

} // verus!
