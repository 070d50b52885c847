//! `go test` transcripts.

use vstd::prelude::*;

use crate::checks::{
    named_failure, new_outcome, CheckOutcome, Failure, FailureView, OutcomeView, failure_views,
};
use crate::pattern::{first_captures, group_chars, group_number, group_string, group_text, line_captures};
use crate::text::{
    chars_of, has_prefix, lines, lines_of, starts_with_text, string_of, trim, trim_chars,
    trim_start, trim_start_chars, views,
};

verus! {

pub const GO_FAILURE: &'static str = r"^\s*--- FAIL: (\S+)";

pub const GO_LOCATION: &'static str = r"^\s+(\S+\.go):(\d+): (.*)$";

/// A `--- PASS` line, indented or not.
pub open spec fn is_pass_line(line: Seq<char>) -> bool {
    has_prefix(line, "--- PASS"@) || has_prefix(trim_start(line), "--- PASS"@)
}

/// What one line adds to the failures seen so far and the passes counted:
/// a pass, a new failure, or the location of the latest failure when it has
/// none yet.
pub open spec fn go_step(st: (Seq<FailureView>, u32), line: Seq<char>) -> (Seq<FailureView>, u32) {
    let (fs, passed) = st;
    if is_pass_line(line) {
        (fs, vstd::wrapping::u32_specs::wrapping_add(passed, 1))
    } else {
        match first_captures(GO_FAILURE@, line) {
            Some(c) => (fs.push(named_failure(group_text(c, 1))), passed),
            None => match first_captures(GO_LOCATION@, line) {
                Some(c) => if fs.len() > 0 && fs.last().file is None {
                    (
                        fs.update(
                            fs.len() - 1,
                            FailureView {
                                name: fs.last().name,
                                file: Some(group_text(c, 1)),
                                line: crate::text::parse_u32_spec(group_text(c, 2)),
                                message: Some(trim(group_text(c, 3))),
                            },
                        ),
                        passed,
                    )
                } else {
                    (fs, passed)
                },
                None => (fs, passed),
            },
        }
    }
}

/// The state after the first `n` lines.
pub open spec fn go_run(ls: Seq<Seq<char>>, n: int) -> (Seq<FailureView>, u32)
    decreases n,
{
    if n <= 0 {
        (Seq::empty(), 0)
    } else {
        go_step(go_run(ls, n - 1), ls[n - 1])
    }
}

/// A package's verdict line.
pub open spec fn is_verdict(line: Seq<char>) -> bool {
    has_prefix(line, "FAIL"@) || has_prefix(line, "ok "@)
}

pub open spec fn last_verdict(ls: Seq<Seq<char>>, n: int) -> Option<Seq<char>>
    decreases n,
{
    if n <= 0 {
        None
    } else if is_verdict(ls[n - 1]) {
        Some(ls[n - 1])
    } else {
        last_verdict(ls, n - 1)
    }
}

/// What a `go test` transcript shows. It prints no totals, so the failures
/// are counted and the passes are those listed, when any are.
pub open spec fn go_outcome(text: Seq<char>) -> OutcomeView {
    let ls = lines(text);
    let (fs, passed) = go_run(ls, ls.len() as int);
    OutcomeView {
        passed: if passed > 0 {
            Some(passed)
        } else {
            None
        },
        failed: Some(fs.len() as u32),
        failures: fs,
        diagnostics: Seq::empty(),
        summary: match last_verdict(ls, ls.len() as int) {
            Some(l) => Some(trim(l)),
            None => None,
        },
    }
}

pub fn go_line(fs: &mut Vec<Failure>, passed: &mut u32, line: &[char])
    ensures
        (failure_views(final(fs)@), *final(passed)) == go_step(
            (failure_views(old(fs)@), *old(passed)),
            line@,
        ),
{
    let ghost before = fs@;
    let t = trim_start_chars(line);
    if starts_with_text(line, "--- PASS") || starts_with_text(t.as_slice(), "--- PASS") {
        *passed = passed.wrapping_add(1);
        return ;
    }
    if let Some(c) = line_captures(GO_FAILURE, line) {
        let name = group_string(&c, 1);
        let f = Failure { name, file: None, line: None, message: None };
        fs.push(f);
        assert(failure_views(fs@) =~= failure_views(before).push(f@));
        return ;
    }
    if let Some(c) = line_captures(GO_LOCATION, line) {
        if fs.len() > 0 && fs[fs.len() - 1].file.is_none() {
            let last = fs.pop().unwrap();
            let message = group_chars(&c, 3);
            let m = trim_chars(message.as_slice());
            let f = Failure {
                name: last.name,
                file: Some(group_string(&c, 1)),
                line: group_number(&c, 2),
                message: Some(string_of(m.as_slice())),
            };
            fs.push(f);
            assert(failure_views(fs@) =~= failure_views(before).update(before.len() - 1, f@));
        }
    }
}

pub fn find_verdict(ls: &Vec<Vec<char>>) -> (r: Option<String>)
    ensures
        r.deep_view() == match last_verdict(views(ls@), ls.len() as int) {
            Some(l) => Some(trim(l)),
            None => None,
        },
{
    let ghost l = views(ls@);
    let mut i = ls.len();
    while i > 0
        invariant
            i <= ls.len(),
            l == views(ls@),
            last_verdict(l, ls.len() as int) == last_verdict(l, i as int),
        decreases i,
    {
        assert(l[i - 1] == ls@[i - 1]@);
        let line = ls[i - 1].as_slice();
        if starts_with_text(line, "FAIL") || starts_with_text(line, "ok ") {
            let t = trim_chars(line);
            return Some(string_of(t.as_slice()));
        }
        i -= 1;
    }
    None
}

/// Read a `go test` transcript.
pub fn parse_go(text: &str) -> (o: CheckOutcome)
    ensures
        o@ == go_outcome(text@),
{
    let cs = chars_of(text);
    let ls = lines_of(cs.as_slice());
    let ghost l = views(ls@);
    let mut failures: Vec<Failure> = Vec::new();
    let mut passed: u32 = 0;
    let mut i: usize = 0;
    assert(failure_views(failures@) =~= Seq::<FailureView>::empty());
    while i < ls.len()
        invariant
            i <= ls.len(),
            l == views(ls@),
            (failure_views(failures@), passed) == go_run(l, i as int),
        decreases ls.len() - i,
    {
        assert(l[i as int] == ls@[i as int]@);
        go_line(&mut failures, &mut passed, ls[i].as_slice());
        i += 1;
    }
    let mut o = new_outcome();
    o.failed = Some(failures.len() as u32);
    if passed > 0 {
        o.passed = Some(passed);
    }
    o.summary = find_verdict(&ls);
    o.failures = failures;
    o
}

} // verus!

verus! {

/// How many of the first `n` lines are `--- PASS` lines.
pub open spec fn pass_lines(ls: Seq<Seq<char>>, n: int) -> int
    decreases n,
{
    if n <= 0 {
        0
    } else {
        pass_lines(ls, n - 1) + if is_pass_line(ls[n - 1]) {
            1int
        } else {
            0
        }
    }
}

/// How many of the first `n` lines report a failing test (`--- FAIL: name`).
pub open spec fn fail_lines(ls: Seq<Seq<char>>, n: int) -> int
    decreases n,
{
    if n <= 0 {
        0
    } else {
        fail_lines(ls, n - 1) + if !is_pass_line(ls[n - 1]) && first_captures(
            GO_FAILURE@,
            ls[n - 1],
        ) is Some {
            1int
        } else {
            0
        }
    }
}

proof fn lemma_go_run_counts(ls: Seq<Seq<char>>, n: int)
    requires
        n >= 0,
    ensures
        go_run(ls, n).1 as int == pass_lines(ls, n) % 0x1_0000_0000,
        go_run(ls, n).0.len() == fail_lines(ls, n),
        pass_lines(ls, n) >= 0,
    decreases n,
{
    if n > 0 {
        lemma_go_run_counts(ls, n - 1);
        let (fs, p) = go_run(ls, n - 1);
        crate::pattern::lemma_wrapping_add_mod(pass_lines(ls, n - 1), p, 1);
        vstd::arithmetic::div_mod::lemma_small_mod(p as nat, 0x1_0000_0000);
    }
}

/// A `go test` run counts one pass per `--- PASS` line and one failure per
/// `--- FAIL:` line, each failure listed in order; with no pass there is no
/// passed count.
pub proof fn lemma_go_counts(text: Seq<char>)
    ensures
        ({
            let ls = lines(text);
            let o = go_outcome(text);
            let passes = pass_lines(ls, ls.len() as int) % 0x1_0000_0000;
            &&& o.failures.len() == fail_lines(ls, ls.len() as int)
            &&& o.failed == Some(o.failures.len() as u32)
            &&& passes > 0 ==> o.passed == Some(passes as u32)
            &&& passes == 0 ==> o.passed is None
        }),
{
    let ls = lines(text);
    lemma_go_run_counts(ls, ls.len() as int);
}

} // verus!
