//! `cargo test` and `rustc` transcripts.

use vstd::prelude::*;

use crate::checks::{
    new_outcome, CheckOutcome, Diagnostic, DiagnosticView, Failure, FailureView, OutcomeView,
    diagnostic_views, failure_views,
};
use crate::pattern::{
    all_captures, captures_all, count_or_zero, first_captures, group_count, group_number,
    group_string, group_text, line_captures,
};
use vstd::string::StringExecFns;
use crate::text::{
    after_first, after_first_text, chars_of, has_prefix, lines, lines_of, starts_with_text,
    string_of, trim, trim_chars, views,
};

verus! {

/// One summary line per test binary.
pub const CARGO_SUMMARY: &'static str = r"test result: (?:ok|FAILED)\. (\d+) passed; (\d+) failed";

pub const CARGO_FAILURE_HEADER: &'static str = r"^---- (.+) stdout ----$";

pub const CARGO_PANIC: &'static str = r"panicked at (.+?):(\d+):(\d+):";

pub const RUSTC_LOCATION: &'static str = r"^\s*--> (.+?):(\d+):(\d+)$";

/// The sum, wrapping at `u32::MAX`, of the counts in group `g` of the first
/// `n` matches.
pub open spec fn summed(caps: Seq<Seq<Option<Seq<char>>>>, g: int, n: int) -> u32
    decreases n,
{
    if n <= 0 {
        0
    } else {
        vstd::wrapping::u32_specs::wrapping_add(
            summed(caps, g, n - 1),
            count_or_zero(group_text(caps[n - 1], g)),
        )
    }
}

/// The last of the first `n` lines that begins with `p`.
pub open spec fn last_with_prefix(ls: Seq<Seq<char>>, p: Seq<char>, n: int) -> Option<Seq<char>>
    decreases n,
{
    if n <= 0 {
        None
    } else if has_prefix(ls[n - 1], p) {
        Some(ls[n - 1])
    } else {
        last_with_prefix(ls, p, n - 1)
    }
}

pub open spec fn is_failure_header(line: Seq<char>) -> bool {
    first_captures(CARGO_FAILURE_HEADER@, line) is Some
}

/// A failure's block of output ends at the next header or at the
/// `failures:` list.
pub open spec fn ends_block(line: Seq<char>) -> bool {
    is_failure_header(line) || has_prefix(line, "failures:"@)
}

/// The assertion text after a panic banner: the first line from `k` on,
/// before the next header, that is not blank and not a `note:`.
pub open spec fn panic_message(ls: Seq<Seq<char>>, k: int) -> Option<Seq<char>>
    decreases ls.len() - k,
{
    if k < 0 || k >= ls.len() || is_failure_header(ls[k]) {
        None
    } else if trim(ls[k]).len() > 0 && !has_prefix(ls[k], "note:"@) {
        Some(trim(ls[k]))
    } else {
        panic_message(ls, k + 1)
    }
}

/// What is known of a failure so far: file, line and message.
pub type BlockState = (Option<Seq<char>>, Option<u32>, Option<Seq<char>>);

/// What line `i` of a failure's block adds: a panic banner gives the file,
/// the line and the message after it; otherwise the first line of ordinary
/// text becomes the message.
pub open spec fn block_step(ls: Seq<Seq<char>>, i: int, st: BlockState) -> BlockState {
    let line = ls[i];
    match first_captures(CARGO_PANIC@, line) {
        Some(p) => (
            Some(group_text(p, 1)),
            crate::text::parse_u32_spec(group_text(p, 2)),
            panic_message(ls, i + 1),
        ),
        None => if st.2 is None && trim(line).len() > 0 && !has_prefix(line, "thread "@)
            && !has_prefix(line, "note:"@) {
            (st.0, st.1, Some(trim(line)))
        } else {
            st
        },
    }
}

/// The state after reading a block from line `i` to its end.
pub open spec fn block_state(ls: Seq<Seq<char>>, i: int, st: BlockState) -> BlockState
    decreases ls.len() - i,
{
    if i < 0 || i >= ls.len() || ends_block(ls[i]) {
        st
    } else {
        block_state(ls, i + 1, block_step(ls, i, st))
    }
}

/// Where the block starting at line `i` ends.
pub open spec fn block_end(ls: Seq<Seq<char>>, i: int) -> int
    decreases ls.len() - i,
{
    if i < 0 || i >= ls.len() || ends_block(ls[i]) {
        i
    } else {
        block_end(ls, i + 1)
    }
}

pub proof fn lemma_block_end(ls: Seq<Seq<char>>, i: int)
    requires
        0 <= i <= ls.len(),
    ensures
        i <= block_end(ls, i) <= ls.len(),
    decreases ls.len() - i,
{
    if i < ls.len() && !ends_block(ls[i]) {
        lemma_block_end(ls, i + 1);
    }
}

/// Every failing test from line `i` on: each `---- name stdout ----` header
/// with what its block says.
pub open spec fn cargo_failures(ls: Seq<Seq<char>>, i: int) -> Seq<FailureView>
    decreases ls.len() - i,
{
    if i < 0 || i >= ls.len() {
        Seq::empty()
    } else {
        match first_captures(CARGO_FAILURE_HEADER@, ls[i]) {
            None => cargo_failures(ls, i + 1),
            Some(h) => {
                let st = block_state(ls, i + 1, (None, None, None));
                let j = block_end(ls, i + 1);
                proof {
                    lemma_block_end(ls, i + 1);
                }
                seq![
                    FailureView {
                        name: group_text(h, 1),
                        file: st.0,
                        line: st.1,
                        message: st.2,
                    },
                ] + cargo_failures(ls, j)
            },
        }
    }
}

/// The severity a compiler line announces.
pub open spec fn severity_of(line: Seq<char>) -> Option<Seq<char>> {
    if has_prefix(line, "error"@) {
        Some("error"@)
    } else if has_prefix(line, "warning"@) {
        Some("warning"@)
    } else {
        None
    }
}

/// The first `--> file:line:col` location among lines `from..to`.
pub open spec fn location_in(ls: Seq<Seq<char>>, from: int, to: int) -> Option<
    Seq<Option<Seq<char>>>,
>
    decreases to - from,
{
    if from >= to {
        None
    } else {
        match first_captures(RUSTC_LOCATION@, ls[from]) {
            Some(c) => Some(c),
            None => location_in(ls, from + 1, to),
        }
    }
}

/// The diagnostic that line `i` starts, when it names a severity, carries a
/// message after `": "` and one of the next three lines gives a location.
pub open spec fn diagnostic_at(ls: Seq<Seq<char>>, i: int) -> Option<DiagnosticView> {
    match severity_of(ls[i]) {
        None => None,
        Some(severity) => match after_first(ls[i], ": "@) {
            None => None,
            Some(message) => {
                let to = if i + 4 < ls.len() {
                    i + 4
                } else {
                    ls.len() as int
                };
                match location_in(ls, i + 1, to) {
                    None => None,
                    Some(loc) => Some(
                        DiagnosticView {
                            severity,
                            file: group_text(loc, 1),
                            line: count_or_zero(group_text(loc, 2)),
                            column: crate::text::parse_u32_spec(group_text(loc, 3)),
                            message: trim(message),
                        },
                    ),
                }
            },
        },
    }
}

/// The located diagnostics among the first `n` lines, in order.
pub open spec fn rustc_diagnostics(ls: Seq<Seq<char>>, n: int) -> Seq<DiagnosticView>
    decreases n,
{
    if n <= 0 {
        Seq::empty()
    } else {
        let before = rustc_diagnostics(ls, n - 1);
        match diagnostic_at(ls, n - 1) {
            Some(d) => before.push(d),
            None => before,
        }
    }
}

/// What a cargo transcript reports: totals over every `test result:` line
/// (present only when there is one), the last such line as the summary,
/// each failing test, and each compiler diagnostic that carries a location.
pub open spec fn cargo_outcome(text: Seq<char>) -> OutcomeView {
    let caps = all_captures(CARGO_SUMMARY@, text);
    let ls = lines(text);
    let saw = caps.len() > 0;
    OutcomeView {
        passed: if saw {
            Some(summed(caps, 1, caps.len() as int))
        } else {
            None
        },
        failed: if saw {
            Some(summed(caps, 2, caps.len() as int))
        } else {
            None
        },
        failures: cargo_failures(ls, 0),
        diagnostics: rustc_diagnostics(ls, ls.len() as int),
        summary: if saw {
            last_with_prefix(ls, "test result:"@, ls.len() as int)
        } else {
            None
        },
    }
}

/// The wrapping sum of group `g` over every match.
pub fn sum_group(caps: &Vec<Vec<Option<String>>>, g: usize) -> (n: u32)
    ensures
        n == summed(caps.deep_view(), g as int, caps.len() as int),
{
    let mut total: u32 = 0;
    let mut i: usize = 0;
    while i < caps.len()
        invariant
            i <= caps.len(),
            total == summed(caps.deep_view(), g as int, i as int),
        decreases caps.len() - i,
    {
        assert(caps.deep_view()[i as int] == caps@[i as int].deep_view());
        total = total.wrapping_add(group_count(&caps[i], g));
        i += 1;
    }
    total
}

/// The last line that begins with `p`, as a string.
pub fn last_line_with_prefix(ls: &Vec<Vec<char>>, p: &str) -> (r: Option<String>)
    ensures
        r.deep_view() == last_with_prefix(views(ls@), p@, ls.len() as int),
{
    let mut i = ls.len();
    while i > 0
        invariant
            i <= ls.len(),
            last_with_prefix(views(ls@), p@, ls.len() as int) == last_with_prefix(
                views(ls@),
                p@,
                i as int,
            ),
        decreases i,
    {
        assert(views(ls@)[i - 1] == ls@[i - 1]@);
        if starts_with_text(ls[i - 1].as_slice(), p) {
            return Some(string_of(ls[i - 1].as_slice()));
        }
        i -= 1;
    }
    None
}

pub fn is_header_line(line: &[char]) -> (r: bool)
    ensures
        r == is_failure_header(line@),
{
    line_captures(CARGO_FAILURE_HEADER, line).is_some()
}

pub fn ends_block_line(line: &[char]) -> (r: bool)
    ensures
        r == ends_block(line@),
{
    is_header_line(line) || starts_with_text(line, "failures:")
}

pub fn panic_message_from(ls: &Vec<Vec<char>>, k: usize) -> (r: Option<String>)
    ensures
        r.deep_view() == panic_message(views(ls@), k as int),
{
    let ghost l = views(ls@);
    let mut i = k;
    while i < ls.len() && !is_header_line(ls[i].as_slice())
        invariant
            k <= i,
            l == views(ls@),
            panic_message(l, k as int) == panic_message(l, i as int),
        decreases ls.len() - i,
    {
        assert(l[i as int] == ls@[i as int]@);
        let t = trim_chars(ls[i].as_slice());
        if t.len() > 0 && !starts_with_text(ls[i].as_slice(), "note:") {
            return Some(string_of(t.as_slice()));
        }
        i += 1;
    }
    if i < ls.len() {
        assert(l[i as int] == ls@[i as int]@);
    }
    None
}

/// Every failing test in the transcript's lines.
pub fn failures_in(ls: &Vec<Vec<char>>) -> (fs: Vec<Failure>)
    ensures
        failure_views(fs@) == cargo_failures(views(ls@), 0),
{
    let ghost l = views(ls@);
    let mut fs: Vec<Failure> = Vec::new();
    let mut index: usize = 0;
    assert(failure_views(fs@) + cargo_failures(l, 0) =~= cargo_failures(l, 0));
    while index < ls.len()
        invariant
            index <= ls.len(),
            l == views(ls@),
            failure_views(fs@) + cargo_failures(l, index as int) == cargo_failures(l, 0),
        decreases ls.len() - index,
    {
        assert(l[index as int] == ls@[index as int]@);
        let header = line_captures(CARGO_FAILURE_HEADER, ls[index].as_slice());
        match header {
            None => {
                index += 1;
            },
            Some(h) => {
                let ghost i0 = index as int;
                let name = group_string(&h, 1);
                index += 1;
                let ghost start = index as int;
                let mut file: Option<String> = None;
                let mut line: Option<u32> = None;
                let mut message: Option<String> = None;
                proof {
                    lemma_block_end(l, start);
                }
                while index < ls.len() && !ends_block_line(ls[index].as_slice())
                    invariant
                        start <= index <= ls.len(),
                        l == views(ls@),
                        block_state(l, index as int, (file.deep_view(), line, message.deep_view()))
                            == block_state(l, start, (None, None, None)),
                        block_end(l, index as int) == block_end(l, start),
                    decreases ls.len() - index,
                {
                    assert(l[index as int] == ls@[index as int]@);
                    let text = ls[index].as_slice();
                    match line_captures(CARGO_PANIC, text) {
                        Some(p) => {
                            file = Some(group_string(&p, 1));
                            line = group_number(&p, 2);
                            message = panic_message_from(ls, index + 1);
                        },
                        None => {
                            let t = trim_chars(text);
                            if message.is_none() && t.len() > 0 && !starts_with_text(
                                text,
                                "thread ",
                            ) && !starts_with_text(text, "note:") {
                                message = Some(string_of(t.as_slice()));
                            }
                        },
                    }
                    index += 1;
                }
                if index < ls.len() {
                    assert(l[index as int] == ls@[index as int]@);
                }
                let f = Failure { name, file, line, message };
                let ghost before = fs@;
                fs.push(f);
                proof {
                    assert(failure_views(fs@) =~= failure_views(before).push(f@));
                    assert(cargo_failures(l, i0) == seq![f@] + cargo_failures(l, index as int));
                    assert(failure_views(fs@) + cargo_failures(l, index as int) =~= failure_views(
                        before,
                    ) + cargo_failures(l, i0));
                }
            },
        }
    }
    assert(failure_views(fs@) + cargo_failures(l, index as int) =~= failure_views(fs@));
    fs
}

/// The first located line among `from..to`.
pub fn location_between(ls: &Vec<Vec<char>>, from: usize, to: usize) -> (r: Option<
    Vec<Option<String>>,
>)
    requires
        to <= ls.len(),
    ensures
        r.deep_view() == location_in(views(ls@), from as int, to as int),
{
    let ghost l = views(ls@);
    let mut k = from;
    while k < to
        invariant
            from <= k,
            to <= ls.len(),
            l == views(ls@),
            location_in(l, from as int, to as int) == location_in(l, k as int, to as int),
        decreases to - k,
    {
        assert(l[k as int] == ls@[k as int]@);
        let c = line_captures(RUSTC_LOCATION, ls[k].as_slice());
        if c.is_some() {
            return c;
        }
        k += 1;
    }
    None
}

/// The diagnostic line `index` starts, if any.
pub fn diagnostic_from(ls: &Vec<Vec<char>>, index: usize) -> (r: Option<Diagnostic>)
    requires
        index < ls.len(),
    ensures
        match r {
            Some(d) => diagnostic_at(views(ls@), index as int) == Some(d@),
            None => diagnostic_at(views(ls@), index as int) is None,
        },
{
    assert(views(ls@)[index as int] == ls@[index as int]@);
    let text = ls[index].as_slice();
    let severity: &str = if starts_with_text(text, "error") {
        "error"
    } else if starts_with_text(text, "warning") {
        "warning"
    } else {
        return None;
    };
    let rest = match after_first_text(text, ": ") {
        Some(rest) => rest,
        None => return None,
    };
    let to = if ls.len() - index > 4 {
        index + 4
    } else {
        ls.len()
    };
    let loc = match location_between(ls, index + 1, to) {
        Some(loc) => loc,
        None => return None,
    };
    let m = trim_chars(rest.as_slice());
    Some(
        Diagnostic {
            severity: String::from_str(severity),
            file: group_string(&loc, 1),
            line: group_count(&loc, 2),
            column: group_number(&loc, 3),
            message: string_of(m.as_slice()),
        },
    )
}

/// The compiler diagnostics in the transcript's lines that carry a location.
pub fn diagnostics_in(ls: &Vec<Vec<char>>) -> (ds: Vec<Diagnostic>)
    ensures
        diagnostic_views(ds@) == rustc_diagnostics(views(ls@), ls.len() as int),
{
    let ghost l = views(ls@);
    let mut ds: Vec<Diagnostic> = Vec::new();
    let mut index: usize = 0;
    assert(diagnostic_views(ds@) =~= rustc_diagnostics(l, 0));
    while index < ls.len()
        invariant
            index <= ls.len(),
            l == views(ls@),
            diagnostic_views(ds@) == rustc_diagnostics(l, index as int),
        decreases ls.len() - index,
    {
        let ghost before = ds@;
        if let Some(d) = diagnostic_from(ls, index) {
            ds.push(d);
            assert(diagnostic_views(ds@) =~= diagnostic_views(before).push(d@));
        }
        index += 1;
    }
    ds
}

/// Read a cargo transcript.
pub fn parse_cargo(text: &str) -> (o: CheckOutcome)
    ensures
        o@ == cargo_outcome(text@),
{
    let caps = captures_all(CARGO_SUMMARY, text);
    let cs = chars_of(text);
    let ls = lines_of(cs.as_slice());
    let mut o = new_outcome();
    if caps.len() > 0 {
        o.passed = Some(sum_group(&caps, 1));
        o.failed = Some(sum_group(&caps, 2));
        o.summary = last_line_with_prefix(&ls, "test result:");
    }
    o.failures = failures_in(&ls);
    o.diagnostics = diagnostics_in(&ls);
    o
}

} // verus!

verus! {

/// The plain sum of the counts in group `g` of the first `n` matches.
pub open spec fn count_total(caps: Seq<Seq<Option<Seq<char>>>>, g: int, n: int) -> int
    decreases n,
{
    if n <= 0 {
        0
    } else {
        count_total(caps, g, n - 1) + count_or_zero(group_text(caps[n - 1], g)) as int
    }
}

proof fn lemma_summed_is_total_mod(caps: Seq<Seq<Option<Seq<char>>>>, g: int, n: int)
    requires
        0 <= n,
    ensures
        summed(caps, g, n) as int == count_total(caps, g, n) % 0x1_0000_0000,
        count_total(caps, g, n) >= 0,
    decreases n,
{
    if n > 0 {
        lemma_summed_is_total_mod(caps, g, n - 1);
        let t = count_total(caps, g, n - 1);
        let b = count_or_zero(group_text(caps[n - 1], g)) as int;
        let a = summed(caps, g, n - 1) as int;
        assert(a == t % 0x1_0000_0000);
        vstd::arithmetic::div_mod::lemma_add_mod_noop(t, b, 0x1_0000_0000);
        vstd::arithmetic::div_mod::lemma_small_mod(b as nat, 0x1_0000_0000);
        assert((t + b) % 0x1_0000_0000 == (a + b) % 0x1_0000_0000);
        assert(0 <= a + b < 2 * 0x1_0000_0000);
        if a + b >= 0x1_0000_0000 {
            vstd::arithmetic::div_mod::lemma_mod_sub_multiples_vanish(a + b, 0x1_0000_0000);
            vstd::arithmetic::div_mod::lemma_small_mod((a + b - 0x1_0000_0000) as nat, 0x1_0000_0000);
            assert(-0x1_0000_0000 + (a + b) == a + b - 0x1_0000_0000);
        } else {
            vstd::arithmetic::div_mod::lemma_small_mod((a + b) as nat, 0x1_0000_0000);
        }
    }
}

proof fn lemma_total_covers(caps: Seq<Seq<Option<Seq<char>>>>, g: int, n: int, k: int)
    requires
        0 <= k < n,
    ensures
        count_total(caps, g, n) >= count_or_zero(group_text(caps[k], g)),
    decreases n,
{
    if k < n - 1 {
        lemma_total_covers(caps, g, n - 1, k);
    }
    assert(count_total(caps, g, n - 1) >= 0) by {
        lemma_summed_is_total_mod(caps, g, n - 1);
    }
}

/// A cargo run's counts add up every test binary's `test result:` line:
/// with no such line there are none; otherwise the passed and failed counts
/// are the sums over all of them (taken modulo 2^32, as `u32` wraps), and
/// no single binary's count is more than the total.
pub proof fn lemma_cargo_counts_add_up(text: Seq<char>)
    ensures
        ({
            let caps = all_captures(CARGO_SUMMARY@, text);
            let o = cargo_outcome(text);
            &&& caps.len() == 0 ==> o.passed is None && o.failed is None
            &&& caps.len() > 0 ==> o.passed == Some(
                (count_total(caps, 1, caps.len() as int) % 0x1_0000_0000) as u32,
            ) && o.failed == Some((count_total(caps, 2, caps.len() as int) % 0x1_0000_0000) as u32)
            &&& forall|k: int|
                0 <= k < caps.len() ==> count_total(caps, 2, caps.len() as int) >= count_or_zero(
                    group_text(#[trigger] caps[k], 2),
                ) && count_total(caps, 1, caps.len() as int) >= count_or_zero(
                    group_text(caps[k], 1),
                )
        }),
{
    let caps = all_captures(CARGO_SUMMARY@, text);
    lemma_summed_is_total_mod(caps, 1, caps.len() as int);
    lemma_summed_is_total_mod(caps, 2, caps.len() as int);
    assert forall|k: int| 0 <= k < caps.len() implies count_total(caps, 2, caps.len() as int)
        >= count_or_zero(group_text(#[trigger] caps[k], 2)) && count_total(caps, 1, caps.len() as int)
        >= count_or_zero(group_text(caps[k], 1)) by {
        lemma_total_covers(caps, 1, caps.len() as int, k);
        lemma_total_covers(caps, 2, caps.len() as int, k);
    }
}

} // verus!
