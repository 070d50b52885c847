//! What the agent is doing, and what it has been doing.
//!
//! A tool call is one request and one response, so a long run shows nothing
//! until it ends. The calls in flight, and enough history to show a session
//! to a monitor opened part-way through, are kept in an [`Activity`]: a call
//! enters it with [`begin`] and leaves it with [`finish`]. Where the record
//! lives, what the time is and who is told about a change are the caller's
//! part.

use std::collections::VecDeque;
use vstd::prelude::*;

use crate::text::{chars_of, clone_text, is_white, less_text, string_of, text_lt, white};
use vstd::string::StringExecFns;

verus! {

/// Long enough to identify the work, short enough to stay a single line.
pub const MAX_DETAIL_CHARS: usize = 120;

/// Why a call failed, trimmed to something that fits a row.
pub const MAX_REASON_CHARS: usize = 160;

/// Recent calls kept in full.
pub const MAX_RECENT: usize = 12;

/// Timestamps kept for the activity graph.
pub const MAX_HISTORY: usize = 600;

/// Deep enough to absorb a burst of fast calls before a slow reader lags.
pub const EVENT_BUFFER: usize = 256;

/// A call that has started and not yet finished.
pub struct InFlight {
    pub id: u64,
    pub tool: String,
    pub detail: Option<String>,
    pub started_ms: u64,
}

/// A call that has finished.
pub struct Finished {
    pub tool: String,
    pub detail: Option<String>,
    pub reason: Option<String>,
    pub duration_ms: u64,
    pub ok: bool,
    pub finished_ms: u64,
}

/// The totals of one tool.
#[derive(Clone, Copy, Debug, Default, PartialEq, Eq, Structural)]
pub struct ToolStat {
    pub count: u64,
    pub failed: u64,
    pub total_ms: u64,
}

/// The record of calls: those in flight, the recent ones in full, when each
/// finished and whether it worked, and per-tool totals.
pub struct Activity {
    in_flight: Vec<InFlight>,
    recent: Vec<Finished>,
    history: VecDeque<(u64, bool)>,
    by_tool: Vec<(String, ToolStat)>,
    completed: u64,
}

/// A call's standing until it is finished: which call, and its verdict.
/// A call is assumed to have worked until told otherwise.
pub struct Guard {
    id: u64,
    ok: bool,
    reason: Option<String>,
}

pub struct InFlightView {
    pub id: u64,
    pub tool: Seq<char>,
    pub detail: Option<Seq<char>>,
    pub started_ms: u64,
}

pub struct FinishedView {
    pub tool: Seq<char>,
    pub detail: Option<Seq<char>>,
    pub reason: Option<Seq<char>>,
    pub duration_ms: u64,
    pub ok: bool,
    pub finished_ms: u64,
}

pub struct ActivityView {
    pub in_flight: Seq<InFlightView>,
    pub recent: Seq<FinishedView>,
    pub history: Seq<(u64, bool)>,
    pub by_tool: Seq<(Seq<char>, ToolStat)>,
    pub completed: u64,
}

pub struct GuardView {
    pub id: u64,
    pub ok: bool,
    pub reason: Option<Seq<char>>,
}

impl View for InFlight {
    type V = InFlightView;

    open spec fn view(&self) -> InFlightView {
        InFlightView {
            id: self.id,
            tool: self.tool@,
            detail: self.detail.deep_view(),
            started_ms: self.started_ms,
        }
    }
}

impl View for Finished {
    type V = FinishedView;

    open spec fn view(&self) -> FinishedView {
        FinishedView {
            tool: self.tool@,
            detail: self.detail.deep_view(),
            reason: self.reason.deep_view(),
            duration_ms: self.duration_ms,
            ok: self.ok,
            finished_ms: self.finished_ms,
        }
    }
}

pub open spec fn in_flight_views(s: Seq<InFlight>) -> Seq<InFlightView> {
    s.map_values(|x: InFlight| x@)
}

pub open spec fn finished_views(s: Seq<Finished>) -> Seq<FinishedView> {
    s.map_values(|x: Finished| x@)
}

pub open spec fn stat_views(s: Seq<(String, ToolStat)>) -> Seq<(Seq<char>, ToolStat)> {
    s.map_values(|x: (String, ToolStat)| (x.0@, x.1))
}

impl View for Activity {
    type V = ActivityView;

    closed spec fn view(&self) -> ActivityView {
        ActivityView {
            in_flight: in_flight_views(self.in_flight@),
            recent: finished_views(self.recent@),
            history: self.history@,
            by_tool: stat_views(self.by_tool@),
            completed: self.completed,
        }
    }
}

impl View for Guard {
    type V = GuardView;

    closed spec fn view(&self) -> GuardView {
        GuardView { id: self.id, ok: self.ok, reason: self.reason.deep_view() }
    }
}

/// No tool is listed twice among the totals.
pub open spec fn tools_unique(s: Seq<(Seq<char>, ToolStat)>) -> bool {
    forall|i: int, j: int| 0 <= i < j < s.len() ==> s[i].0 != s[j].0
}

/// What every record keeps: bounded history and recent list, and one total
/// per tool.
pub open spec fn bounded(v: ActivityView) -> bool {
    &&& v.history.len() <= MAX_HISTORY
    &&& v.recent.len() <= MAX_RECENT
    &&& tools_unique(v.by_tool)
}

impl Activity {
    #[verifier::type_invariant]
    closed spec fn keeps_bounds(self) -> bool {
        bounded(self@)
    }

    /// An empty record.
    pub fn new() -> (a: Self)
        ensures
            a@ == empty_view(),
    {
        let a = Activity {
            in_flight: Vec::new(),
            recent: Vec::new(),
            history: VecDeque::new(),
            by_tool: Vec::new(),
            completed: 0,
        };
        proof {
            assert(a@.in_flight =~= Seq::<InFlightView>::empty());
            assert(a@.recent =~= Seq::<FinishedView>::empty());
            assert(a@.by_tool =~= Seq::<(Seq<char>, ToolStat)>::empty());
        }
        a
    }

    /// Every record keeps its bounds.
    pub fn check_bounds(&self)
        ensures
            bounded(self@),
    {
        proof {
            use_type_invariant(self);
        }
    }
}

pub open spec fn empty_view() -> ActivityView {
    ActivityView {
        in_flight: Seq::empty(),
        recent: Seq::empty(),
        history: Seq::empty(),
        by_tool: Seq::empty(),
        completed: 0,
    }
}

/// `split_whitespace().join(" ")` read from left to right: the text so far,
/// and whether a gap is pending before the next word.
pub open spec fn collapse_run(s: Seq<char>, n: int) -> (Seq<char>, bool)
    decreases n,
{
    if n <= 0 {
        (Seq::empty(), false)
    } else {
        let (out, gap) = collapse_run(s, n - 1);
        let c = s[n - 1];
        if is_white(c) {
            (out, out.len() > 0)
        } else if gap {
            (out.push(' ').push(c), false)
        } else {
            (out.push(c), false)
        }
    }
}

/// The words of `s` joined by single spaces.
pub open spec fn collapsed(s: Seq<char>) -> Seq<char> {
    collapse_run(s, s.len() as int).0
}

/// `s` on one line and at most `limit` characters, with `…` marking a cut.
pub open spec fn shortened(s: Seq<char>, limit: nat) -> Seq<char> {
    let c = collapsed(s);
    if c.len() <= limit {
        c
    } else {
        c.take(limit as int).push('…')
    }
}

pub open spec fn shortened_opt(s: Option<Seq<char>>, limit: nat) -> Option<Seq<char>> {
    match s {
        Some(t) => Some(shortened(t, limit)),
        None => None,
    }
}

/// Collapse runs of whitespace to single spaces, drop it at both ends, and
/// cut what is left at `limit` characters, marking the cut with `…`.
pub fn shorten(value: &str, limit: usize) -> (r: String)
    ensures
        r@ == shortened(value@, limit as nat),
{
    let cs = chars_of(value);
    let mut out: Vec<char> = Vec::new();
    let mut gap = false;
    let mut i: usize = 0;
    while i < cs.len()
        invariant
            i <= cs.len(),
            (out@, gap) == collapse_run(cs@, i as int),
        decreases cs.len() - i,
    {
        let c = cs[i];
        if white(c) {
            gap = out.len() > 0;
        } else {
            if gap {
                out.push(' ');
            }
            out.push(c);
            gap = false;
        }
        i += 1;
    }
    if out.len() <= limit {
        return string_of(out.as_slice());
    }
    out.truncate(limit);
    out.push('…');
    string_of(out.as_slice())
}

pub fn shorten_opt(value: Option<String>, limit: usize) -> (r: Option<String>)
    ensures
        r.deep_view() == shortened_opt(value.deep_view(), limit as nat),
{
    match value {
        Some(v) => Some(shorten(v.as_str(), limit)),
        None => None,
    }
}

impl Guard {
    /// A failed call without a reason is just a red dot; the reason is what
    /// makes the row worth reading.
    pub fn set_result(&mut self, ok: bool, reason: Option<String>)
        ensures
            final(self)@ == (GuardView {
                id: old(self)@.id,
                ok,
                reason: shortened_opt(reason.deep_view(), MAX_REASON_CHARS as nat),
            }),
    {
        self.ok = ok;
        self.reason = shorten_opt(reason, MAX_REASON_CHARS);
    }
}

/// The record once call `id` of `tool` has started at `started_ms`.
pub open spec fn begun(
    a: ActivityView,
    id: u64,
    tool: Seq<char>,
    detail: Option<Seq<char>>,
    started_ms: u64,
) -> ActivityView {
    ActivityView {
        in_flight: a.in_flight.push(
            InFlightView {
                id,
                tool,
                detail: shortened_opt(detail, MAX_DETAIL_CHARS as nat),
                started_ms,
            },
        ),
        ..a
    }
}

/// Register call `id` as in flight; the guard it returns assumes success.
pub fn begin(
    activity: &mut Activity,
    id: u64,
    tool: &str,
    detail: Option<String>,
    started_ms: u64,
) -> (guard: Guard)
    ensures
        final(activity)@ == begun(old(activity)@, id, tool@, detail.deep_view(), started_ms),
        guard@ == (GuardView { id, ok: true, reason: None }),
{
    proof {
        use_type_invariant(&*activity);
    }
    let entry = InFlight {
        id,
        tool: String::from_str(tool),
        detail: shorten_opt(detail, MAX_DETAIL_CHARS),
        started_ms,
    };
    let mut taken = Activity::new();
    std::mem::swap(&mut taken, activity);
    let Activity { mut in_flight, recent, history, by_tool, completed } = taken;
    let ghost before = in_flight@;
    in_flight.push(entry);
    assert(in_flight_views(in_flight@) =~= in_flight_views(before).push(entry@));
    *activity = Activity { in_flight, recent, history, by_tool, completed };
    Guard { id, ok: true, reason: None }
}

/// The position of the first call in flight with this id.
pub open spec fn id_index(s: Seq<InFlightView>, id: u64) -> int {
    choose|i: int| 0 <= i < s.len() && s[i].id == id && forall|j: int| 0 <= j < i ==> s[j].id != id
}

pub open spec fn has_id(s: Seq<InFlightView>, id: u64) -> bool {
    exists|i: int| 0 <= i < s.len() && s[i].id == id
}

/// The position of a tool's totals.
pub open spec fn tool_index(s: Seq<(Seq<char>, ToolStat)>, tool: Seq<char>) -> int {
    choose|i: int| 0 <= i < s.len() && s[i].0 == tool
}

pub open spec fn has_tool(s: Seq<(Seq<char>, ToolStat)>, tool: Seq<char>) -> bool {
    exists|i: int| 0 <= i < s.len() && s[i].0 == tool
}

/// A tool's totals after one more call of `duration_ms` that did or did not work.
pub open spec fn counted(st: ToolStat, duration_ms: u64, ok: bool) -> ToolStat {
    ToolStat {
        count: vstd::wrapping::u64_specs::wrapping_add(st.count, 1),
        failed: if ok {
            st.failed
        } else {
            vstd::wrapping::u64_specs::wrapping_add(st.failed, 1)
        },
        total_ms: vstd::wrapping::u64_specs::wrapping_add(st.total_ms, duration_ms),
    }
}

/// The totals with one more call of `tool` recorded.
pub open spec fn recorded(
    s: Seq<(Seq<char>, ToolStat)>,
    tool: Seq<char>,
    duration_ms: u64,
    ok: bool,
) -> Seq<(Seq<char>, ToolStat)> {
    if has_tool(s, tool) {
        let i = tool_index(s, tool);
        s.update(i, (tool, counted(s[i].1, duration_ms, ok)))
    } else {
        s.push((tool, counted(ToolStat { count: 0, failed: 0, total_ms: 0 }, duration_ms, ok)))
    }
}

/// The last `n` of `s`.
pub open spec fn keep_last<A>(s: Seq<A>, n: nat) -> Seq<A> {
    if s.len() > n {
        s.skip(s.len() - n)
    } else {
        s
    }
}

/// The first `n` of `s`.
pub open spec fn keep_first<A>(s: Seq<A>, n: nat) -> Seq<A> {
    if s.len() > n {
        s.take(n as int)
    } else {
        s
    }
}

/// The record once the guarded call has finished at `finished_ms`: it leaves
/// the calls in flight, its tool's totals grow, its time and verdict join
/// the history, and it heads the recent list. A guard whose call is not in
/// flight changes nothing.
pub open spec fn finished(a: ActivityView, g: GuardView, finished_ms: u64) -> ActivityView {
    if !has_id(a.in_flight, g.id) {
        a
    } else {
        let i = id_index(a.in_flight, g.id);
        let e = a.in_flight[i];
        let duration = if finished_ms >= e.started_ms {
            (finished_ms - e.started_ms) as u64
        } else {
            0
        };
        ActivityView {
            in_flight: a.in_flight.remove(i),
            recent: keep_first(
                seq![
                    FinishedView {
                        tool: e.tool,
                        detail: e.detail,
                        reason: g.reason,
                        duration_ms: duration,
                        ok: g.ok,
                        finished_ms,
                    },
                ] + a.recent,
                MAX_RECENT as nat,
            ),
            history: keep_last(a.history.push((finished_ms, g.ok)), MAX_HISTORY as nat),
            by_tool: recorded(a.by_tool, e.tool, duration, g.ok),
            completed: vstd::wrapping::u64_specs::wrapping_add(a.completed, 1),
        }
    }
}

/// Find the first call in flight with this id.
fn find_call(in_flight: &Vec<InFlight>, id: u64) -> (r: Option<usize>)
    ensures
        match r {
            Some(i) => i < in_flight.len() && has_id(in_flight_views(in_flight@), id) && i == id_index(
                in_flight_views(in_flight@),
                id,
            ),
            None => !has_id(in_flight_views(in_flight@), id),
        },
{
    let ghost v = in_flight_views(in_flight@);
    let mut i: usize = 0;
    while i < in_flight.len()
        invariant
            i <= in_flight.len(),
            v == in_flight_views(in_flight@),
            forall|j: int| 0 <= j < i ==> v[j].id != id,
        decreases in_flight.len() - i,
    {
        if in_flight[i].id == id {
            proof {
                assert(v[i as int].id == id);
                let k = id_index(v, id);
                assert(0 <= k < v.len() && v[k].id == id && forall|j: int|
                    0 <= j < k ==> v[j].id != id);
                if k < i {
                    assert(v[k].id != id);
                }
                if k > i {
                    assert(v[i as int].id != id);
                }
            }
            return Some(i);
        }
        i += 1;
    }
    None
}

/// Add one call to its tool's totals.
fn record_stat(by_tool: &mut Vec<(String, ToolStat)>, tool: &String, duration_ms: u64, ok: bool)
    requires
        tools_unique(stat_views(old(by_tool)@)),
    ensures
        stat_views(final(by_tool)@) == recorded(stat_views(old(by_tool)@), tool@, duration_ms, ok),
        tools_unique(stat_views(final(by_tool)@)),
{
    let ghost v = stat_views(by_tool@);
    let key = chars_of(tool.as_str());
    let mut i: usize = 0;
    while i < by_tool.len()
        invariant
            i <= by_tool.len(),
            v == stat_views(by_tool@),
            by_tool@ == old(by_tool)@,
            tools_unique(v),
            key@ == tool@,
            forall|j: int| 0 <= j < i ==> v[j].0 != tool@,
        decreases by_tool.len() - i,
    {
        let name = chars_of(by_tool[i].0.as_str());
        if crate::text::same_chars(name.as_slice(), key.as_slice()) {
            let st = by_tool[i].1;
            let new_st = ToolStat {
                count: st.count.wrapping_add(1),
                failed: if ok {
                    st.failed
                } else {
                    st.failed.wrapping_add(1)
                },
                total_ms: st.total_ms.wrapping_add(duration_ms),
            };
            proof {
                assert(v[i as int].0 == tool@);
                assert(has_tool(v, tool@));
                let k = tool_index(v, tool@);
                assert(0 <= k < v.len() && v[k].0 == tool@);
                if k < i {
                    assert(v[k].0 != v[i as int].0);
                }
                if k > i {
                    assert(v[i as int].0 != v[k].0);
                }
                assert(k == i);
                assert(new_st == counted(v[i as int].1, duration_ms, ok));
            }
            let entry = (tool.clone(), new_st);
            by_tool.set(i, entry);
            proof {
                assert(stat_views(by_tool@) =~= v.update(i as int, (tool@, new_st)));
                assert(recorded(v, tool@, duration_ms, ok) == v.update(i as int, (tool@, new_st)));
                assert forall|a: int, b: int|
                    0 <= a < b < stat_views(by_tool@).len() implies stat_views(by_tool@)[a].0
                    != stat_views(by_tool@)[b].0 by {
                    assert(stat_views(by_tool@)[a].0 == v[a].0);
                    assert(stat_views(by_tool@)[b].0 == v[b].0);
                }
            }
            return ;
        }
        i += 1;
    }
    let new_st = ToolStat {
        count: 1,
        failed: if ok {
            0
        } else {
            1
        },
        total_ms: duration_ms,
    };
    by_tool.push((tool.clone(), new_st));
    proof {
        assert(!has_tool(v, tool@));
        assert(stat_views(by_tool@) =~= v.push((tool@, new_st)));
        assert forall|a: int, b: int|
            0 <= a < b < stat_views(by_tool@).len() implies stat_views(by_tool@)[a].0
            != stat_views(by_tool@)[b].0 by {
            if b == v.len() {
                assert(v[a].0 != tool@);
            }
        }
    }
}

/// The guarded call has finished at `finished_ms`: record it.
pub fn finish(activity: &mut Activity, guard: Guard, finished_ms: u64)
    ensures
        final(activity)@ == finished(old(activity)@, guard@, finished_ms),
        bounded(final(activity)@),
{
    proof {
        use_type_invariant(&*activity);
    }
    let index = match find_call(&activity.in_flight, guard.id) {
        Some(i) => i,
        None => {
            proof {
                use_type_invariant(&*activity);
            }
            return ;
        },
    };
    let mut taken = Activity::new();
    std::mem::swap(&mut taken, activity);
    proof {
        use_type_invariant(&taken);
    }
    let ghost old_view = taken@;
    let Activity { mut in_flight, mut recent, mut history, mut by_tool, completed } = taken;
    let ghost flights = in_flight@;
    let entry = in_flight.remove(index);
    assert(in_flight_views(in_flight@) =~= in_flight_views(flights).remove(index as int));
    let duration = finished_ms.saturating_sub(entry.started_ms);
    record_stat(&mut by_tool, &entry.tool, duration, guard.ok);
    let ghost hist = history@;
    history.push_back((finished_ms, guard.ok));
    if history.len() > MAX_HISTORY {
        history.pop_front();
        assert(history@ =~= hist.push((finished_ms, guard.ok)).skip(1));
    }
    let done = Finished {
        tool: entry.tool,
        detail: entry.detail,
        reason: guard.reason,
        duration_ms: duration,
        ok: guard.ok,
        finished_ms,
    };
    let ghost rec = recent@;
    recent.insert(0, done);
    assert(finished_views(recent@) =~= seq![done@] + finished_views(rec));
    let ghost rec2 = recent@;
    recent.truncate(MAX_RECENT);
    assert(finished_views(recent@) =~= keep_first(finished_views(rec2), MAX_RECENT as nat));
    *activity = Activity {
        in_flight,
        recent,
        history,
        by_tool,
        completed: completed.wrapping_add(1),
    };
    proof {
        assert(activity@.history =~= keep_last(hist.push((finished_ms, guard.ok)), MAX_HISTORY as nat));
    }
}

/// A call in flight as a monitor shows it.
pub struct RunningCall {
    pub tool: String,
    pub detail: Option<String>,
    pub started_ms: u64,
    pub elapsed_ms: u64,
}

/// What is happening now, plus the last few calls.
pub struct Snapshot {
    pub busy: bool,
    pub server_time_ms: u64,
    pub completed: u64,
    pub running: Vec<RunningCall>,
    pub recent: Vec<Finished>,
}

/// One tool's totals as a monitor shows them.
pub struct ToolTotal {
    pub tool: String,
    pub count: u64,
    pub failed: u64,
    pub total_ms: u64,
}

/// Everything a monitor needs to draw a session it was not watching.
pub struct FullSnapshot {
    pub snapshot: Snapshot,
    pub history: Vec<(u64, bool)>,
    pub by_tool: Vec<ToolTotal>,
}

pub struct RunningView {
    pub tool: Seq<char>,
    pub detail: Option<Seq<char>>,
    pub started_ms: u64,
    pub elapsed_ms: u64,
}

pub struct SnapshotView {
    pub busy: bool,
    pub server_time_ms: u64,
    pub completed: u64,
    pub running: Seq<RunningView>,
    pub recent: Seq<FinishedView>,
}

pub struct FullSnapshotView {
    pub snapshot: SnapshotView,
    pub history: Seq<(u64, bool)>,
    pub by_tool: Seq<(Seq<char>, ToolStat)>,
}

impl View for RunningCall {
    type V = RunningView;

    open spec fn view(&self) -> RunningView {
        RunningView {
            tool: self.tool@,
            detail: self.detail.deep_view(),
            started_ms: self.started_ms,
            elapsed_ms: self.elapsed_ms,
        }
    }
}

pub open spec fn running_views(s: Seq<RunningCall>) -> Seq<RunningView> {
    s.map_values(|x: RunningCall| x@)
}

pub open spec fn total_views(s: Seq<ToolTotal>) -> Seq<(Seq<char>, ToolStat)> {
    s.map_values(
        |x: ToolTotal| (x.tool@, ToolStat { count: x.count, failed: x.failed, total_ms: x.total_ms }),
    )
}

impl View for Snapshot {
    type V = SnapshotView;

    open spec fn view(&self) -> SnapshotView {
        SnapshotView {
            busy: self.busy,
            server_time_ms: self.server_time_ms,
            completed: self.completed,
            running: running_views(self.running@),
            recent: finished_views(self.recent@),
        }
    }
}

impl View for FullSnapshot {
    type V = FullSnapshotView;

    open spec fn view(&self) -> FullSnapshotView {
        FullSnapshotView {
            snapshot: self.snapshot@,
            history: self.history@,
            by_tool: total_views(self.by_tool@),
        }
    }
}

/// A call in flight as seen at `now_ms`.
pub open spec fn running_at(x: InFlightView, now_ms: u64) -> RunningView {
    RunningView {
        tool: x.tool,
        detail: x.detail,
        started_ms: x.started_ms,
        elapsed_ms: if now_ms >= x.started_ms {
            (now_ms - x.started_ms) as u64
        } else {
            0
        },
    }
}

/// `x` placed into `sorted` after every call that started no later.
pub open spec fn insert_by_start(sorted: Seq<RunningView>, x: RunningView) -> Seq<RunningView>
    decreases sorted.len(),
{
    if sorted.len() == 0 {
        seq![x]
    } else if sorted.last().started_ms <= x.started_ms {
        sorted.push(x)
    } else {
        insert_by_start(sorted.drop_last(), x).push(sorted.last())
    }
}

/// The calls oldest first; calls that started together keep their order.
pub open spec fn oldest_first(s: Seq<RunningView>) -> Seq<RunningView>
    decreases s.len(),
{
    if s.len() == 0 {
        Seq::empty()
    } else {
        insert_by_start(oldest_first(s.drop_last()), s.last())
    }
}

/// What is happening at `now_ms`: whether anything is running, the running
/// calls oldest first (the one waiting longest is the one worth showing),
/// the number completed and the recent calls.
pub open spec fn snapshot_of(a: ActivityView, now_ms: u64) -> SnapshotView {
    SnapshotView {
        busy: a.in_flight.len() > 0,
        server_time_ms: now_ms,
        completed: a.completed,
        running: oldest_first(a.in_flight.map_values(|x: InFlightView| running_at(x, now_ms))),
        recent: a.recent,
    }
}

/// `a` is listed before `b`: more calls first, then by name.
pub open spec fn ranks_before(a: (Seq<char>, ToolStat), b: (Seq<char>, ToolStat)) -> bool {
    a.1.count > b.1.count || (a.1.count == b.1.count && text_lt(a.0, b.0))
}

pub open spec fn insert_by_rank(
    sorted: Seq<(Seq<char>, ToolStat)>,
    x: (Seq<char>, ToolStat),
) -> Seq<(Seq<char>, ToolStat)>
    decreases sorted.len(),
{
    if sorted.len() == 0 {
        seq![x]
    } else if !ranks_before(x, sorted.last()) {
        sorted.push(x)
    } else {
        insert_by_rank(sorted.drop_last(), x).push(sorted.last())
    }
}

/// The per-tool totals, busiest first and by name among equals: the order
/// a name-ordered map gets from a stable sort by count.
pub open spec fn busiest_first(s: Seq<(Seq<char>, ToolStat)>) -> Seq<(Seq<char>, ToolStat)>
    decreases s.len(),
{
    if s.len() == 0 {
        Seq::empty()
    } else {
        insert_by_rank(busiest_first(s.drop_last()), s.last())
    }
}

pub open spec fn full_snapshot_of(a: ActivityView, now_ms: u64) -> FullSnapshotView {
    FullSnapshotView {
        snapshot: snapshot_of(a, now_ms),
        history: a.history,
        by_tool: busiest_first(a.by_tool),
    }
}

/// Inserting into `sorted` at `j`, behind the calls that started no later
/// and before those that started later, is what `insert_by_start` does.
proof fn lemma_insert_by_start(sorted: Seq<RunningView>, x: RunningView, j: int)
    requires
        0 <= j <= sorted.len(),
        forall|k: int| j <= k < sorted.len() ==> sorted[k].started_ms > x.started_ms,
        j == 0 || sorted[j - 1].started_ms <= x.started_ms,
    ensures
        insert_by_start(sorted, x) == sorted.insert(j, x),
    decreases sorted.len(),
{
    if sorted.len() == 0 {
        assert(sorted.insert(j, x) =~= seq![x]);
    } else if j == sorted.len() {
        assert(sorted.insert(j, x) =~= sorted.push(x));
    } else {
        lemma_insert_by_start(sorted.drop_last(), x, j);
        assert(sorted.drop_last().insert(j, x).push(sorted.last()) =~= sorted.insert(j, x));
    }
}

/// Ordered by start, oldest first.
pub open spec fn by_start(s: Seq<RunningView>) -> bool {
    forall|i: int, j: int| 0 <= i < j < s.len() ==> s[i].started_ms <= s[j].started_ms
}

proof fn lemma_insert_keeps_order(sorted: Seq<RunningView>, x: RunningView)
    requires
        by_start(sorted),
    ensures
        by_start(insert_by_start(sorted, x)),
        insert_by_start(sorted, x).len() == sorted.len() + 1,
    decreases sorted.len(),
{
    if sorted.len() > 0 && sorted.last().started_ms > x.started_ms {
        let rest = sorted.drop_last();
        lemma_insert_keeps_order(rest, x);
        lemma_insert_elements(rest, x);
        let r = insert_by_start(rest, x);
        assert forall|i: int, j: int| 0 <= i < j < r.push(sorted.last()).len() implies r.push(
            sorted.last(),
        )[i].started_ms <= r.push(sorted.last())[j].started_ms by {
            if j == r.len() {
                let e = r[i];
                assert(e == x || rest.contains(e));
                if e != x {
                    let k = choose|k: int| 0 <= k < rest.len() && rest[k] == e;
                    assert(sorted[k] == e);
                }
            }
        }
    }
}

proof fn lemma_insert_elements(sorted: Seq<RunningView>, x: RunningView)
    ensures
        forall|i: int|
            0 <= i < insert_by_start(sorted, x).len() ==> #[trigger] insert_by_start(sorted, x)[i]
                == x || sorted.contains(insert_by_start(sorted, x)[i]),
    decreases sorted.len(),
{
    if sorted.len() > 0 && sorted.last().started_ms > x.started_ms {
        let rest = sorted.drop_last();
        lemma_insert_elements(rest, x);
        let r = insert_by_start(rest, x);
        assert forall|i: int| 0 <= i < r.push(sorted.last()).len() implies #[trigger] r.push(
            sorted.last(),
        )[i] == x || sorted.contains(r.push(sorted.last())[i]) by {
            if i < r.len() {
                if r[i] != x {
                    let k = choose|k: int| 0 <= k < rest.len() && rest[k] == r[i];
                    assert(sorted[k] == r[i]);
                }
            } else {
                assert(sorted[sorted.len() - 1] == sorted.last());
            }
        }
    } else if sorted.len() > 0 {
        assert forall|i: int| 0 <= i < sorted.push(x).len() implies #[trigger] sorted.push(x)[i]
            == x || sorted.contains(sorted.push(x)[i]) by {
            if i < sorted.len() {
                assert(sorted[i] == sorted.push(x)[i]);
            }
        }
    }
}

/// The calls come out oldest first.
pub proof fn lemma_oldest_first_is_ordered(s: Seq<RunningView>)
    ensures
        by_start(oldest_first(s)),
        oldest_first(s).len() == s.len(),
    decreases s.len(),
{
    if s.len() > 0 {
        lemma_oldest_first_is_ordered(s.drop_last());
        lemma_insert_keeps_order(oldest_first(s.drop_last()), s.last());
    }
}

pub fn copy_finished(x: &Finished) -> (r: Finished)
    ensures
        r@ == x@,
{
    Finished {
        tool: x.tool.clone(),
        detail: clone_text(&x.detail),
        reason: clone_text(&x.reason),
        duration_ms: x.duration_ms,
        ok: x.ok,
        finished_ms: x.finished_ms,
    }
}

/// What is happening at `now_ms`, with the calls in flight oldest first.
pub fn snapshot(activity: &Activity, now_ms: u64) -> (s: Snapshot)
    ensures
        s@ == snapshot_of(activity@, now_ms),
        s.busy == (s.running.len() > 0),
        by_start(s@.running),
{
    let ghost flights = activity@.in_flight;
    let ghost mapped = flights.map_values(|x: InFlightView| running_at(x, now_ms));
    let mut running: Vec<RunningCall> = Vec::new();
    let mut i: usize = 0;
    assert(running_views(running@) =~= oldest_first(mapped.take(0)));
    while i < activity.in_flight.len()
        invariant
            i <= activity.in_flight.len(),
            flights == activity@.in_flight,
            flights.len() == activity.in_flight.len(),
            mapped == flights.map_values(|x: InFlightView| running_at(x, now_ms)),
            running_views(running@) == oldest_first(mapped.take(i as int)),
        decreases activity.in_flight.len() - i,
    {
        let e = &activity.in_flight[i];
        let x = RunningCall {
            tool: e.tool.clone(),
            detail: clone_text(&e.detail),
            started_ms: e.started_ms,
            elapsed_ms: now_ms.saturating_sub(e.started_ms),
        };
        proof {
            assert(flights[i as int] == e@);
            assert(x@ == mapped[i as int]);
        }
        let mut j = running.len();
        while j > 0 && running[j - 1].started_ms > x.started_ms
            invariant
                j <= running.len(),
                forall|k: int| j <= k < running.len() ==> running@[k].started_ms > x.started_ms,
            decreases j,
        {
            j -= 1;
        }
        let ghost before = running_views(running@);
        running.insert(j, x);
        proof {
            assert(running_views(running@) =~= before.insert(j as int, x@));
            lemma_insert_by_start(before, x@, j as int);
            assert(mapped.take(i + 1).drop_last() =~= mapped.take(i as int));
            assert(mapped.take(i + 1).last() == mapped[i as int]);
        }
        i += 1;
    }
    let mut recent: Vec<Finished> = Vec::new();
    let mut k: usize = 0;
    while k < activity.recent.len()
        invariant
            k <= activity.recent.len(),
            finished_views(recent@) == activity@.recent.take(k as int),
            activity@.recent.len() == activity.recent.len(),
        decreases activity.recent.len() - k,
    {
        let r = copy_finished(&activity.recent[k]);
        let ghost before = recent@;
        recent.push(r);
        assert(activity@.recent[k as int] == activity.recent@[k as int]@);
        assert(finished_views(recent@) =~= finished_views(before).push(r@));
        assert(finished_views(recent@) =~= activity@.recent.take(k + 1));
        k += 1;
    }
    proof {
        assert(mapped.take(flights.len() as int) =~= mapped);
        assert(activity@.recent.take(activity.recent.len() as int) =~= activity@.recent);
        lemma_oldest_first_is_ordered(mapped);
    }
    let busy = activity.in_flight.len() > 0;
    Snapshot {
        busy,
        server_time_ms: now_ms,
        completed: activity.completed,
        running,
        recent,
    }
}

proof fn lemma_insert_by_rank(
    sorted: Seq<(Seq<char>, ToolStat)>,
    x: (Seq<char>, ToolStat),
    j: int,
)
    requires
        0 <= j <= sorted.len(),
        forall|k: int| j <= k < sorted.len() ==> ranks_before(x, #[trigger] sorted[k]),
        j == 0 || !ranks_before(x, sorted[j - 1]),
    ensures
        insert_by_rank(sorted, x) == sorted.insert(j, x),
    decreases sorted.len(),
{
    if sorted.len() == 0 {
        assert(sorted.insert(j, x) =~= seq![x]);
    } else if j == sorted.len() {
        assert(sorted.insert(j, x) =~= sorted.push(x));
    } else {
        assert(ranks_before(x, sorted[sorted.len() - 1]));
        lemma_insert_by_rank(sorted.drop_last(), x, j);
        assert(sorted.drop_last().insert(j, x).push(sorted.last()) =~= sorted.insert(j, x));
    }
}

pub fn rank_before(a: &(String, ToolStat), b: &(String, ToolStat)) -> (r: bool)
    ensures
        r == ranks_before((a.0@, a.1), (b.0@, b.1)),
{
    if a.1.count != b.1.count {
        return a.1.count > b.1.count;
    }
    let x = chars_of(a.0.as_str());
    let y = chars_of(b.0.as_str());
    less_text(x.as_slice(), y.as_slice())
}

/// Everything a monitor needs to draw the session so far at `now_ms`.
pub fn full_snapshot(activity: &Activity, now_ms: u64) -> (f: FullSnapshot)
    ensures
        f@ == full_snapshot_of(activity@, now_ms),
{
    let snap = snapshot(activity, now_ms);
    let ghost totals = activity@.by_tool;
    let mut sorted: Vec<(String, ToolStat)> = Vec::new();
    let mut i: usize = 0;
    assert(stat_views(sorted@) =~= busiest_first(totals.take(0)));
    while i < activity.by_tool.len()
        invariant
            i <= activity.by_tool.len(),
            totals == activity@.by_tool,
            totals.len() == activity.by_tool.len(),
            stat_views(sorted@) == busiest_first(totals.take(i as int)),
        decreases activity.by_tool.len() - i,
    {
        let x = (activity.by_tool[i].0.clone(), activity.by_tool[i].1);
        assert((x.0@, x.1) == totals[i as int]);
        let mut j = sorted.len();
        while j > 0 && rank_before(&x, &sorted[j - 1])
            invariant
                j <= sorted.len(),
                forall|k: int|
                    j <= k < sorted.len() ==> ranks_before(
                        (x.0@, x.1),
                        #[trigger] stat_views(sorted@)[k],
                    ),
            decreases j,
        {
            assert(stat_views(sorted@)[j - 1] == (sorted@[j - 1].0@, sorted@[j - 1].1));
            j -= 1;
        }
        let ghost before = stat_views(sorted@);
        proof {
            if j > 0 {
                assert(before[j - 1] == (sorted@[j - 1].0@, sorted@[j - 1].1));
            }
        }
        sorted.insert(j, x);
        proof {
            assert(stat_views(sorted@) =~= before.insert(j as int, (x.0@, x.1)));
            lemma_insert_by_rank(before, (x.0@, x.1), j as int);
            assert(totals.take(i + 1).drop_last() =~= totals.take(i as int));
            assert(totals.take(i + 1).last() == totals[i as int]);
        }
        i += 1;
    }
    let mut by_tool: Vec<ToolTotal> = Vec::new();
    let mut k: usize = 0;
    while k < sorted.len()
        invariant
            k <= sorted.len(),
            total_views(by_tool@) == stat_views(sorted@).take(k as int),
        decreases sorted.len() - k,
    {
        let t = ToolTotal {
            tool: sorted[k].0.clone(),
            count: sorted[k].1.count,
            failed: sorted[k].1.failed,
            total_ms: sorted[k].1.total_ms,
        };
        let ghost before = by_tool@;
        by_tool.push(t);
        assert(stat_views(sorted@)[k as int] == (sorted@[k as int].0@, sorted@[k as int].1));
        assert(total_views(by_tool@) =~= total_views(before).push(stat_views(sorted@)[k as int]));
        assert(total_views(by_tool@) =~= stat_views(sorted@).take(k + 1));
        k += 1;
    }
    let mut history: Vec<(u64, bool)> = Vec::new();
    let mut h: usize = 0;
    while h < activity.history.len()
        invariant
            h <= activity.history.len(),
            history@ == activity.history@.take(h as int),
        decreases activity.history.len() - h,
    {
        history.push(activity.history[h]);
        assert(history@ =~= activity.history@.take(h + 1));
        h += 1;
    }
    proof {
        assert(totals.take(totals.len() as int) =~= totals);
        assert(stat_views(sorted@).take(sorted.len() as int) =~= stat_views(sorted@));
        assert(activity.history@.take(activity.history.len() as int) =~= activity.history@);
    }
    FullSnapshot { snapshot: snap, history, by_tool }
}

/// Begun, then finished: while it runs the call is in flight; once its guard
/// is finished it is not, one more call has completed, the call heads the
/// recent list with its tool, detail and verdict, its finish time and
/// verdict end the history, and the record keeps its bounds.
pub proof fn lemma_begin_then_finish(
    a: ActivityView,
    id: u64,
    tool: Seq<char>,
    detail: Option<Seq<char>>,
    started_ms: u64,
    ok: bool,
    reason: Option<Seq<char>>,
    finished_ms: u64,
)
    requires
        bounded(a),
        !has_id(a.in_flight, id),
    ensures
        has_id(begun(a, id, tool, detail, started_ms).in_flight, id),
        ({
            let f = finished(
                begun(a, id, tool, detail, started_ms),
                GuardView { id, ok, reason },
                finished_ms,
            );
            &&& f.in_flight == a.in_flight
            &&& f.completed == vstd::wrapping::u64_specs::wrapping_add(a.completed, 1)
            &&& f.recent[0] == FinishedView {
                tool,
                detail: shortened_opt(detail, MAX_DETAIL_CHARS as nat),
                reason,
                duration_ms: if finished_ms >= started_ms {
                    (finished_ms - started_ms) as u64
                } else {
                    0
                },
                ok,
                finished_ms,
            }
            &&& f.history.last() == (finished_ms, ok)
            &&& bounded(f)
        }),
{
    let b = begun(a, id, tool, detail, started_ms);
    let n = a.in_flight.len() as int;
    assert(b.in_flight[n].id == id);
    let k = id_index(b.in_flight, id);
    assert(0 <= k < b.in_flight.len() && b.in_flight[k].id == id && forall|j: int|
        0 <= j < k ==> b.in_flight[j].id != id) by {
        assert forall|j: int| 0 <= j < n implies b.in_flight[j].id != id by {
            assert(b.in_flight[j] == a.in_flight[j]);
        }
    }
    if k < n {
        assert(b.in_flight[k] == a.in_flight[k]);
    }
    assert(k == n);
    let f = finished(b, GuardView { id, ok, reason }, finished_ms);
    assert(f.in_flight =~= a.in_flight);
    lemma_recorded_unique(a.by_tool, tool, if finished_ms >= started_ms {
        (finished_ms - started_ms) as u64
    } else {
        0
    }, ok);
}

/// One more call keeps one total per tool.
pub proof fn lemma_recorded_unique(
    s: Seq<(Seq<char>, ToolStat)>,
    tool: Seq<char>,
    duration_ms: u64,
    ok: bool,
)
    requires
        tools_unique(s),
    ensures
        tools_unique(recorded(s, tool, duration_ms, ok)),
{
    let r = recorded(s, tool, duration_ms, ok);
    if has_tool(s, tool) {
        let i = tool_index(s, tool);
        assert forall|x: int, y: int| 0 <= x < y < r.len() implies r[x].0 != r[y].0 by {
            assert(r[x].0 == s[x].0);
            assert(r[y].0 == s[y].0);
        }
    } else {
        assert forall|x: int, y: int| 0 <= x < y < r.len() implies r[x].0 != r[y].0 by {
            if y == s.len() {
                assert(s[x].0 != tool);
            }
        }
    }
}

} // verus!

verus! {

/// A text as collapsing leaves it: white space only as single spaces
/// between other characters.
pub open spec fn is_collapsed(t: Seq<char>) -> bool {
    &&& forall|i: int| 0 <= i < t.len() && is_white(#[trigger] t[i]) ==> t[i] == ' '
    &&& t.len() > 0 ==> !is_white(t[0]) && !is_white(t.last())
    &&& forall|i: int| 0 < i < t.len() && is_white(#[trigger] t[i]) ==> !is_white(t[i - 1])
}

proof fn lemma_collapse_run_shape(s: Seq<char>, n: int)
    requires
        0 <= n <= s.len(),
    ensures
        is_collapsed(collapse_run(s, n).0),
        collapse_run(s, n).1 ==> collapse_run(s, n).0.len() > 0,
    decreases n,
{
    if n > 0 {
        lemma_collapse_run_shape(s, n - 1);
        let (out, gap) = collapse_run(s, n - 1);
        let c = s[n - 1];
        assert(is_white(' '));
        if !is_white(c) {
            if gap {
                let o = out.push(' ').push(c);
                assert forall|i: int| 0 < i < o.len() && is_white(#[trigger] o[i]) implies !is_white(
                    o[i - 1],
                ) by {
                    if i < out.len() {
                        assert(o[i] == out[i] && o[i - 1] == out[i - 1]);
                    }
                }
                assert forall|i: int| 0 <= i < o.len() && is_white(#[trigger] o[i]) implies o[i]
                    == ' ' by {
                    if i < out.len() {
                        assert(o[i] == out[i]);
                    }
                }
                assert(o[0] == out[0]);
            } else {
                let o = out.push(c);
                assert forall|i: int| 0 < i < o.len() && is_white(#[trigger] o[i]) implies !is_white(
                    o[i - 1],
                ) by {
                    if i < out.len() {
                        assert(o[i] == out[i] && o[i - 1] == out[i - 1]);
                    }
                }
                assert forall|i: int| 0 <= i < o.len() && is_white(#[trigger] o[i]) implies o[i]
                    == ' ' by {
                    if i < out.len() {
                        assert(o[i] == out[i]);
                    }
                }
                if out.len() > 0 {
                    assert(o[0] == out[0]);
                }
            }
        }
    }
}

proof fn lemma_collapse_run_keeps(t: Seq<char>, n: int)
    requires
        is_collapsed(t),
        0 <= n <= t.len(),
    ensures
        collapse_run(t, n) == if n > 0 && is_white(t[n - 1]) {
            (t.take(n - 1), true)
        } else {
            (t.take(n), false)
        },
    decreases n,
{
    if n > 0 {
        lemma_collapse_run_keeps(t, n - 1);
        let c = t[n - 1];
        if is_white(c) {
            assert(n - 1 > 0);
            assert(!is_white(t[n - 2]));
        } else if n >= 2 && is_white(t[n - 2]) {
            assert(t[n - 2] == ' ');
            assert(t.take(n - 2).push(' ').push(c) =~= t.take(n));
        } else {
            assert(t.take(n - 1).push(c) =~= t.take(n));
        }
    } else {
        assert(t.take(0) =~= Seq::<char>::empty());
    }
}

/// Collapsing a text that is already collapsed leaves it as it is.
proof fn lemma_collapsed_fixed(t: Seq<char>)
    requires
        is_collapsed(t),
    ensures
        collapsed(t) == t,
{
    lemma_collapse_run_keeps(t, t.len() as int);
    assert(t.take(t.len() as int) =~= t);
}

/// Shortening what was shortened with the same limit changes nothing: a
/// shortened text is collapsed already, and a cut one is one character
/// over its limit and keeps its cut.
pub proof fn lemma_shorten_idempotent(s: Seq<char>, limit: nat)
    ensures
        shortened(shortened(s, limit), limit) == shortened(s, limit),
{
    let c = collapsed(s);
    lemma_collapse_run_shape(s, s.len() as int);
    if c.len() <= limit {
        lemma_collapsed_fixed(c);
    } else {
        let x = c.take(limit as int).push('…');
        assert(!is_white('…'));
        assert forall|i: int| 0 < i < x.len() && is_white(#[trigger] x[i]) implies !is_white(
            x[i - 1],
        ) by {
            assert(x[i] == c[i] && x[i - 1] == c[i - 1]);
        }
        assert forall|i: int| 0 <= i < x.len() && is_white(#[trigger] x[i]) implies x[i] == ' ' by {
            assert(x[i] == c[i]);
        }
        if limit > 0 {
            assert(x[0] == c[0]);
        }
        lemma_collapsed_fixed(x);
        assert(x.take(limit as int) =~= c.take(limit as int));
    }
}

} // verus!

verus! {

/// A tool's totals: those listed for it, or none at all when it has no entry.
pub open spec fn stat_of(s: Seq<(Seq<char>, ToolStat)>, tool: Seq<char>) -> ToolStat {
    if exists|i: int| 0 <= i < s.len() && s[i].0 == tool {
        s[choose|i: int| 0 <= i < s.len() && s[i].0 == tool].1
    } else {
        ToolStat { count: 0, failed: 0, total_ms: 0 }
    }
}

proof fn lemma_stat_at(s: Seq<(Seq<char>, ToolStat)>, tool: Seq<char>, i: int)
    requires
        tools_unique(s),
        0 <= i < s.len(),
        s[i].0 == tool,
    ensures
        stat_of(s, tool) == s[i].1,
{
    let j = choose|j: int| 0 <= j < s.len() && s[j].0 == tool;
    if j != i {
        if j < i {
            assert(s[j].0 != s[i].0);
        } else {
            assert(s[i].0 != s[j].0);
        }
    }
}

/// Finishing a call adds it to its own tool's totals and to no other's:
/// one more call, one more failure when it did not work, and its duration
/// (from start to finish; none when the clock went back) added to the
/// time, each wrapping at `u64::MAX`. Each tool keeps a single entry.
pub proof fn lemma_finish_adds_to_its_tool(
    a: ActivityView,
    g: GuardView,
    finished_ms: u64,
    other: Seq<char>,
)
    requires
        tools_unique(a.by_tool),
        has_id(a.in_flight, g.id),
    ensures
        ({
            let e = a.in_flight[id_index(a.in_flight, g.id)];
            let d: u64 = if finished_ms >= e.started_ms {
                (finished_ms - e.started_ms) as u64
            } else {
                0
            };
            let before = stat_of(a.by_tool, e.tool);
            let after = stat_of(finished(a, g, finished_ms).by_tool, e.tool);
            &&& after.count == vstd::wrapping::u64_specs::wrapping_add(before.count, 1)
            &&& after.failed == if g.ok {
                before.failed
            } else {
                vstd::wrapping::u64_specs::wrapping_add(before.failed, 1)
            }
            &&& after.total_ms == vstd::wrapping::u64_specs::wrapping_add(before.total_ms, d)
            &&& other != e.tool ==> stat_of(finished(a, g, finished_ms).by_tool, other) == stat_of(
                a.by_tool,
                other,
            )
            &&& tools_unique(finished(a, g, finished_ms).by_tool)
        }),
{
    let e = a.in_flight[id_index(a.in_flight, g.id)];
    let s = a.by_tool;
    let n = finished(a, g, finished_ms).by_tool;
    if has_tool(s, e.tool) {
        let i = tool_index(s, e.tool);
        assert(n == s.update(i, (e.tool, n[i].1)));
        assert(tools_unique(n)) by {
            assert forall|x: int, y: int| 0 <= x < y < n.len() implies n[x].0 != n[y].0 by {
                assert(n[x].0 == s[x].0 && n[y].0 == s[y].0);
            }
        }
        lemma_stat_at(s, e.tool, i);
        lemma_stat_at(n, e.tool, i);
        if other != e.tool {
            if exists|j: int| 0 <= j < s.len() && s[j].0 == other {
                let j = choose|j: int| 0 <= j < s.len() && s[j].0 == other;
                lemma_stat_at(s, other, j);
                assert(n[j] == s[j]);
                lemma_stat_at(n, other, j);
            } else {
                assert(!exists|j: int| 0 <= j < n.len() && n[j].0 == other) by {
                    assert forall|j: int| 0 <= j < n.len() implies n[j].0 != other by {
                        assert(n[j].0 == s[j].0);
                    }
                }
            }
        }
    } else {
        let k = s.len() as int;
        assert(n[k].0 == e.tool);
        assert(tools_unique(n)) by {
            assert forall|x: int, y: int| 0 <= x < y < n.len() implies n[x].0 != n[y].0 by {
                if y == k {
                    assert(n[x] == s[x]);
                } else {
                    assert(n[x] == s[x] && n[y] == s[y]);
                }
            }
        }
        assert(!exists|j: int| 0 <= j < s.len() && s[j].0 == e.tool);
        lemma_stat_at(n, e.tool, k);
        if other != e.tool {
            if exists|j: int| 0 <= j < s.len() && s[j].0 == other {
                let j = choose|j: int| 0 <= j < s.len() && s[j].0 == other;
                lemma_stat_at(s, other, j);
                assert(n[j] == s[j]);
                lemma_stat_at(n, other, j);
            } else {
                assert(!exists|j: int| 0 <= j < n.len() && n[j].0 == other) by {
                    assert forall|j: int| 0 <= j < n.len() implies n[j].0 != other by {
                        if j < k {
                            assert(n[j] == s[j]);
                        }
                    }
                }
            }
        }
    }
}

} // verus!
