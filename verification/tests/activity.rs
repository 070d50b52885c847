use catdesk::activity::{
    begin, finish, full_snapshot, shorten, snapshot, Activity, MAX_DETAIL_CHARS, MAX_HISTORY,
    MAX_RECENT,
};

#[test]
fn activity_reports_running_work_and_then_its_result() {
    let mut activity = Activity::new();

    assert!(!snapshot(&activity, 0).busy);

    let mut guard = begin(
        &mut activity,
        1,
        "run_checks",
        Some("cargo test --release".to_string()),
        100,
    );
    // A reader told of the start sees the running state itself.
    let started = snapshot(&activity, 105);
    assert!(started.busy);
    assert_eq!(started.running[0].tool, "run_checks");
    assert_eq!(
        started.running[0].detail.as_deref(),
        Some("cargo test --release")
    );
    assert_eq!(started.running[0].elapsed_ms, 5);

    guard.set_result(false, Some("exit 101".to_string()));
    finish(&mut activity, guard, 150);
    let finished = snapshot(&activity, 150);
    assert!(!finished.busy);

    let done = snapshot(&activity, 160);
    assert!(!done.busy);
    assert_eq!(done.completed, 1);
    assert_eq!(done.recent[0].tool, "run_checks");
    assert!(!done.recent[0].ok);
    assert_eq!(done.recent[0].reason.as_deref(), Some("exit 101"));
    assert_eq!(done.recent[0].duration_ms, 50);

    // A guard finished without a verdict counts as having worked.
    let read = begin(&mut activity, 2, "read", None, 200);
    finish(&mut activity, read, 201);
    let after_read = snapshot(&activity, 202);
    assert_eq!(after_read.recent[0].tool, "read");
    assert!(after_read.recent[0].ok);
    assert_eq!(after_read.recent[0].reason, None);

    // Overlapping calls both show, oldest first.
    let outer = begin(&mut activity, 3, "start_command", Some("sleep 30".to_string()), 300);
    let inner = begin(&mut activity, 4, "read", Some("src/mcp.rs".to_string()), 301);
    let both = snapshot(&activity, 302);
    assert_eq!(both.running.len(), 2);
    assert_eq!(both.running[0].tool, "start_command");
    finish(&mut activity, inner, 303);
    finish(&mut activity, outer, 304);
    assert!(!snapshot(&activity, 305).busy);

    // The graph and the per-tool list make a running session readable when
    // the monitor is opened part-way through.
    let full = full_snapshot(&activity, 306);
    assert_eq!(full.history.len(), 4);
    assert_eq!(full.by_tool[0].tool, "read", "busiest tool comes first");
    assert_eq!(full.by_tool[0].count, 2);
    let run_checks = full
        .by_tool
        .iter()
        .find(|entry| entry.tool == "run_checks")
        .expect("run_checks missing");
    assert_eq!(run_checks.failed, 1);
}

#[test]
fn history_and_recent_are_both_bounded() {
    let mut activity = Activity::new();
    for i in 0..(MAX_RECENT + 5) {
        let guard = begin(&mut activity, i as u64, "read", None, i as u64);
        finish(&mut activity, guard, i as u64 + 1);
    }
    let full = full_snapshot(&activity, 1000);

    assert_eq!(full.snapshot.recent.len(), MAX_RECENT);
    assert_eq!(
        full.history.len(),
        MAX_RECENT + 5,
        "history outlives the detailed list"
    );
    assert_eq!(full.snapshot.completed, MAX_RECENT as u64 + 5);
}

#[test]
fn a_long_detail_is_collapsed_to_one_line() {
    let detail = shorten("  cargo   test\n  --release   --offline  ", MAX_DETAIL_CHARS);
    assert_eq!(detail, "cargo test --release --offline");

    let long = shorten(&"x".repeat(MAX_DETAIL_CHARS + 50), MAX_DETAIL_CHARS);
    assert_eq!(long.chars().count(), MAX_DETAIL_CHARS + 1);
    assert!(long.ends_with('…'));
}

#[test]
fn history_keeps_only_the_newest_entries() {
    let mut activity = Activity::new();
    for i in 0..(MAX_HISTORY + 3) {
        let mut guard = begin(&mut activity, i as u64, "write", None, i as u64);
        if i % 2 == 0 {
            guard.set_result(false, None);
        }
        finish(&mut activity, guard, i as u64);
    }
    let full = full_snapshot(&activity, 0);
    assert_eq!(full.history.len(), MAX_HISTORY);
    assert_eq!(full.history[0], (3, true));
    assert_eq!(full.history[MAX_HISTORY - 1], ((MAX_HISTORY + 2) as u64, false));
    assert_eq!(full.by_tool.len(), 1);
    assert_eq!(full.by_tool[0].count, (MAX_HISTORY + 3) as u64);
    assert_eq!(full.by_tool[0].failed, ((MAX_HISTORY + 3) / 2 + 1) as u64);
}

#[test]
fn finishing_an_unknown_guard_changes_nothing_and_ties_are_ordered_by_name() {
    let mut a = Activity::new();
    let g1 = begin(&mut a, 7, "zeta", None, 5);
    let g2 = begin(&mut a, 8, "alpha", None, 5);
    finish(&mut a, g1, 6);
    finish(&mut a, g2, 6);
    let full = full_snapshot(&a, 7);
    assert_eq!(full.by_tool[0].tool, "alpha");
    assert_eq!(full.by_tool[1].tool, "zeta");

    let mut b = Activity::new();
    let kept = begin(&mut b, 1, "read", None, 0);
    let mut other = Activity::new();
    let stray = begin(&mut other, 99, "write", None, 0);
    finish(&mut b, stray, 10);
    let snap = snapshot(&b, 10);
    assert!(snap.busy);
    assert_eq!(snap.completed, 0);
    finish(&mut b, kept, 10);
    assert_eq!(snapshot(&b, 10).completed, 1);
}

#[test]
fn a_reason_is_shortened_and_a_clock_running_backwards_gives_zero() {
    let mut a = Activity::new();
    let mut g = begin(&mut a, 1, "run", Some("a\tb".to_string()), 50);
    g.set_result(false, Some("y".repeat(200)));
    assert_eq!(snapshot(&a, 40).running[0].elapsed_ms, 0);
    assert_eq!(snapshot(&a, 40).running[0].detail.as_deref(), Some("a b"));
    finish(&mut a, g, 10);
    let s = snapshot(&a, 60);
    assert_eq!(s.recent[0].duration_ms, 0);
    assert_eq!(s.recent[0].reason.as_ref().unwrap().chars().count(), 161);
}

#[test]
fn shortening_twice_is_shortening_once() {
    for (text, limit) in [
        ("  ab   cd  ef ", 3usize),
        ("ab cd", 3),
        ("ab cd", 0),
        ("one two three four", 7),
        ("\t short \n", 40),
    ] {
        let once = shorten(text, limit);
        assert_eq!(shorten(&once, limit), once, "{text:?} at {limit}");
    }
    assert_eq!(shorten("ab cd", 3), "ab …");
}
