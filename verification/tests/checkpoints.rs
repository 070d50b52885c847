use catdesk::checkpoints::{
    checkpoints_root, first_asked, plan_capture, stamp_for, Collection, plan_restore, prune_plan, record_outcome, relative_within,
    safe_relative, select_checkpoint, sort_newest_first, store_entry, CaptureStep, Checkpoint,
    CheckpointEntry, EntryKind, PathState, RestoreReport, RestoreStep, StepOutcome,
    MAX_CHECKPOINTS, MAX_CHECKPOINT_BYTES, MAX_ENTRIES, MAX_FILE_BYTES,
};

fn checkpoint(id: &str, at: u64) -> Checkpoint {
    Checkpoint {
        id: id.to_string(),
        tool: "write".to_string(),
        created_at: String::new(),
        created_at_ms: at,
        entries: vec![CheckpointEntry {
            path: format!("{id}.txt"),
            kind: EntryKind::File,
            blob: Some("0".to_string()),
            bytes: 1,
            reason: None,
        }],
    }
}

#[test]
fn stored_paths_must_stay_inside_the_workspace() {
    assert_eq!(safe_relative("notes.txt").as_deref(), Some("notes.txt"));
    assert_eq!(safe_relative("a/..b/c").as_deref(), Some("a/..b/c"));
    assert_eq!(safe_relative("../escaped.txt"), None);
    assert_eq!(safe_relative("a/../../b"), None);
    assert_eq!(safe_relative("/etc/passwd"), None);
    assert_eq!(safe_relative(""), None);
}

#[test]
fn the_store_lives_under_the_workspace() {
    assert_eq!(checkpoints_root("/w"), "/w/.catdesk/checkpoints");
    assert_eq!(checkpoints_root("/w/"), "/w/.catdesk/checkpoints");
}

#[test]
fn paths_are_made_relative_to_the_canonical_root() {
    assert_eq!(relative_within("/w", "/w/a/b.txt").as_deref(), Some("a/b.txt"));
    assert_eq!(relative_within("/w", "/w").as_deref(), Some(""));
    assert_eq!(relative_within("/w", "/wx/a"), None);
    assert_eq!(relative_within("/", "/etc").as_deref(), Some("etc"));
}

#[test]
fn capture_decisions_follow_what_the_path_is() {
    let (step, total) = plan_capture(0, Some("a.txt"), PathState::File { size: 10 }, 5);
    assert!(matches!(step, CaptureStep::Record { kind: EntryKind::File, bytes: 10, copy: true, .. }));
    assert_eq!(total, 15);

    let (step, total) = plan_capture(0, Some("big.bin"), PathState::File { size: MAX_FILE_BYTES + 1 }, 0);
    match step {
        CaptureStep::Record { kind, reason, copy, .. } => {
            assert_eq!(kind, EntryKind::Skipped);
            assert_eq!(reason.as_deref(), Some("too large to capture"));
            assert!(!copy);
        }
        other => panic!("unexpected {other:?}"),
    }
    assert_eq!(total, 0);

    let (step, _) = plan_capture(0, Some("gone.txt"), PathState::Missing, 0);
    assert!(matches!(step, CaptureStep::Record { kind: EntryKind::Absent, .. }));
    let (step, _) = plan_capture(0, Some("link"), PathState::Symlink, 0);
    assert!(matches!(step, CaptureStep::Record { kind: EntryKind::Skipped, .. }));
    let (step, _) = plan_capture(0, Some("dir"), PathState::Directory, 0);
    assert!(matches!(step, CaptureStep::Descend));
    let (step, _) = plan_capture(0, Some(".catdesk/checkpoints/x"), PathState::Missing, 0);
    assert!(matches!(step, CaptureStep::Pass));
    let (step, _) = plan_capture(0, None, PathState::Missing, 0);
    assert!(matches!(step, CaptureStep::Pass));
    let (step, _) = plan_capture(MAX_ENTRIES, Some("a"), PathState::Missing, 0);
    assert!(matches!(step, CaptureStep::Pass));
}

#[test]
fn entries_name_their_blob_by_index() {
    let e = store_entry(7, "a.txt".to_string(), EntryKind::File, 3, None, Some(true));
    assert_eq!(e.blob.as_deref(), Some("7"));
    let e = store_entry(7, "a.txt".to_string(), EntryKind::File, 3, None, Some(false));
    assert_eq!(e.kind, EntryKind::Skipped);
    assert_eq!(e.reason.as_deref(), Some("unreadable"));
    let e = store_entry(1, "b".to_string(), EntryKind::Absent, 0, None, None);
    assert_eq!(e.blob, None);
}

#[test]
fn checkpoints_sort_newest_first_and_are_selected_by_id() {
    let sorted = sort_newest_first(vec![checkpoint("a", 1), checkpoint("b", 3), checkpoint("c", 2)]);
    let ids: Vec<&str> = sorted.iter().map(|c| c.id.as_str()).collect();
    assert_eq!(ids, vec!["b", "c", "a"]);
    assert_eq!(sorted[0].captured_paths(), vec!["b.txt"]);

    let newest = select_checkpoint(sorted, None).unwrap();
    assert_eq!(newest.id, "b");
    let chosen = select_checkpoint(vec![checkpoint("a", 1), checkpoint("c", 2)], Some("c")).unwrap();
    assert_eq!(chosen.id, "c");
    assert_eq!(
        select_checkpoint(vec![checkpoint("a", 1)], Some("zz")).unwrap_err(),
        "No checkpoint with id zz"
    );
    assert_eq!(
        select_checkpoint(Vec::new(), None).unwrap_err(),
        "No checkpoint has been recorded yet"
    );
}

#[test]
fn pruning_keeps_the_newest_within_count_and_size() {
    let sizes = vec![10u64; MAX_CHECKPOINTS + 2];
    let remove = prune_plan(&sizes);
    assert_eq!(remove.iter().filter(|r| **r).count(), 2);
    assert!(!remove[0]);
    assert!(remove[MAX_CHECKPOINTS]);
}

#[test]
fn restoring_follows_what_was_captured() {
    let file = CheckpointEntry {
        path: "notes.txt".to_string(),
        kind: EntryKind::File,
        blob: Some("0".to_string()),
        bytes: 7,
        reason: None,
    };
    assert!(matches!(plan_restore(&file), RestoreStep::Copy { .. }));
    let absent = CheckpointEntry {
        path: "new.txt".to_string(),
        kind: EntryKind::Absent,
        blob: None,
        bytes: 0,
        reason: None,
    };
    assert!(matches!(plan_restore(&absent), RestoreStep::Remove { .. }));
    let escaping = CheckpointEntry {
        path: "../escaped.txt".to_string(),
        kind: EntryKind::File,
        blob: Some("1".to_string()),
        bytes: 1,
        reason: None,
    };
    assert!(matches!(plan_restore(&escaping), RestoreStep::Skip));

    let mut report = RestoreReport::new();
    record_outcome(&mut report, &file.path, &plan_restore(&file), StepOutcome::Done);
    record_outcome(&mut report, &absent.path, &plan_restore(&absent), StepOutcome::NothingThere);
    record_outcome(&mut report, &escaping.path, &plan_restore(&escaping), StepOutcome::Done);
    assert_eq!(report.restored, vec!["notes.txt".to_string()]);
    assert!(report.removed.is_empty());
    assert_eq!(report.skipped, vec!["../escaped.txt".to_string()]);
}

#[test]
fn a_later_capture_in_the_same_millisecond_lists_first() {
    let first = checkpoint("first", stamp_for(1_000, &Vec::new()));
    assert_eq!(first.created_at_ms, 1_000);
    let stored = vec![first];
    let second = checkpoint("second", stamp_for(1_000, &stored));
    assert_eq!(second.created_at_ms, 1_001);
    let mut stored = stored;
    stored.push(second);
    let listed = sort_newest_first(stored);
    assert_eq!(listed[0].id, "second");
    assert_eq!(listed[1].id, "first");
    assert_eq!(stamp_for(5_000, &listed), 5_000);
    assert_eq!(stamp_for(7, &vec![checkpoint("max", u64::MAX)]), u64::MAX);
}

#[test]
fn a_path_asked_for_twice_is_captured_once() {
    let keys: Vec<String> = ["a.txt", "b", "a.txt", "b", "c"].iter().map(|k| k.to_string()).collect();
    assert_eq!(first_asked(&keys), vec![true, true, false, false, true]);
    assert!(first_asked(&Vec::new()).is_empty());
}

#[test]
fn a_capture_keeps_to_its_limits_and_is_nothing_when_empty() {
    let empty: Collection<u32> = Collection::new();
    assert!(empty.finish().is_none());

    let mut c: Collection<u32> = Collection::new();
    assert!(!c.consider(None, PathState::Missing, 0));
    assert!(!c.consider(Some(".catdesk/x"), PathState::Missing, 1));
    assert!(c.consider(Some("src"), PathState::Directory, 2));
    assert!(!c.consider(Some("gone.txt"), PathState::Missing, 3));
    assert!(!c.consider(Some("big.bin"), PathState::File { size: MAX_FILE_BYTES + 1 }, 4));
    for i in 0..4u32 {
        let name = format!("f{i}");
        assert!(!c.consider(Some(&name), PathState::File { size: MAX_FILE_BYTES }, 10 + i));
    }
    assert!(!c.consider(Some("one_more"), PathState::File { size: 1 }, 20));
    let items = c.finish().expect("entries");
    let kinds: Vec<EntryKind> = items.iter().map(|i| i.kind).collect();
    assert_eq!(
        kinds,
        vec![
            EntryKind::Absent,
            EntryKind::Skipped,
            EntryKind::File,
            EntryKind::File,
            EntryKind::File,
            EntryKind::File,
            EntryKind::Skipped,
        ]
    );
    assert_eq!(items[0].path, "gone.txt");
    assert_eq!(items[0].source, None);
    assert_eq!(items[2].source, Some(10));
    assert_eq!(items[6].reason.as_deref(), Some("too large to capture"));
    let copied: u64 = items.iter().filter(|i| i.kind == EntryKind::File).map(|i| i.bytes).sum();
    assert_eq!(copied, MAX_CHECKPOINT_BYTES);

    let mut many: Collection<u32> = Collection::new();
    for i in 0..MAX_ENTRIES + 3 {
        let name = format!("m{i}");
        many.consider(Some(&name), PathState::Missing, 0);
    }
    assert_eq!(many.finish().expect("entries").len(), MAX_ENTRIES);
}
