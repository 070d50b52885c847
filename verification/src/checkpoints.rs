//! Pre-image snapshots for the workspace-editing tools.
//!
//! `write`, `edit`, `delete` and `apply_patch` record the files they are
//! about to touch, so a wrong edit can be undone. This module decides what a
//! checkpoint holds and what restoring one does; reading and writing the
//! files is the caller's part.

use vstd::prelude::*;

use crate::text::{
    decimal, decimal_text, chars_of, clone_text, has_prefix, is_text, starts_with_text, string_of, text_lt,
};
use vstd::string::StringExecFns;

verus! {

pub const CHECKPOINT_DIR: &'static str = ".catdesk/checkpoints";

/// A single file larger than this is recorded as skipped rather than copied.
pub const MAX_FILE_BYTES: u64 = 4 * 1024 * 1024;

pub const MAX_CHECKPOINT_BYTES: u64 = 16 * 1024 * 1024;

pub const MAX_ENTRIES: usize = 500;

pub const MAX_CHECKPOINTS: usize = 12;

pub const MAX_TOTAL_BYTES: u64 = 128 * 1024 * 1024;

#[derive(Clone, Copy, Debug, PartialEq, Eq, Structural)]
pub enum EntryKind {
    /// The path held a file whose contents were copied into the checkpoint.
    File,
    /// The path did not exist, so undoing means removing whatever is there now.
    Absent,
    /// The path existed but was not captured; restoring must not touch it.
    Skipped,
}

#[derive(Debug)]
pub struct CheckpointEntry {
    pub path: String,
    pub kind: EntryKind,
    pub blob: Option<String>,
    pub bytes: u64,
    pub reason: Option<String>,
}

#[derive(Debug)]
pub struct Checkpoint {
    pub id: String,
    pub tool: String,
    pub created_at: String,
    pub created_at_ms: u64,
    pub entries: Vec<CheckpointEntry>,
}

#[derive(Debug, Default)]
pub struct RestoreReport {
    pub restored: Vec<String>,
    pub removed: Vec<String>,
    pub skipped: Vec<String>,
}

pub struct EntryView {
    pub path: Seq<char>,
    pub kind: EntryKind,
    pub blob: Option<Seq<char>>,
    pub bytes: u64,
    pub reason: Option<Seq<char>>,
}

pub struct CheckpointView {
    pub id: Seq<char>,
    pub tool: Seq<char>,
    pub created_at: Seq<char>,
    pub created_at_ms: u64,
    pub entries: Seq<EntryView>,
}

pub struct ReportView {
    pub restored: Seq<Seq<char>>,
    pub removed: Seq<Seq<char>>,
    pub skipped: Seq<Seq<char>>,
}

impl View for CheckpointEntry {
    type V = EntryView;

    open spec fn view(&self) -> EntryView {
        EntryView {
            path: self.path@,
            kind: self.kind,
            blob: self.blob.deep_view(),
            bytes: self.bytes,
            reason: self.reason.deep_view(),
        }
    }
}

pub open spec fn entry_views(s: Seq<CheckpointEntry>) -> Seq<EntryView> {
    s.map_values(|e: CheckpointEntry| e@)
}

impl View for Checkpoint {
    type V = CheckpointView;

    open spec fn view(&self) -> CheckpointView {
        CheckpointView {
            id: self.id@,
            tool: self.tool@,
            created_at: self.created_at@,
            created_at_ms: self.created_at_ms,
            entries: entry_views(self.entries@),
        }
    }
}

pub open spec fn checkpoint_views(s: Seq<Checkpoint>) -> Seq<CheckpointView> {
    s.map_values(|c: Checkpoint| c@)
}

pub open spec fn texts(s: Seq<String>) -> Seq<Seq<char>> {
    s.map_values(|t: String| t@)
}

impl View for RestoreReport {
    type V = ReportView;

    open spec fn view(&self) -> ReportView {
        ReportView {
            restored: texts(self.restored@),
            removed: texts(self.removed@),
            skipped: texts(self.skipped@),
        }
    }
}

impl Checkpoint {
    /// The workspace-relative path of every entry, in order.
    pub fn captured_paths(&self) -> (paths: Vec<&str>)
        ensures
            paths@.len() == self.entries@.len(),
            forall|i: int| 0 <= i < paths@.len() ==> paths@[i]@ == self.entries@[i].path@,
    {
        let mut paths: Vec<&str> = Vec::new();
        let mut i: usize = 0;
        while i < self.entries.len()
            invariant
                i <= self.entries.len(),
                paths@.len() == i,
                forall|k: int| 0 <= k < i ==> paths@[k]@ == self.entries@[k].path@,
            decreases self.entries.len() - i,
        {
            paths.push(self.entries[i].path.as_str());
            i += 1;
        }
        paths
    }
}

impl RestoreReport {
    pub fn new() -> (r: Self)
        ensures
            r@.restored.len() == 0,
            r@.removed.len() == 0,
            r@.skipped.len() == 0,
    {
        RestoreReport { restored: Vec::new(), removed: Vec::new(), skipped: Vec::new() }
    }
}

/// `base` joined with the relative `rest`, as `Path::join` does it: one `/`
/// between them unless `base` is empty or already ends with one.
pub open spec fn joined(base: Seq<char>, rest: Seq<char>) -> Seq<char> {
    if base.len() == 0 || base.last() == '/' {
        base + rest
    } else {
        base + "/"@ + rest
    }
}

/// Where the checkpoints of the workspace at `workspace_root` are stored.
pub fn checkpoints_root(workspace_root: &str) -> (r: String)
    ensures
        r@ == joined(workspace_root@, CHECKPOINT_DIR@),
{
    let cs = chars_of(workspace_root);
    let mut r = String::from_str(workspace_root);
    if cs.len() > 0 && cs[cs.len() - 1] != '/' {
        r.append("/");
    }
    r.append(CHECKPOINT_DIR);
    r
}

/// `..` stands as a whole component of `s` at position `i`.
pub open spec fn parent_component_at(s: Seq<char>, i: int) -> bool {
    &&& 0 <= i
    &&& i + 2 <= s.len()
    &&& s[i] == '.'
    &&& s[i + 1] == '.'
    &&& (i == 0 || s[i - 1] == '/')
    &&& (i + 2 == s.len() || s[i + 2] == '/')
}

pub open spec fn has_parent_component(s: Seq<char>) -> bool {
    exists|i: int| parent_component_at(s, i)
}

/// A stored path is safe to restore when it is non-empty, relative and never
/// steps up out of a directory. Manifests live in the workspace and so are
/// reachable by the very tools this module protects against; the empty path
/// would name the workspace itself.
pub open spec fn is_safe_relative(s: Seq<char>) -> bool {
    s.len() > 0 && s[0] != '/' && !has_parent_component(s)
}

/// The stored path, if it is safe to restore.
pub fn safe_relative(path: &str) -> (r: Option<String>)
    ensures
        match r {
            Some(p) => is_safe_relative(path@) && p@ == path@,
            None => !is_safe_relative(path@),
        },
{
    let s = chars_of(path);
    if s.len() == 0 || s[0] == '/' {
        return None;
    }
    let mut i: usize = 0;
    while i < s.len()
        invariant
            i <= s.len(),
            s@ == path@,
            forall|j: int| 0 <= j < i ==> !parent_component_at(s@, j),
        decreases s.len() - i,
    {
        if s.len() - i >= 2 && s[i] == '.' && s[i + 1] == '.' && (i == 0 || s[i - 1] == '/') && (
        i + 2 == s.len() || s[i + 2] == '/') {
            assert(parent_component_at(path@, i as int));
            return None;
        }
        i += 1;
    }
    assert forall|j: int| !parent_component_at(s@, j) by {
        if 0 <= j < s.len() {
        }
    }
    Some(String::from_str(path))
}

/// `s` with every `\` written as `/`.
pub open spec fn forward_slashes(s: Seq<char>) -> Seq<char> {
    s.map_values(|c: char| if c == '\\' { '/' } else { c })
}

/// Where `candidate` lies below `root`, both canonical: the empty path for
/// the root itself, the rest after `root/` for a path inside it, and
/// nothing for a path outside.
pub open spec fn inside_root(root: Seq<char>, candidate: Seq<char>) -> Option<Seq<char>> {
    if candidate == root {
        Some(Seq::empty())
    } else if has_prefix(candidate, root) && root.len() > 0 && root.last() == '/' {
        Some(forward_slashes(candidate.skip(root.len() as int)))
    } else if has_prefix(candidate, root) && candidate.len() > root.len() && candidate[root.len() as int] == '/' {
        Some(forward_slashes(candidate.skip(root.len() as int + 1)))
    } else {
        None
    }
}

pub fn forward_slashed(s: &[char]) -> (r: Vec<char>)
    ensures
        r@ == forward_slashes(s@),
{
    let mut r: Vec<char> = Vec::new();
    let mut i: usize = 0;
    while i < s.len()
        invariant
            i <= s.len(),
            r@ == forward_slashes(s@.take(i as int)),
        decreases s.len() - i,
    {
        r.push(if s[i] == '\\' { '/' } else { s[i] });
        assert(forward_slashes(s@.take(i + 1)) =~= forward_slashes(s@.take(i as int)).push(
            if s@[i as int] == '\\' { '/' } else { s@[i as int] },
        ));
        i += 1;
    }
    assert(s@.take(s.len() as int) =~= s@);
    r
}

/// The workspace-relative form of a canonical path, if it lies in the
/// workspace at the canonical `root`.
pub fn relative_within(root: &str, candidate: &str) -> (r: Option<String>)
    ensures
        r.deep_view() == inside_root(root@, candidate@),
{
    let rc = chars_of(root);
    let cc = chars_of(candidate);
    if crate::text::same_chars(rc.as_slice(), cc.as_slice()) {
        return Some(String::new());
    }
    if !crate::text::starts_with(cc.as_slice(), rc.as_slice()) {
        return None;
    }
    let start = if rc.len() > 0 && rc[rc.len() - 1] == '/' {
        rc.len()
    } else if cc.len() > rc.len() && cc[rc.len()] == '/' {
        rc.len() + 1
    } else {
        return None;
    };
    let rest = crate::text::slice_from(cc.as_slice(), start);
    let r = forward_slashed(rest.as_slice());
    Some(string_of(r.as_slice()))
}

/// The checkpoint store's own files, which are never captured.
pub open spec fn is_own_storage(relative: Seq<char>) -> bool {
    relative == ".catdesk"@ || has_prefix(relative, ".catdesk/"@)
}

/// What a path turned out to be when it was looked at.
#[derive(Clone, Copy, Debug, PartialEq, Eq, Structural)]
pub enum PathState {
    Missing,
    Symlink,
    Directory,
    File { size: u64 },
}

/// What capturing does with one path.
#[derive(Debug)]
pub enum CaptureStep {
    /// Nothing is recorded for it.
    Pass,
    /// Its children are captured in turn, in sorted order.
    Descend,
    /// An entry is recorded; `copy` says whether the file is to be copied.
    Record { kind: EntryKind, bytes: u64, reason: Option<String>, copy: bool },
}

pub enum StepView {
    Pass,
    Descend,
    Record { kind: EntryKind, bytes: u64, reason: Option<Seq<char>>, copy: bool },
}

impl View for CaptureStep {
    type V = StepView;

    open spec fn view(&self) -> StepView {
        match self {
            CaptureStep::Pass => StepView::Pass,
            CaptureStep::Descend => StepView::Descend,
            CaptureStep::Record { kind, bytes, reason, copy } => StepView::Record {
                kind: *kind,
                bytes: *bytes,
                reason: reason.deep_view(),
                copy: *copy,
            },
        }
    }
}

/// What to do with a path, given how many entries and bytes the checkpoint
/// holds so far, where the path lies in the workspace and what it is.
/// Past the entry limit, outside the workspace and inside the store nothing
/// is recorded; a missing path is recorded as absent and a symlink as
/// skipped; a directory is descended into; a file is copied when it and the
/// running total stay within their byte limits, and skipped otherwise.
pub open spec fn capture_step(
    entries: nat,
    relative: Option<Seq<char>>,
    state: PathState,
    total_bytes: u64,
) -> (StepView, u64) {
    if entries >= MAX_ENTRIES {
        (StepView::Pass, total_bytes)
    } else {
        match relative {
            None => (StepView::Pass, total_bytes),
            Some(r) => if is_own_storage(r) {
                (StepView::Pass, total_bytes)
            } else {
                match state {
                    PathState::Missing => (
                        StepView::Record { kind: EntryKind::Absent, bytes: 0, reason: None, copy: false },
                        total_bytes,
                    ),
                    PathState::Symlink => (
                        StepView::Record {
                            kind: EntryKind::Skipped,
                            bytes: 0,
                            reason: Some("symlink"@),
                            copy: false,
                        },
                        total_bytes,
                    ),
                    PathState::Directory => (StepView::Descend, total_bytes),
                    PathState::File { size } => if r.len() == 0 {
                        (StepView::Pass, total_bytes)
                    } else if size > MAX_FILE_BYTES || total_bytes + size > MAX_CHECKPOINT_BYTES {
                        (
                            StepView::Record {
                                kind: EntryKind::Skipped,
                                bytes: size,
                                reason: Some("too large to capture"@),
                                copy: false,
                            },
                            total_bytes,
                        )
                    } else {
                        (
                            StepView::Record {
                                kind: EntryKind::File,
                                bytes: size,
                                reason: None,
                                copy: true,
                            },
                            (total_bytes + size) as u64,
                        )
                    },
                }
            },
        }
    }
}

/// Decide what capturing does with one path; the second result is the
/// running total of copied bytes afterwards.
pub fn plan_capture(
    entries: usize,
    relative: Option<&str>,
    state: PathState,
    total_bytes: u64,
) -> (r: (CaptureStep, u64))
    requires
        total_bytes <= MAX_CHECKPOINT_BYTES,
    ensures
        (r.0@, r.1) == capture_step(entries as nat, relative.deep_view(), state, total_bytes),
        r.1 <= MAX_CHECKPOINT_BYTES,
{
    if entries >= MAX_ENTRIES {
        return (CaptureStep::Pass, total_bytes);
    }
    let rel = match relative {
        None => return (CaptureStep::Pass, total_bytes),
        Some(r) => chars_of(r),
    };
    if is_text(rel.as_slice(), ".catdesk") || starts_with_text(rel.as_slice(), ".catdesk/") {
        return (CaptureStep::Pass, total_bytes);
    }
    match state {
        PathState::Missing => (
            CaptureStep::Record { kind: EntryKind::Absent, bytes: 0, reason: None, copy: false },
            total_bytes,
        ),
        PathState::Symlink => (
            CaptureStep::Record {
                kind: EntryKind::Skipped,
                bytes: 0,
                reason: Some(String::from_str("symlink")),
                copy: false,
            },
            total_bytes,
        ),
        PathState::Directory => (CaptureStep::Descend, total_bytes),
        PathState::File { size } => {
            if rel.len() == 0 {
                (CaptureStep::Pass, total_bytes)
            } else if size > MAX_FILE_BYTES || size > MAX_CHECKPOINT_BYTES - total_bytes {
                (
                    CaptureStep::Record {
                        kind: EntryKind::Skipped,
                        bytes: size,
                        reason: Some(String::from_str("too large to capture")),
                        copy: false,
                    },
                    total_bytes,
                )
            } else {
                (
                    CaptureStep::Record { kind: EntryKind::File, bytes: size, reason: None, copy: true },
                    total_bytes + size,
                )
            }
        },
    }
}

/// The entry for the `index`th collected path once its file, if it was to
/// be copied, has or has not been copied: a copied file names its blob by the
/// index; one that could not be read is recorded as skipped.
pub open spec fn stored_entry(
    index: nat,
    path: Seq<char>,
    kind: EntryKind,
    bytes: u64,
    reason: Option<Seq<char>>,
    copied: Option<bool>,
) -> EntryView {
    match copied {
        None => EntryView { path, kind, blob: None, bytes, reason },
        Some(true) => EntryView { path, kind, blob: Some(decimal(index)), bytes, reason },
        Some(false) => EntryView {
            path,
            kind: EntryKind::Skipped,
            blob: None,
            bytes,
            reason: Some("unreadable"@),
        },
    }
}

/// Build the entry for the `index`th collected path. `copied` is `None` when
/// no copy was wanted, and otherwise whether the copy succeeded.
pub fn store_entry(
    index: usize,
    path: String,
    kind: EntryKind,
    bytes: u64,
    reason: Option<String>,
    copied: Option<bool>,
) -> (e: CheckpointEntry)
    ensures
        e@ == stored_entry(index as nat, path@, kind, bytes, reason.deep_view(), copied),
{
    match copied {
        None => CheckpointEntry { path, kind, blob: None, bytes, reason },
        Some(true) => {
            let digits = decimal_text(index as u64);
            CheckpointEntry { path, kind, blob: Some(string_of(digits.as_slice())), bytes, reason }
        },
        Some(false) => CheckpointEntry {
            path,
            kind: EntryKind::Skipped,
            blob: None,
            bytes,
            reason: Some(String::from_str("unreadable")),
        },
    }
}

/// A path recorded while capturing, with what its file is to be copied
/// from (`source`, present exactly for a file to copy).
pub struct Collected<S> {
    pub path: String,
    pub kind: EntryKind,
    pub source: Option<S>,
    pub bytes: u64,
    pub reason: Option<String>,
}

pub struct CollectedView {
    pub path: Seq<char>,
    pub kind: EntryKind,
    pub copy: bool,
    pub bytes: u64,
    pub reason: Option<Seq<char>>,
}

impl<S> View for Collected<S> {
    type V = CollectedView;

    open spec fn view(&self) -> CollectedView {
        CollectedView {
            path: self.path@,
            kind: self.kind,
            copy: self.source is Some,
            bytes: self.bytes,
            reason: self.reason.deep_view(),
        }
    }
}

pub open spec fn collected_views<S>(s: Seq<Collected<S>>) -> Seq<CollectedView> {
    s.map_values(|c: Collected<S>| c@)
}

/// The bytes of the files to copy among `s`.
pub open spec fn file_bytes(s: Seq<CollectedView>) -> int
    decreases s.len(),
{
    if s.len() == 0 {
        0
    } else {
        file_bytes(s.drop_last()) + if s.last().kind == EntryKind::File {
            s.last().bytes as int
        } else {
            0
        }
    }
}

/// What one recorded path may be: a file to copy exactly when it is a
/// file, within the single-file limit, and never the store's own files.
pub open spec fn collected_ok(c: CollectedView) -> bool {
    &&& (c.kind == EntryKind::File <==> c.copy)
    &&& (c.kind == EntryKind::File ==> c.bytes <= MAX_FILE_BYTES)
    &&& !is_own_storage(c.path)
}

/// What a whole capture holds: at most `MAX_ENTRIES` entries, at most
/// `MAX_CHECKPOINT_BYTES` of files to copy, each of them recorded as above.
pub open spec fn within_capture_limits(s: Seq<CollectedView>) -> bool {
    &&& s.len() <= MAX_ENTRIES
    &&& file_bytes(s) <= MAX_CHECKPOINT_BYTES
    &&& forall|i: int| 0 <= i < s.len() ==> collected_ok(#[trigger] s[i])
}

/// The paths a capture records after one more path was looked at.
pub open spec fn considered(
    s: Seq<CollectedView>,
    total: u64,
    relative: Option<Seq<char>>,
    state: PathState,
) -> (Seq<CollectedView>, u64) {
    let (step, t) = capture_step(s.len(), relative, state, total);
    match step {
        StepView::Record { kind, bytes, reason, copy } => (
            s.push(
                CollectedView {
                    path: match relative {
                        Some(r) => r,
                        None => Seq::empty(),
                    },
                    kind,
                    copy,
                    bytes,
                    reason,
                },
            ),
            t,
        ),
        _ => (s, t),
    }
}

/// The paths a capture has recorded so far, in the order they were looked
/// at, and the bytes of the files among them to copy.
pub struct Collection<S> {
    items: Vec<Collected<S>>,
    total_bytes: u64,
}

impl<S> View for Collection<S> {
    type V = (Seq<CollectedView>, u64);

    closed spec fn view(&self) -> (Seq<CollectedView>, u64) {
        (collected_views(self.items@), self.total_bytes)
    }
}

proof fn lemma_file_bytes_push(s: Seq<CollectedView>, c: CollectedView)
    ensures
        file_bytes(s.push(c)) == file_bytes(s) + if c.kind == EntryKind::File {
            c.bytes as int
        } else {
            0
        },
{
    assert(s.push(c).drop_last() =~= s);
}

impl<S> Collection<S> {
    /// The recorded paths themselves, with the sources kept for copying.
    pub closed spec fn held(&self) -> Seq<Collected<S>> {
        self.items@
    }

    pub closed spec fn wf(&self) -> bool {
        &&& within_capture_limits(self@.0)
        &&& self@.1 == file_bytes(self@.0)
    }

    pub fn new() -> (r: Self)
        ensures
            r.wf(),
            r@.0.len() == 0,
            r@.1 == 0,
    {
        let r = Collection { items: Vec::new(), total_bytes: 0 };
        assert(r@.0 =~= Seq::<CollectedView>::empty());
        r
    }

    /// Look at one more path: record it as `capture_step` says, keeping
    /// `source` only when its file is to be copied. The result says
    /// whether the path is a directory to descend into.
    pub fn consider(&mut self, relative: Option<&str>, state: PathState, source: S) -> (descend:
        bool)
        requires
            old(self).wf(),
        ensures
            final(self).wf(),
            final(self)@ == considered(old(self)@.0, old(self)@.1, relative.deep_view(), state),
            descend == (capture_step(old(self)@.0.len(), relative.deep_view(), state, old(self)@.1).0
                is Descend),
            final(self).held().len() == final(self)@.0.len(),
            forall|i: int|
                0 <= i < old(self).held().len() ==> #[trigger] final(self).held()[i] == old(
                    self,
                ).held()[i],
            final(self)@.0.len() > old(self)@.0.len() ==> final(self).held().last().source == (
            if final(self)@.0.last().copy {
                Some(source)
            } else {
                None
            }),
    {
        let ghost before = self@.0;
        let (step, total) = plan_capture(self.items.len(), relative, state, self.total_bytes);
        match step {
            CaptureStep::Pass => {
                self.total_bytes = total;
                false
            },
            CaptureStep::Descend => {
                self.total_bytes = total;
                true
            },
            CaptureStep::Record { kind, bytes, reason, copy } => {
                let path = match relative {
                    Some(r) => String::from_str(r),
                    None => String::new(),
                };
                let item = Collected {
                    path,
                    kind,
                    source: if copy {
                        Some(source)
                    } else {
                        None
                    },
                    bytes,
                    reason,
                };
                let ghost iv = item@;
                self.items.push(item);
                self.total_bytes = total;
                proof {
                    assert(self@.0 =~= before.push(iv));
                    lemma_file_bytes_push(before, iv);
                    assert forall|i: int| 0 <= i < self@.0.len() implies collected_ok(
                        #[trigger] self@.0[i],
                    ) by {
                        if i < before.len() {
                            assert(self@.0[i] == before[i]);
                        }
                    }
                }
                false
            },
        }
    }

    /// The recorded paths, or nothing when no path was recorded: there is
    /// then nothing worth a checkpoint.
    pub fn finish(self) -> (r: Option<Vec<Collected<S>>>)
        requires
            self.wf(),
        ensures
            r is None <==> self@.0.len() == 0,
            r matches Some(v) ==> v@ == self.held() && collected_views(v@) == self@.0
                && within_capture_limits(collected_views(v@)),
    {
        if self.items.len() == 0 {
            None
        } else {
            Some(self.items)
        }
    }
}

/// Of paths asked for, which come first: a path asked for again is
/// captured once, where it was first asked for.
pub fn first_asked(keys: &Vec<String>) -> (r: Vec<bool>)
    ensures
        r@.len() == keys@.len(),
        forall|i: int|
            0 <= i < keys@.len() ==> (#[trigger] r@[i] <==> forall|j: int|
                0 <= j < i ==> keys@[j]@ != keys@[i]@),
{
    let mut r: Vec<bool> = Vec::new();
    let mut i: usize = 0;
    while i < keys.len()
        invariant
            i <= keys.len(),
            r@.len() == i,
            forall|a: int|
                0 <= a < i ==> (#[trigger] r@[a] <==> forall|j: int|
                    0 <= j < a ==> keys@[j]@ != keys@[a]@),
        decreases keys.len() - i,
    {
        let ki = chars_of(keys[i].as_str());
        let mut j: usize = 0;
        let mut fresh = true;
        while j < i
            invariant
                i < keys.len(),
                j <= i,
                ki@ == keys@[i as int]@,
                fresh <==> forall|b: int| 0 <= b < j ==> keys@[b]@ != keys@[i as int]@,
            decreases i - j,
        {
            let kj = chars_of(keys[j].as_str());
            if crate::text::same_chars(kj.as_slice(), ki.as_slice()) {
                fresh = false;
            }
            j += 1;
        }
        r.push(fresh);
        i += 1;
    }
    r
}

/// `x` placed into `sorted` after every checkpoint made no earlier.
pub open spec fn insert_newest(sorted: Seq<CheckpointView>, x: CheckpointView) -> Seq<
    CheckpointView,
>
    decreases sorted.len(),
{
    if sorted.len() == 0 {
        seq![x]
    } else if sorted.last().created_at_ms >= x.created_at_ms {
        sorted.push(x)
    } else {
        insert_newest(sorted.drop_last(), x).push(sorted.last())
    }
}

/// Checkpoints newest first; those made in the same millisecond keep their
/// order (a stable sort).
pub open spec fn newest_first(s: Seq<CheckpointView>) -> Seq<CheckpointView>
    decreases s.len(),
{
    if s.len() == 0 {
        Seq::empty()
    } else {
        insert_newest(newest_first(s.drop_last()), s.last())
    }
}

pub open spec fn is_newest_first(s: Seq<CheckpointView>) -> bool {
    forall|i: int, j: int| 0 <= i < j < s.len() ==> s[i].created_at_ms >= s[j].created_at_ms
}

proof fn lemma_insert_newest(sorted: Seq<CheckpointView>, x: CheckpointView, j: int)
    requires
        0 <= j <= sorted.len(),
        forall|k: int| j <= k < sorted.len() ==> sorted[k].created_at_ms < x.created_at_ms,
        j == 0 || sorted[j - 1].created_at_ms >= x.created_at_ms,
    ensures
        insert_newest(sorted, x) == sorted.insert(j, x),
    decreases sorted.len(),
{
    if sorted.len() == 0 {
        assert(sorted.insert(j, x) =~= seq![x]);
    } else if j == sorted.len() {
        assert(sorted.insert(j, x) =~= sorted.push(x));
    } else {
        lemma_insert_newest(sorted.drop_last(), x, j);
        assert(sorted.drop_last().insert(j, x).push(sorted.last()) =~= sorted.insert(j, x));
    }
}

proof fn lemma_insert_newest_ordered(sorted: Seq<CheckpointView>, x: CheckpointView, j: int)
    requires
        is_newest_first(sorted),
        0 <= j <= sorted.len(),
        forall|k: int| j <= k < sorted.len() ==> sorted[k].created_at_ms < x.created_at_ms,
        j == 0 || sorted[j - 1].created_at_ms >= x.created_at_ms,
    ensures
        is_newest_first(sorted.insert(j, x)),
{
    let r = sorted.insert(j, x);
    assert forall|a: int, b: int| 0 <= a < b < r.len() implies r[a].created_at_ms
        >= r[b].created_at_ms by {
        if a < j && b < j {
            assert(r[a] == sorted[a] && r[b] == sorted[b]);
        } else if a < j && b == j {
            assert(r[a] == sorted[a]);
        } else if a < j && b > j {
            assert(r[a] == sorted[a] && r[b] == sorted[b - 1]);
        } else if a == j {
            assert(r[b] == sorted[b - 1]);
        } else {
            assert(r[a] == sorted[a - 1] && r[b] == sorted[b - 1]);
        }
    }
}

/// Order checkpoints newest first, as listing them does.
pub fn sort_newest_first(checkpoints: Vec<Checkpoint>) -> (r: Vec<Checkpoint>)
    ensures
        checkpoint_views(r@) == newest_first(checkpoint_views(checkpoints@)),
        is_newest_first(checkpoint_views(r@)),
{
    let ghost all = checkpoint_views(checkpoints@);
    let total = checkpoints.len();
    let mut rest = checkpoints;
    assert(all.skip(0) =~= all);
    let mut sorted: Vec<Checkpoint> = Vec::new();
    let mut i: usize = 0;
    assert(checkpoint_views(sorted@) =~= newest_first(all.take(0)));
    while rest.len() > 0
        invariant
            i <= all.len(),
            all.len() == total,
            i + rest.len() == all.len(),
            checkpoint_views(rest@) == all.skip(i as int),
            checkpoint_views(sorted@) == newest_first(all.take(i as int)),
            is_newest_first(checkpoint_views(sorted@)),
        decreases rest.len(),
    {
        let ghost rest_before = rest@;
        let x = rest.remove(0);
        proof {
            assert(checkpoint_views(rest_before)[0] == x@);
            assert(all.skip(i as int)[0] == all[i as int]);
            assert(all[i as int] == x@);
            assert(checkpoint_views(rest@) =~= checkpoint_views(rest_before).drop_first());
            assert(all.skip(i as int).drop_first() =~= all.skip(i + 1));
        }
        let mut j = sorted.len();
        while j > 0 && sorted[j - 1].created_at_ms < x.created_at_ms
            invariant
                j <= sorted.len(),
                forall|k: int|
                    j <= k < sorted.len() ==> sorted@[k].created_at_ms < x.created_at_ms,
            decreases j,
        {
            j -= 1;
        }
        let ghost before = checkpoint_views(sorted@);
        sorted.insert(j, x);
        proof {
            assert(checkpoint_views(sorted@) =~= before.insert(j as int, x@));
            lemma_insert_newest(before, x@, j as int);
            lemma_insert_newest_ordered(before, x@, j as int);
            assert(all.take(i + 1).drop_last() =~= all.take(i as int));
            assert(all.take(i + 1).last() == x@);
        }
        i += 1;
    }
    assert(all.take(i as int) =~= all);
    sorted
}

/// The newest stamp among `s`, if any.
pub open spec fn latest_ms(s: Seq<CheckpointView>) -> Option<u64>
    decreases s.len(),
{
    if s.len() == 0 {
        None
    } else {
        match latest_ms(s.drop_last()) {
            Some(m) if m >= s.last().created_at_ms => Some(m),
            _ => Some(s.last().created_at_ms),
        }
    }
}

/// The stamp of a new checkpoint: the clock's millisecond, or one past the
/// newest stored checkpoint when the clock has not moved past it, so that
/// a later capture always lists first.
pub open spec fn next_stamp(now_ms: u64, latest: Option<u64>) -> u64 {
    match latest {
        Some(m) if m >= now_ms => if m < u64::MAX {
            (m + 1) as u64
        } else {
            m
        },
        _ => now_ms,
    }
}

proof fn lemma_latest_ms(s: Seq<CheckpointView>)
    ensures
        s.len() == 0 <==> latest_ms(s) is None,
        latest_ms(s) matches Some(m) ==> forall|i: int|
            0 <= i < s.len() ==> #[trigger] s[i].created_at_ms <= m,
    decreases s.len(),
{
    if s.len() > 0 {
        lemma_latest_ms(s.drop_last());
        assert forall|i: int| 0 <= i < s.len() - 1 implies #[trigger] s[i] == s.drop_last()[i] by {}
    }
}

/// Stamp a new checkpoint made at `now_ms`, given the checkpoints stored.
pub fn stamp_for(now_ms: u64, stored: &Vec<Checkpoint>) -> (r: u64)
    ensures
        r == next_stamp(now_ms, latest_ms(checkpoint_views(stored@))),
        r >= now_ms,
        forall|i: int|
            0 <= i < stored@.len() && stored@[i].created_at_ms < u64::MAX ==> #[trigger] stored@[i].created_at_ms
                < r,
{
    let ghost views = checkpoint_views(stored@);
    let mut latest: Option<u64> = None;
    let mut i: usize = 0;
    assert(views.take(0) =~= Seq::<CheckpointView>::empty());
    while i < stored.len()
        invariant
            i <= stored.len(),
            views == checkpoint_views(stored@),
            latest == latest_ms(views.take(i as int)),
        decreases stored.len() - i,
    {
        assert(views.take(i + 1).drop_last() =~= views.take(i as int));
        let ms = stored[i].created_at_ms;
        latest = match latest {
            Some(m) if m >= ms => Some(m),
            _ => Some(ms),
        };
        i += 1;
    }
    assert(views.take(i as int) =~= views);
    proof {
        lemma_latest_ms(views);
        assert forall|k: int| 0 <= k < stored@.len() implies #[trigger] stored@[k].created_at_ms
            == views[k].created_at_ms by {}
    }
    match latest {
        Some(m) if m >= now_ms => if m < u64::MAX {
            m + 1
        } else {
            m
        },
        _ => now_ms,
    }
}

proof fn lemma_insert_below(sorted: Seq<CheckpointView>, x: CheckpointView, b: u64)
    requires
        forall|i: int| 0 <= i < sorted.len() ==> #[trigger] sorted[i].created_at_ms < b,
        x.created_at_ms < b,
    ensures
        forall|i: int|
            0 <= i < insert_newest(sorted, x).len() ==> #[trigger] insert_newest(
                sorted,
                x,
            )[i].created_at_ms < b,
    decreases sorted.len(),
{
    let r = insert_newest(sorted, x);
    if sorted.len() == 0 {
        assert(r =~= seq![x]);
    } else if sorted.last().created_at_ms >= x.created_at_ms {
        assert forall|i: int| 0 <= i < r.len() implies #[trigger] r[i].created_at_ms < b by {
            if i < sorted.len() {
                assert(r[i] == sorted[i]);
            }
        }
    } else {
        let rest = sorted.drop_last();
        assert forall|i: int| 0 <= i < rest.len() implies #[trigger] rest[i].created_at_ms < b by {
            assert(rest[i] == sorted[i]);
        }
        lemma_insert_below(rest, x, b);
        let front = insert_newest(rest, x);
        assert forall|i: int| 0 <= i < r.len() implies #[trigger] r[i].created_at_ms < b by {
            if i < front.len() {
                assert(r[i] == front[i]);
            } else {
                assert(r[i] == sorted[sorted.len() - 1]);
            }
        }
    }
}

proof fn lemma_newest_first_below(s: Seq<CheckpointView>, b: u64)
    requires
        forall|i: int| 0 <= i < s.len() ==> #[trigger] s[i].created_at_ms < b,
    ensures
        forall|i: int|
            0 <= i < newest_first(s).len() ==> #[trigger] newest_first(s)[i].created_at_ms < b,
    decreases s.len(),
{
    if s.len() > 0 {
        lemma_newest_first_below(s.drop_last(), b);
        lemma_insert_below(newest_first(s.drop_last()), s.last(), b);
    }
}

proof fn lemma_insert_above_all(sorted: Seq<CheckpointView>, x: CheckpointView)
    requires
        forall|i: int| 0 <= i < sorted.len() ==> #[trigger] sorted[i].created_at_ms < x.created_at_ms,
    ensures
        insert_newest(sorted, x).len() > 0,
        insert_newest(sorted, x)[0] == x,
    decreases sorted.len(),
{
    if sorted.len() > 0 {
        lemma_insert_above_all(sorted.drop_last(), x);
    }
}

proof fn lemma_insert_keeps_front(sorted: Seq<CheckpointView>, y: CheckpointView)
    requires
        sorted.len() > 0,
        sorted[0].created_at_ms >= y.created_at_ms,
    ensures
        insert_newest(sorted, y).len() > 0,
        insert_newest(sorted, y)[0] == sorted[0],
    decreases sorted.len(),
{
    if sorted.len() > 1 && sorted.last().created_at_ms < y.created_at_ms {
        lemma_insert_keeps_front(sorted.drop_last(), y);
    }
}

/// A checkpoint stamped later than every other one is listed first,
/// wherever it stood before the sort.
pub proof fn lemma_latest_listed_first(s: Seq<CheckpointView>, k: int)
    requires
        0 <= k < s.len(),
        forall|i: int| 0 <= i < s.len() && i != k ==> #[trigger] s[i].created_at_ms < s[k].created_at_ms,
    ensures
        newest_first(s).len() > 0,
        newest_first(s)[0] == s[k],
    decreases s.len(),
{
    let rest = s.drop_last();
    if k == s.len() - 1 {
        assert forall|i: int| 0 <= i < rest.len() implies #[trigger] rest[i].created_at_ms
            < s[k].created_at_ms by {
            assert(rest[i] == s[i]);
        }
        lemma_newest_first_below(rest, s[k].created_at_ms);
        lemma_insert_above_all(newest_first(rest), s.last());
    } else {
        assert forall|i: int| 0 <= i < rest.len() && i != k implies #[trigger] rest[i].created_at_ms
            < rest[k].created_at_ms by {
            assert(rest[i] == s[i]);
        }
        lemma_latest_listed_first(rest, k);
        assert(s.last() == s[s.len() - 1]);
        lemma_insert_keeps_front(newest_first(rest), s.last());
    }
}

/// Which checkpoints to remove, newest first: the count limit keeps the
/// first `MAX_CHECKPOINTS`, and the size budget keeps a checkpoint only
/// while the kept ones, it included, fit in `MAX_TOTAL_BYTES`.
pub open spec fn prune_run(sizes: Seq<u64>, n: int) -> (Seq<bool>, int)
    decreases n,
{
    if n <= 0 {
        (Seq::empty(), 0)
    } else {
        let (plan, kept) = prune_run(sizes, n - 1);
        let bytes = sizes[n - 1];
        if n - 1 >= MAX_CHECKPOINTS || kept + bytes > MAX_TOTAL_BYTES {
            (plan.push(true), kept)
        } else {
            (plan.push(false), kept + bytes)
        }
    }
}

/// The total size of the checkpoints a plan keeps among the first `n`.
pub open spec fn kept_total(sizes: Seq<u64>, plan: Seq<bool>, n: int) -> int
    decreases n,
{
    if n <= 0 {
        0
    } else {
        kept_total(sizes, plan, n - 1) + if plan[n - 1] {
            0int
        } else {
            sizes[n - 1] as int
        }
    }
}

/// How many of the first `n` checkpoints a plan keeps.
pub open spec fn kept_count(plan: Seq<bool>, n: int) -> int
    decreases n,
{
    if n <= 0 {
        0
    } else {
        kept_count(plan, n - 1) + if plan[n - 1] {
            0int
        } else {
            1int
        }
    }
}

proof fn lemma_kept_prefix(sizes: Seq<u64>, p: Seq<bool>, q: Seq<bool>, n: int)
    requires
        0 <= n <= p.len(),
        n <= q.len(),
        forall|i: int| 0 <= i < n ==> p[i] == q[i],
    ensures
        kept_total(sizes, p, n) == kept_total(sizes, q, n),
        kept_count(p, n) == kept_count(q, n),
    decreases n,
{
    if n > 0 {
        lemma_kept_prefix(sizes, p, q, n - 1);
    }
}

/// Pruning leaves at most `MAX_CHECKPOINTS` checkpoints, whose sizes
/// together stay within `MAX_TOTAL_BYTES`.
pub proof fn lemma_prune_within_budget(sizes: Seq<u64>, n: int)
    requires
        0 <= n <= sizes.len(),
    ensures
        prune_run(sizes, n).0.len() == n,
        kept_count(prune_run(sizes, n).0, n) <= MAX_CHECKPOINTS,
        kept_count(prune_run(sizes, n).0, n) <= n,
        kept_total(sizes, prune_run(sizes, n).0, n) == prune_run(sizes, n).1,
        prune_run(sizes, n).1 <= MAX_TOTAL_BYTES,
    decreases n,
{
    if n > 0 {
        lemma_prune_within_budget(sizes, n - 1);
        let (plan, kept) = prune_run(sizes, n - 1);
        let next = prune_run(sizes, n).0;
        assert(forall|i: int| 0 <= i < n - 1 ==> next[i] == plan[i]);
        lemma_kept_prefix(sizes, next, plan, n - 1);
    }
}

/// For checkpoints of the given sizes, newest first, whether each is removed.
pub fn prune_plan(sizes: &Vec<u64>) -> (remove: Vec<bool>)
    ensures
        remove@ == prune_run(sizes@, sizes.len() as int).0,
{
    let mut remove: Vec<bool> = Vec::new();
    let mut kept: u64 = 0;
    let mut i: usize = 0;
    while i < sizes.len()
        invariant
            i <= sizes.len(),
            (remove@, kept as int) == prune_run(sizes@, i as int),
            kept <= MAX_TOTAL_BYTES,
        decreases sizes.len() - i,
    {
        let bytes = sizes[i];
        if i >= MAX_CHECKPOINTS || bytes > MAX_TOTAL_BYTES - kept {
            remove.push(true);
        } else {
            remove.push(false);
            kept = kept + bytes;
        }
        i += 1;
    }
    remove
}

/// The checkpoint a restore uses: the one with the id asked for, or the
/// newest; and the error when there is none.
pub open spec fn selected(
    checkpoints: Seq<CheckpointView>,
    id: Option<Seq<char>>,
) -> Result<CheckpointView, Seq<char>> {
    match id {
        Some(want) => if exists|i: int| 0 <= i < checkpoints.len() && checkpoints[i].id == want {
            Ok(checkpoints[first_with_id(checkpoints, want)])
        } else {
            Err("No checkpoint with id "@ + want)
        },
        None => if checkpoints.len() > 0 {
            Ok(checkpoints[0])
        } else {
            Err("No checkpoint has been recorded yet"@)
        },
    }
}

pub open spec fn first_with_id(s: Seq<CheckpointView>, id: Seq<char>) -> int {
    choose|i: int| 0 <= i < s.len() && s[i].id == id && forall|j: int| 0 <= j < i ==> s[j].id != id
}

/// Choose the checkpoint to restore from the listed ones, newest first.
pub fn select_checkpoint(checkpoints: Vec<Checkpoint>, id: Option<&str>) -> (r: Result<
    Checkpoint,
    String,
>)
    ensures
        match r {
            Ok(c) => selected(checkpoint_views(checkpoints@), id.deep_view()) == Ok::<
                CheckpointView,
                Seq<char>,
            >(c@),
            Err(e) => selected(checkpoint_views(checkpoints@), id.deep_view()) == Err::<
                CheckpointView,
                Seq<char>,
            >(e@),
        },
{
    let ghost all = checkpoint_views(checkpoints@);
    let mut rest = checkpoints;
    assert(all.skip(0) =~= all);
    match id {
        None => {
            if rest.len() == 0 {
                Err(String::from_str("No checkpoint has been recorded yet"))
            } else {
                let c = rest.remove(0);
                Ok(c)
            }
        },
        Some(want) => {
            let w = chars_of(want);
            let total = rest.len();
            let mut i: usize = 0;
            while rest.len() > 0
                invariant
                    i <= all.len(),
                    all.len() == total,
                    i + rest.len() == all.len(),
                    checkpoint_views(rest@) == all.skip(i as int),
                    w@ == want@,
                    id == Some(want),
                    all == checkpoint_views(checkpoints@),
                    forall|j: int| 0 <= j < i ==> all[j].id != want@,
                decreases rest.len(),
            {
                let ghost rest_before = rest@;
                let c = rest.remove(0);
                proof {
                    assert(checkpoint_views(rest_before)[0] == c@);
                    assert(all.skip(i as int)[0] == all[i as int]);
                    assert(all[i as int] == c@);
                    assert(checkpoint_views(rest@) =~= checkpoint_views(rest_before).drop_first());
                    assert(all.skip(i as int).drop_first() =~= all.skip(i + 1));
                }
                let cid = chars_of(c.id.as_str());
                if crate::text::same_chars(cid.as_slice(), w.as_slice()) {
                    proof {
                        let k = first_with_id(all, want@);
                        assert(0 <= k < all.len() && all[k].id == want@ && forall|j: int|
                            0 <= j < k ==> all[j].id != want@);
                        if k < i {
                            assert(all[k].id != want@);
                        }
                        if k > i {
                            assert(all[i as int].id != want@);
                        }
                        assert(k == i);
                        assert(id.deep_view() == Some(want@));
                        assert(selected(all, id.deep_view()) == Ok::<CheckpointView, Seq<char>>(
                            all[k],
                        ));
                    }
                    return Ok(c);
                }
                i += 1;
            }
            let mut e = String::from_str("No checkpoint with id ");
            e.append(want);
            Err(e)
        },
    }
}

/// What restoring one entry does.
#[derive(Debug)]
pub enum RestoreStep {
    /// Leave the path alone and report it as skipped.
    Skip,
    /// Copy blob `blob` back to the workspace-relative `relative`.
    Copy { relative: String, blob: String },
    /// Remove whatever is at `relative` now.
    Remove { relative: String },
}

pub enum RestoreStepView {
    Skip,
    Copy { relative: Seq<char>, blob: Seq<char> },
    Remove { relative: Seq<char> },
}

impl View for RestoreStep {
    type V = RestoreStepView;

    open spec fn view(&self) -> RestoreStepView {
        match self {
            RestoreStep::Skip => RestoreStepView::Skip,
            RestoreStep::Copy { relative, blob } => RestoreStepView::Copy {
                relative: relative@,
                blob: blob@,
            },
            RestoreStep::Remove { relative } => RestoreStepView::Remove { relative: relative@ },
        }
    }
}

/// An entry whose path is not safe is skipped; a captured file is copied
/// back from its blob (skipped when it has none); an absent path is removed;
/// an entry that was skipped at capture stays skipped.
pub open spec fn restore_step(e: EntryView) -> RestoreStepView {
    if !is_safe_relative(e.path) {
        RestoreStepView::Skip
    } else {
        match e.kind {
            EntryKind::File => match e.blob {
                Some(b) => RestoreStepView::Copy { relative: e.path, blob: b },
                None => RestoreStepView::Skip,
            },
            EntryKind::Absent => RestoreStepView::Remove { relative: e.path },
            EntryKind::Skipped => RestoreStepView::Skip,
        }
    }
}

pub fn plan_restore(entry: &CheckpointEntry) -> (step: RestoreStep)
    ensures
        step@ == restore_step(entry@),
{
    let relative = match safe_relative(entry.path.as_str()) {
        None => return RestoreStep::Skip,
        Some(r) => r,
    };
    match entry.kind {
        EntryKind::File => match &entry.blob {
            Some(b) => RestoreStep::Copy { relative, blob: b.clone() },
            None => RestoreStep::Skip,
        },
        EntryKind::Absent => RestoreStep::Remove { relative },
        EntryKind::Skipped => RestoreStep::Skip,
    }
}

/// How carrying out a step went.
#[derive(Clone, Copy, Debug, PartialEq, Eq, Structural)]
pub enum StepOutcome {
    /// The copy or removal was made.
    Done,
    /// There was nothing to remove.
    NothingThere,
    /// The copy or removal failed.
    Failed,
}

/// The report once an entry's step has been carried out: a skip or a
/// failure is reported as skipped, a copy as restored, a removal as removed,
/// and a removal with nothing there not at all.
pub open spec fn reported(
    r: ReportView,
    path: Seq<char>,
    step: RestoreStepView,
    outcome: StepOutcome,
) -> ReportView {
    match step {
        RestoreStepView::Skip => ReportView { skipped: r.skipped.push(path), ..r },
        RestoreStepView::Copy { .. } => if outcome == StepOutcome::Failed {
            ReportView { skipped: r.skipped.push(path), ..r }
        } else {
            ReportView { restored: r.restored.push(path), ..r }
        },
        RestoreStepView::Remove { .. } => if outcome == StepOutcome::Failed {
            ReportView { skipped: r.skipped.push(path), ..r }
        } else if outcome == StepOutcome::NothingThere {
            r
        } else {
            ReportView { removed: r.removed.push(path), ..r }
        },
    }
}

/// Record in the report how restoring the entry at `path` went.
pub fn record_outcome(
    report: &mut RestoreReport,
    path: &String,
    step: &RestoreStep,
    outcome: StepOutcome,
)
    ensures
        final(report)@ == reported(old(report)@, path@, step@, outcome),
{
    let p = path.clone();
    let ghost r0 = report@;
    match step {
        RestoreStep::Skip => {
            report.skipped.push(p);
        },
        RestoreStep::Copy { .. } => {
            if outcome == StepOutcome::Failed {
                report.skipped.push(p);
            } else {
                report.restored.push(p);
            }
        },
        RestoreStep::Remove { .. } => {
            if outcome == StepOutcome::Failed {
                report.skipped.push(p);
            } else if outcome == StepOutcome::NothingThere {
            } else {
                report.removed.push(p);
            }
        },
    }
    assert(report@.skipped =~= reported(r0, path@, step@, outcome).skipped);
    assert(report@.restored =~= reported(r0, path@, step@, outcome).restored);
    assert(report@.removed =~= reported(r0, path@, step@, outcome).removed);
}

} // verus!

verus! {

/// What capturing records for a path, restoring undoes: a file that was
/// copied is copied back from the blob named by its index, a path that did
/// not exist is removed again, and anything that could not be captured is
/// left alone.
pub proof fn lemma_restore_undoes_capture(
    index: nat,
    path: Seq<char>,
    kind: EntryKind,
    bytes: u64,
    reason: Option<Seq<char>>,
    copied: Option<bool>,
)
    requires
        is_safe_relative(path),
        (kind == EntryKind::File) <==> copied is Some,
    ensures
        restore_step(stored_entry(index, path, kind, bytes, reason, copied)) == (match copied {
            Some(true) => RestoreStepView::Copy { relative: path, blob: decimal(index) },
            _ => if kind == EntryKind::Absent {
                RestoreStepView::Remove { relative: path }
            } else {
                RestoreStepView::Skip
            },
        }),
{
}

/// Capturing copies a file exactly when it records it as a file.
pub proof fn lemma_capture_copies_files(
    entries: nat,
    relative: Option<Seq<char>>,
    state: PathState,
    total_bytes: u64,
)
    ensures
        capture_step(entries, relative, state, total_bytes).0 matches StepView::Record {
            kind,
            copy,
            ..
        } ==> (copy <==> kind == EntryKind::File),
{
}

} // verus!
