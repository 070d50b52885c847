//! Turn a test, build or type-check run into a structured result.
//!
//! A runner's transcript is long and the answer sits at its end, so the
//! caller gets counts, failing test names and the file/line of each
//! diagnostic instead of the transcript. Running the check is the caller's
//! part; this module reads what came back.

use vstd::prelude::*;

use crate::pattern::{all_captures, first_captures, group_at, group_text};
use crate::text::{chars_of, is_text, slice_from, string_of};
use vstd::string::StringExecFns;

pub mod cargo;
pub mod go;
pub mod node;
pub mod pytest;

verus! {

/// How much of the runner's output to keep while parsing.
pub const MAX_CAPTURE_BYTES: usize = 4 * 1024 * 1024;

/// Summaries and the last failure land at the end, so the tail is kept.
pub const OUTPUT_TAIL_BYTES: usize = 4 * 1024;

pub const DEFAULT_TIMEOUT_MS: u64 = 300_000;

pub const MAX_TIMEOUT_MS: u64 = 900_000;

pub const MAX_FAILURES: usize = 50;

pub const MAX_DIAGNOSTICS: usize = 50;

#[derive(Clone, Copy, Debug, PartialEq, Eq, Structural)]
pub enum CheckKind {
    Cargo,
    Pytest,
    Go,
    Node,
    Generic,
}

/// The name a kind is reported under.
pub open spec fn kind_name(kind: CheckKind) -> Seq<char> {
    match kind {
        CheckKind::Cargo => "cargo"@,
        CheckKind::Pytest => "pytest"@,
        CheckKind::Go => "go"@,
        CheckKind::Node => "node"@,
        CheckKind::Generic => "generic"@,
    }
}

/// The kind a caller's word names: the toolchain, or its language.
pub open spec fn kind_from_word(word: Seq<char>) -> Option<CheckKind> {
    if word == "cargo"@ || word == "rust"@ {
        Some(CheckKind::Cargo)
    } else if word == "pytest"@ || word == "python"@ {
        Some(CheckKind::Pytest)
    } else if word == "go"@ || word == "golang"@ {
        Some(CheckKind::Go)
    } else if word == "node"@ || word == "npm"@ || word == "javascript"@ || word
        == "typescript"@ {
        Some(CheckKind::Node)
    } else if word == "generic"@ || word == "shell"@ {
        Some(CheckKind::Generic)
    } else {
        None
    }
}

/// Which marker files and directories a project keeps at its root.
#[derive(Clone, Copy, Debug, Default)]
pub struct ProjectMarkers {
    /// `Cargo.toml` is a file.
    pub cargo_toml: bool,
    /// `go.mod` is a file.
    pub go_mod: bool,
    /// `pytest.ini` is a file.
    pub pytest_ini: bool,
    /// `tox.ini` is a file.
    pub tox_ini: bool,
    /// `setup.cfg` is a file.
    pub setup_cfg: bool,
    /// `pyproject.toml` is a file.
    pub pyproject_toml: bool,
    /// `package.json` is a file.
    pub package_json: bool,
    /// `tests` is a directory.
    pub tests_dir: bool,
    /// `test` is a directory.
    pub test_dir: bool,
}

/// The toolchain the markers point to. Cargo and Go come first because
/// their markers are unambiguous; a bare test directory suggests pytest.
pub open spec fn detected_kind(m: ProjectMarkers) -> CheckKind {
    if m.cargo_toml {
        CheckKind::Cargo
    } else if m.go_mod {
        CheckKind::Go
    } else if m.pytest_ini || m.tox_ini || m.setup_cfg || m.pyproject_toml {
        CheckKind::Pytest
    } else if m.package_json {
        CheckKind::Node
    } else if m.tests_dir || m.test_dir {
        CheckKind::Pytest
    } else {
        CheckKind::Generic
    }
}

/// The command that runs a kind's checks, when it has an obvious one.
pub open spec fn command_of(kind: CheckKind) -> Option<Seq<char>> {
    match kind {
        CheckKind::Cargo => Some("cargo test"@),
        CheckKind::Pytest => Some("python3 -m pytest -q"@),
        CheckKind::Go => Some("go test ./..."@),
        CheckKind::Node => Some("npm test"@),
        CheckKind::Generic => None,
    }
}

impl CheckKind {
    pub fn as_str(self) -> (s: &'static str)
        ensures
            s@ == kind_name(self),
    {
        match self {
            CheckKind::Cargo => "cargo",
            CheckKind::Pytest => "pytest",
            CheckKind::Go => "go",
            CheckKind::Node => "node",
            CheckKind::Generic => "generic",
        }
    }

    pub fn parse(value: &str) -> (kind: Option<Self>)
        ensures
            kind == kind_from_word(value@),
    {
        let v = chars_of(value);
        let w = v.as_slice();
        if is_text(w, "cargo") || is_text(w, "rust") {
            Some(CheckKind::Cargo)
        } else if is_text(w, "pytest") || is_text(w, "python") {
            Some(CheckKind::Pytest)
        } else if is_text(w, "go") || is_text(w, "golang") {
            Some(CheckKind::Go)
        } else if is_text(w, "node") || is_text(w, "npm") || is_text(w, "javascript") || is_text(
            w,
            "typescript",
        ) {
            Some(CheckKind::Node)
        } else if is_text(w, "generic") || is_text(w, "shell") {
            Some(CheckKind::Generic)
        } else {
            None
        }
    }

    /// Pick the toolchain from the marker files a project keeps at its root.
    pub fn detect(markers: &ProjectMarkers) -> (kind: Self)
        ensures
            kind == detected_kind(*markers),
    {
        if markers.cargo_toml {
            return CheckKind::Cargo;
        }
        if markers.go_mod {
            return CheckKind::Go;
        }
        if markers.pytest_ini || markers.tox_ini || markers.setup_cfg || markers.pyproject_toml {
            return CheckKind::Pytest;
        }
        if markers.package_json {
            return CheckKind::Node;
        }
        if markers.tests_dir || markers.test_dir {
            return CheckKind::Pytest;
        }
        CheckKind::Generic
    }

    pub fn default_command(self) -> (command: Option<&'static str>)
        ensures
            command.deep_view() == command_of(self),
    {
        match self {
            CheckKind::Cargo => Some("cargo test"),
            CheckKind::Pytest => Some("python3 -m pytest -q"),
            CheckKind::Go => Some("go test ./..."),
            CheckKind::Node => Some("npm test"),
            CheckKind::Generic => None,
        }
    }
}

#[derive(Clone, Debug, Default, PartialEq)]
pub struct Failure {
    pub name: String,
    pub file: Option<String>,
    pub line: Option<u32>,
    pub message: Option<String>,
}

#[derive(Clone, Debug, PartialEq)]
pub struct Diagnostic {
    pub severity: String,
    pub file: String,
    pub line: u32,
    pub column: Option<u32>,
    pub message: String,
}

#[derive(Clone, Debug, Default, PartialEq)]
pub struct CheckOutcome {
    pub passed: Option<u32>,
    pub failed: Option<u32>,
    pub failures: Vec<Failure>,
    pub diagnostics: Vec<Diagnostic>,
    pub summary: Option<String>,
}

pub struct FailureView {
    pub name: Seq<char>,
    pub file: Option<Seq<char>>,
    pub line: Option<u32>,
    pub message: Option<Seq<char>>,
}

pub struct DiagnosticView {
    pub severity: Seq<char>,
    pub file: Seq<char>,
    pub line: u32,
    pub column: Option<u32>,
    pub message: Seq<char>,
}

pub struct OutcomeView {
    pub passed: Option<u32>,
    pub failed: Option<u32>,
    pub failures: Seq<FailureView>,
    pub diagnostics: Seq<DiagnosticView>,
    pub summary: Option<Seq<char>>,
}

impl View for Failure {
    type V = FailureView;

    open spec fn view(&self) -> FailureView {
        FailureView {
            name: self.name@,
            file: self.file.deep_view(),
            line: self.line,
            message: self.message.deep_view(),
        }
    }
}

impl View for Diagnostic {
    type V = DiagnosticView;

    open spec fn view(&self) -> DiagnosticView {
        DiagnosticView {
            severity: self.severity@,
            file: self.file@,
            line: self.line,
            column: self.column,
            message: self.message@,
        }
    }
}

pub open spec fn failure_views(v: Seq<Failure>) -> Seq<FailureView> {
    v.map_values(|f: Failure| f@)
}

pub open spec fn diagnostic_views(v: Seq<Diagnostic>) -> Seq<DiagnosticView> {
    v.map_values(|d: Diagnostic| d@)
}

impl View for CheckOutcome {
    type V = OutcomeView;

    open spec fn view(&self) -> OutcomeView {
        OutcomeView {
            passed: self.passed,
            failed: self.failed,
            failures: failure_views(self.failures@),
            diagnostics: diagnostic_views(self.diagnostics@),
            summary: self.summary.deep_view(),
        }
    }
}

/// A failure known only by its name.
pub open spec fn named_failure(name: Seq<char>) -> FailureView {
    FailureView { name, file: None, line: None, message: None }
}

/// An outcome with at most `MAX_FAILURES` failures and `MAX_DIAGNOSTICS`
/// diagnostics, the first ones kept.
pub open spec fn trimmed(o: OutcomeView) -> OutcomeView {
    OutcomeView {
        failures: if o.failures.len() > MAX_FAILURES {
            o.failures.take(MAX_FAILURES as int)
        } else {
            o.failures
        },
        diagnostics: if o.diagnostics.len() > MAX_DIAGNOSTICS {
            o.diagnostics.take(MAX_DIAGNOSTICS as int)
        } else {
            o.diagnostics
        },
        ..o
    }
}

impl CheckOutcome {
    pub fn trim(self) -> (r: Self)
        ensures
            r@ == trimmed(self@),
    {
        let mut s = self;
        let ghost f0 = s.failures@;
        let ghost d0 = s.diagnostics@;
        s.failures.truncate(MAX_FAILURES);
        s.diagnostics.truncate(MAX_DIAGNOSTICS);
        proof {
            assert(failure_views(s.failures@) =~= trimmed(self@).failures);
            assert(diagnostic_views(s.diagnostics@) =~= trimmed(self@).diagnostics);
        }
        s
    }
}

/// The number of bytes `c` takes in UTF-8.
pub open spec fn utf8_width(c: char) -> nat {
    if (c as u32) < 0x80 {
        1
    } else if (c as u32) < 0x800 {
        2
    } else if (c as u32) < 0x10000 {
        3
    } else {
        4
    }
}

/// The number of bytes `s` takes in UTF-8.
pub open spec fn utf8_len(s: Seq<char>) -> nat
    decreases s.len(),
{
    if s.len() == 0 {
        0
    } else {
        utf8_width(s[0]) + utf8_len(s.drop_first())
    }
}

/// `tail` is the longest suffix of `s` that fits in `OUTPUT_TAIL_BYTES`.
pub open spec fn is_output_tail(s: Seq<char>, tail: Seq<char>) -> bool {
    exists|k: int|
        0 <= k <= s.len() && tail == #[trigger] s.skip(k) && utf8_len(s.skip(k)) <= OUTPUT_TAIL_BYTES && (k
            == 0 || utf8_len(s.skip(k - 1)) > OUTPUT_TAIL_BYTES)
}

pub fn width_of(c: char) -> (w: usize)
    ensures
        w == utf8_width(c),
{
    let n = c as u32;
    if n < 0x80 {
        1
    } else if n < 0x800 {
        2
    } else if n < 0x10000 {
        3
    } else {
        4
    }
}

/// Keep the last `OUTPUT_TAIL_BYTES` of `text`, cut on a character boundary;
/// the flag says whether anything was cut.
pub fn output_tail(text: &str) -> (r: (String, bool))
    ensures
        is_output_tail(text@, r.0@),
        r.1 == (utf8_len(text@) > OUTPUT_TAIL_BYTES),
{
    let cs = chars_of(text);
    let mut j = cs.len();
    let mut total: usize = 0;
    assert(cs@.skip(j as int) =~= Seq::<char>::empty());
    while j > 0 && total + width_of(cs[j - 1]) <= OUTPUT_TAIL_BYTES
        invariant
            j <= cs.len(),
            total == utf8_len(cs@.skip(j as int)),
            total <= OUTPUT_TAIL_BYTES,
        decreases j,
    {
        assert(cs@.skip(j - 1).drop_first() =~= cs@.skip(j as int));
        total = total + width_of(cs[j - 1]);
        j -= 1;
    }
    proof {
        if j > 0 {
            assert(cs@.skip(j - 1).drop_first() =~= cs@.skip(j as int));
            assert(cs@.skip(j - 1)[0] == cs@[j - 1]);
            lemma_utf8_len_suffix(cs@, 0, j - 1);
        }
        assert(cs@.skip(0) =~= cs@);
    }
    let kept = slice_from(cs.as_slice(), j);
    let tail = string_of(kept.as_slice());
    (tail, j > 0)
}

/// A suffix takes no more bytes than a longer suffix.
pub proof fn lemma_utf8_len_suffix(s: Seq<char>, i: int, j: int)
    requires
        0 <= i <= j <= s.len(),
    ensures
        utf8_len(s.skip(j)) <= utf8_len(s.skip(i)),
        i < j ==> utf8_len(s.skip(j)) < utf8_len(s.skip(i)),
    decreases j - i,
{
    if i < j {
        assert(s.skip(i).drop_first() =~= s.skip(i + 1));
        lemma_utf8_len_suffix(s, i + 1, j);
    }
}

/// The transcript a run leaves: stdout and stderr read as one text.
pub open spec fn combined(stdout: Seq<char>, stderr: Seq<char>) -> Seq<char> {
    if stderr.len() == 0 {
        stdout
    } else if stdout.len() == 0 {
        stderr
    } else {
        stdout + "\n"@ + stderr
    }
}

/// What a run of `kind` reports, read from its transcript.
pub open spec fn parsed(kind: CheckKind, stdout: Seq<char>, stderr: Seq<char>) -> OutcomeView {
    let text = combined(stdout, stderr);
    trimmed(
        match kind {
            CheckKind::Cargo => cargo::cargo_outcome(text),
            CheckKind::Pytest => pytest::pytest_outcome(text),
            CheckKind::Go => go::go_outcome(text),
            CheckKind::Node => node::node_outcome(text),
            CheckKind::Generic => empty_outcome(),
        },
    )
}

pub open spec fn empty_outcome() -> OutcomeView {
    OutcomeView {
        passed: None,
        failed: None,
        failures: Seq::empty(),
        diagnostics: Seq::empty(),
        summary: None,
    }
}

pub fn new_outcome() -> (o: CheckOutcome)
    ensures
        o@ == empty_outcome(),
{
    let o = CheckOutcome {
        passed: None,
        failed: None,
        failures: Vec::new(),
        diagnostics: Vec::new(),
        summary: None,
    };
    assert(o@.failures =~= Seq::<FailureView>::empty());
    assert(o@.diagnostics =~= Seq::<DiagnosticView>::empty());
    o
}

/// Read a run's stdout and stderr as the runner of `kind` prints them.
pub fn parse(kind: CheckKind, stdout: &str, stderr: &str) -> (outcome: CheckOutcome)
    ensures
        outcome@ == parsed(kind, stdout@, stderr@),
{
    let text: String = if stderr.is_empty() {
        String::from_str(stdout)
    } else if stdout.is_empty() {
        String::from_str(stderr)
    } else {
        let mut t = String::from_str(stdout);
        t.append("\n");
        t.append(stderr);
        t
    };
    let outcome = match kind {
        CheckKind::Cargo => cargo::parse_cargo(text.as_str()),
        CheckKind::Pytest => pytest::parse_pytest(text.as_str()),
        CheckKind::Go => go::parse_go(text.as_str()),
        CheckKind::Node => node::parse_node(text.as_str()),
        CheckKind::Generic => new_outcome(),
    };
    outcome.trim()
}

/// The last of the first `n` lines that satisfies `pred`.
pub open spec fn last_line_where(
    ls: Seq<Seq<char>>,
    pred: spec_fn(Seq<char>) -> bool,
    n: int,
) -> Option<Seq<char>>
    decreases n,
{
    if n <= 0 {
        None
    } else if pred(ls[n - 1]) {
        Some(ls[n - 1])
    } else {
        last_line_where(ls, pred, n - 1)
    }
}

} // verus!
