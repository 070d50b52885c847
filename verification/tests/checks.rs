use catdesk::checks::{
    output_tail, parse, CheckKind, ProjectMarkers, OUTPUT_TAIL_BYTES,
};

#[test]
fn cargo_run_reports_counts_the_failing_test_and_its_assertion() {
    let text = "\
running 227 tests
test command::tests::ok_one ... ok

failures:

---- linux_sandbox::tests::runtime_read_paths_do_not_grant_the_home_directory_itself stdout ----

thread 'linux_sandbox::tests::runtime_read_paths_do_not_grant_the_home_directory_itself' (117) panicked at src/linux_sandbox.rs:292:9:
assertion failed: !runtime_read_paths().contains(&home)
note: run with `RUST_BACKTRACE=1` environment variable to display a backtrace

test result: FAILED. 226 passed; 1 failed; 0 ignored; 0 measured; 0 filtered out
";
    let outcome = parse(CheckKind::Cargo, text, "");

    assert_eq!(outcome.passed, Some(226));
    assert_eq!(outcome.failed, Some(1));
    assert_eq!(outcome.failures.len(), 1);
    let failure = &outcome.failures[0];
    assert_eq!(
        failure.name,
        "linux_sandbox::tests::runtime_read_paths_do_not_grant_the_home_directory_itself"
    );
    assert_eq!(failure.file.as_deref(), Some("src/linux_sandbox.rs"));
    assert_eq!(failure.line, Some(292));
    assert_eq!(
        failure.message.as_deref(),
        Some("assertion failed: !runtime_read_paths().contains(&home)")
    );
}

#[test]
fn cargo_workspace_totals_add_up_over_every_test_binary() {
    let text = "\
test result: ok. 10 passed; 0 failed; 0 ignored
test result: FAILED. 5 passed; 2 failed; 0 ignored
";
    let outcome = parse(CheckKind::Cargo, text, "");

    assert_eq!(outcome.passed, Some(15));
    assert_eq!(outcome.failed, Some(2));
}

#[test]
fn cargo_compile_errors_keep_only_the_ones_that_carry_a_location() {
    let stderr = "\
error[E0425]: cannot find value `nope` in this scope
  --> src/mcp.rs:1822:5
   |
error: could not compile `catdesk` (bin \"catdesk\") due to 1 previous error
";
    let outcome = parse(CheckKind::Cargo, "", stderr);

    assert_eq!(outcome.diagnostics.len(), 1);
    let diagnostic = &outcome.diagnostics[0];
    assert_eq!(diagnostic.severity, "error");
    assert_eq!(diagnostic.file, "src/mcp.rs");
    assert_eq!(diagnostic.line, 1822);
    assert_eq!(diagnostic.column, Some(5));
    assert_eq!(diagnostic.message, "cannot find value `nope` in this scope");
}

#[test]
fn pytest_run_reports_counts_and_the_failing_node_ids() {
    let text = "\
FAILED tests/test_billing.py::test_refund - AssertionError: expected 0
ERROR tests/test_setup.py::test_fixture
==================== 1 failed, 1 error, 12 passed in 3.41s ====================
";
    let outcome = parse(CheckKind::Pytest, text, "");

    assert_eq!(outcome.passed, Some(12));
    assert_eq!(outcome.failed, Some(2));
    assert_eq!(outcome.failures.len(), 2);
    assert_eq!(
        outcome.failures[0].name,
        "tests/test_billing.py::test_refund"
    );
    assert_eq!(
        outcome.failures[0].file.as_deref(),
        Some("tests/test_billing.py")
    );
    assert_eq!(
        outcome.failures[0].message.as_deref(),
        Some("AssertionError: expected 0")
    );
    assert_eq!(outcome.failures[1].message, None);
}

#[test]
fn go_run_attributes_a_location_to_the_failure_it_sits_under() {
    let text = "\
--- PASS: TestAdd (0.00s)
--- FAIL: TestRefund (0.01s)
    billing_test.go:42: expected 0, got 3
FAIL\texample.com/billing\t0.012s
";
    let outcome = parse(CheckKind::Go, text, "");

    assert_eq!(outcome.passed, Some(1));
    assert_eq!(outcome.failed, Some(1));
    assert_eq!(outcome.failures[0].name, "TestRefund");
    assert_eq!(outcome.failures[0].file.as_deref(), Some("billing_test.go"));
    assert_eq!(outcome.failures[0].line, Some(42));
    assert_eq!(
        outcome.failures[0].message.as_deref(),
        Some("expected 0, got 3")
    );
}

#[test]
fn node_run_reads_jest_totals_and_typescript_diagnostics() {
    let text = "\
  ✕ refunds a charge
src/billing.ts(12,5): error TS2345: Argument of type 'string' is not assignable
Tests:       1 failed, 5 passed, 6 total
";
    let outcome = parse(CheckKind::Node, text, "");

    assert_eq!(outcome.passed, Some(5));
    assert_eq!(outcome.failed, Some(1));
    assert_eq!(outcome.failures[0].name, "refunds a charge");
    assert_eq!(outcome.diagnostics.len(), 1);
    assert_eq!(outcome.diagnostics[0].file, "src/billing.ts");
    assert_eq!(outcome.diagnostics[0].line, 12);
}

#[test]
fn a_type_check_with_no_test_totals_still_reports_a_failure_count() {
    let text = "src/a.ts(1,1): error TS1005: ';' expected\n";
    let outcome = parse(CheckKind::Node, text, "");

    assert_eq!(outcome.passed, None);
    assert_eq!(outcome.failed, Some(1));
}

#[test]
fn the_tail_is_kept_on_a_character_boundary() {
    let text = format!("{}三", "x".repeat(OUTPUT_TAIL_BYTES));
    let (tail, truncated) = output_tail(&text);

    assert!(truncated);
    assert!(tail.ends_with('三'));
    assert!(tail.len() <= OUTPUT_TAIL_BYTES);
}

#[test]
fn a_short_transcript_is_not_reported_as_truncated() {
    let (tail, truncated) = output_tail("all good\n");

    assert_eq!(tail, "all good\n");
    assert!(!truncated);
}

#[test]
fn detection_prefers_an_unambiguous_toolchain_marker() {
    let node_only = ProjectMarkers {
        package_json: true,
        ..ProjectMarkers::default()
    };
    assert_eq!(CheckKind::detect(&node_only), CheckKind::Node);

    let both = ProjectMarkers {
        package_json: true,
        cargo_toml: true,
        ..ProjectMarkers::default()
    };
    assert_eq!(CheckKind::detect(&both), CheckKind::Cargo);
}

#[test]
fn a_bare_test_directory_suggests_pytest_and_nothing_is_generic() {
    let tests = ProjectMarkers {
        tests_dir: true,
        ..ProjectMarkers::default()
    };
    assert_eq!(CheckKind::detect(&tests), CheckKind::Pytest);
    assert_eq!(CheckKind::detect(&ProjectMarkers::default()), CheckKind::Generic);
    let go = ProjectMarkers {
        go_mod: true,
        pyproject_toml: true,
        ..ProjectMarkers::default()
    };
    assert_eq!(CheckKind::detect(&go), CheckKind::Go);
}

#[test]
fn kind_names_round_trip_and_aliases_are_accepted() {
    for kind in [
        CheckKind::Cargo,
        CheckKind::Pytest,
        CheckKind::Go,
        CheckKind::Node,
        CheckKind::Generic,
    ] {
        assert_eq!(CheckKind::parse(kind.as_str()), Some(kind));
    }
    assert_eq!(CheckKind::parse("rust"), Some(CheckKind::Cargo));
    assert_eq!(CheckKind::parse("typescript"), Some(CheckKind::Node));
    assert_eq!(CheckKind::parse("golang"), Some(CheckKind::Go));
    assert_eq!(CheckKind::parse("shell"), Some(CheckKind::Generic));
    assert_eq!(CheckKind::parse("Cargo"), None);
    assert_eq!(CheckKind::Cargo.default_command(), Some("cargo test"));
    assert_eq!(CheckKind::Pytest.default_command(), Some("python3 -m pytest -q"));
    assert_eq!(CheckKind::Generic.default_command(), None);
}

#[test]
fn a_generic_run_reports_nothing() {
    let outcome = parse(CheckKind::Generic, "test result: ok. 3 passed; 0 failed", "");
    assert_eq!(outcome.passed, None);
    assert!(outcome.failures.is_empty());
}

#[test]
fn failures_and_diagnostics_are_capped_at_fifty() {
    let mut text = String::new();
    for i in 0..60 {
        text.push_str(&format!("FAILED tests/t.py::test_{i}\n"));
    }
    let outcome = parse(CheckKind::Pytest, &text, "");
    assert_eq!(outcome.failures.len(), 50);
    assert_eq!(outcome.failures[49].name, "tests/t.py::test_49");
}

#[test]
fn pytest_summary_banner_is_stripped_of_its_equals_signs() {
    let outcome = parse(CheckKind::Pytest, "===== 3 passed, 1 xpassed in 0.1s =====\n", "");
    assert_eq!(outcome.passed, Some(4));
    assert_eq!(outcome.failed, Some(0));
    assert_eq!(outcome.summary.as_deref(), Some("3 passed, 1 xpassed in 0.1s"));
}

#[test]
fn a_panic_without_a_following_message_uses_the_first_plain_line() {
    let text = "\
---- a::b stdout ----
some output
---- c::d stdout ----
thread 'c::d' panicked at src/x.rs:7:1:
boom
failures:
";
    let outcome = parse(CheckKind::Cargo, text, "");
    assert_eq!(outcome.failures.len(), 2);
    assert_eq!(outcome.failures[0].message.as_deref(), Some("some output"));
    assert_eq!(outcome.failures[0].file, None);
    assert_eq!(outcome.failures[1].file.as_deref(), Some("src/x.rs"));
    assert_eq!(outcome.failures[1].line, Some(7));
    assert_eq!(outcome.failures[1].message.as_deref(), Some("boom"));
    assert_eq!(outcome.passed, None);
}

#[test]
fn stdout_and_stderr_are_read_as_one_transcript() {
    let outcome = parse(
        CheckKind::Cargo,
        "test result: ok. 2 passed; 0 failed",
        "warning: unused variable: `x`\n --> src/lib.rs:3:9\n",
    );
    assert_eq!(outcome.passed, Some(2));
    assert_eq!(outcome.diagnostics.len(), 1);
    assert_eq!(outcome.diagnostics[0].severity, "warning");
    assert_eq!(outcome.diagnostics[0].message, "unused variable: `x`");
    assert_eq!(outcome.summary.as_deref(), Some("test result: ok. 2 passed; 0 failed"));
}
