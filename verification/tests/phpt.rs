use thp::cli::{parse_arguments, Arguments};
use thp::compare::{compare, display_bytes, expectf_pattern, normalize, regex_matches, ComparisonError};
use thp::fixture::{ExpectationKind, Fixture, ProgramSource};
use thp::runner::{cleanup_verdict, main_verdict, skipif_verdict, Status, Summary};

fn args(values: &[&str]) -> Vec<String> {
    values.iter().map(|v| v.to_string()).collect()
}

#[test]
fn normalizes_crlf_and_trims_ascii_whitespace() {
    assert_eq!(normalize(b" \r\nhello\r\n\t"), b"hello");
}

#[test]
fn exact_expectations_support_binary_bytes() {
    let separator = std::path::MAIN_SEPARATOR;
    assert!(compare(separator, ExpectationKind::Exact, b"a\0\xff", b"a\0\xff").is_ok());
    assert!(matches!(
        compare(separator, ExpectationKind::Exact, b"a", b"b"),
        Err(ComparisonError::Mismatch)
    ));
}

#[test]
fn formatted_placeholders_match_portable_values() {
    let separator = std::path::MAIN_SEPARATOR;
    let expected = b"%e%s%S%a%A%w%i%d%x%f%c%0%%";
    let pattern = expectf_pattern(separator, expected).expect("pattern");
    assert!(regex_matches(&pattern, b"/xanything \n+123ff1.5Z\0%%").is_ok());
    assert!(regex_matches(&expectf_pattern(separator, b"\xff").expect("binary"), b"\xff").is_ok());
    assert!(matches!(
        regex_matches(&expectf_pattern(separator, b"%f").expect("float"), b"1."),
        Err(ComparisonError::Mismatch)
    ));
}

#[test]
fn formatted_raw_regex_is_dot_all_and_anchored() {
    let pattern = expectf_pattern(std::path::MAIN_SEPARATOR, b"before%r.+%rafter").expect("pattern");
    assert!(regex_matches(&pattern, b"beforea\nafter").is_ok());
    assert!(matches!(
        regex_matches(&pattern, b"xbeforea\nafter"),
        Err(ComparisonError::Mismatch)
    ));
}

#[test]
fn invalid_and_unterminated_regexes_bork() {
    let separator = std::path::MAIN_SEPARATOR;
    assert!(expectf_pattern(separator, b"%r[%r").is_ok());
    let pattern = expectf_pattern(separator, b"%r[%r").expect("raw pattern");
    assert!(matches!(regex_matches(&pattern, b""), Err(ComparisonError::Bork(_))));
    assert!(expectf_pattern(separator, b"%rnever").is_err());
}

#[test]
fn parser_rejects_duplicate_and_missing_sections() {
    let duplicate = b"--TEST--\na\n--FILE--\n<?thp\n--FILE--\n<?thp\n--EXPECT--\n";
    assert!(Fixture::parse("a.phpt", duplicate).unwrap_err().contains("duplicate"));
    let missing = b"--TEST--\na\n--FILE--\n<?thp\n";
    assert!(Fixture::parse("a.phpt", missing)
        .unwrap_err()
        .contains("exactly one --EXPECT--"));
}

#[test]
fn parser_validates_program_utf8_but_allows_binary_expectation() {
    let invalid = b"--TEST--\na\n--FILE--\n\xff\n--EXPECT--\n";
    assert!(Fixture::parse("a.phpt", invalid)
        .unwrap_err()
        .contains("--FILE-- must be valid UTF-8"));

    let binary = b"--TEST--\na\n--FILE--\n<?thp\n--EXPECT--\n\xff";
    let fixture = Fixture::parse("a.phpt", binary).expect("binary expectation");
    assert_eq!(fixture.expectation().1, b"\xff");
}

#[test]
fn parses_options_and_paths() {
    let parsed = parse_arguments(&args(&["--max-instructions=10", "tests"])).expect("valid arguments");
    let Arguments::Run { options, paths } = parsed else {
        panic!("run arguments");
    };
    assert_eq!(options.max_instructions, Some(10));
    assert_eq!(paths, ["tests"]);
}

#[test]
fn rejects_invalid_invocations() {
    assert!(parse_arguments(&Vec::new()).is_err());
    assert!(parse_arguments(&args(&["--unknown"])).is_err());
    assert!(parse_arguments(&args(&["--max-instructions=nope", "a"])).is_err());
}

#[test]
fn help_wins_and_limits_are_single() {
    assert!(matches!(parse_arguments(&args(&["a", "--help"])), Ok(Arguments::Help)));
    assert_eq!(
        parse_arguments(&args(&["--max-instructions=1", "--max-instructions=2", "a"])).unwrap_err(),
        "`--max-instructions` may be supplied only once"
    );
    assert_eq!(
        parse_arguments(&args(&["--unknown"])).unwrap_err(),
        "unknown option `--unknown`"
    );
    assert_eq!(
        parse_arguments(&Vec::new()).unwrap_err(),
        "at least one file or directory path is required"
    );
}

#[test]
fn sections_are_read_by_name() {
    let fixture = Fixture::parse(
        "case.phpt",
        b"--TEST--\n  named case \n--FILE--\n<?thp\necho 1;\n--EXPECTF--\n%d\n",
    )
    .expect("fixture");
    assert_eq!(fixture.name(), "named case");
    assert_eq!(fixture.expectation().0, ExpectationKind::Formatted);
    assert_eq!(fixture.expectation().1, b"%d\n");
    assert_eq!(
        fixture.program_source().expect("inline"),
        ProgramSource::Inline("<?thp\necho 1;\n".to_owned())
    );
}

#[test]
fn external_programs_must_stay_inside_the_fixture_directory() {
    let escaping = Fixture::parse("a.phpt", b"--TEST--\nt\n--FILE_EXTERNAL--\n../program.thp\n--EXPECT--\n")
        .expect("fixture");
    assert_eq!(
        escaping.program_source().unwrap_err(),
        "--FILE_EXTERNAL-- path must stay within the fixture directory"
    );
    let inside = Fixture::parse("a.phpt", b"--TEST--\nt\n--FILE_EXTERNAL--\n program.thp \n--EXPECT--\n")
        .expect("fixture");
    assert_eq!(
        inside.program_source().expect("external"),
        ProgramSource::External("program.thp".to_owned())
    );
}

#[test]
fn displayed_bytes_escape_controls_and_non_ascii() {
    assert_eq!(display_bytes(b"a\n\"\xff"), "\"a\\n\\\"\\xff\"");
}

#[test]
fn skip_and_cleanup_reports() {
    assert_eq!(skipif_verdict(true, b"", b""), None);
    assert_eq!(
        skipif_verdict(true, b"skip: no network", b""),
        Some((Status::Skip, "no network".to_owned()))
    );
    assert!(matches!(skipif_verdict(true, b"maybe", b""), Some((Status::Bork, _))));
    assert!(matches!(skipif_verdict(false, b"", b"boom"), Some((Status::Bork, _))));
    assert_eq!(cleanup_verdict(true, b"", b""), None);
    assert!(cleanup_verdict(true, b"noise", b"")
        .expect("report")
        .starts_with("CLEAN produced output"));
}

#[test]
fn cleanup_failure_keeps_fail_and_borks_a_pass() {
    let separator = std::path::MAIN_SEPARATOR;
    let (status, details) = main_verdict(
        separator,
        ExpectationKind::Exact,
        b"yes",
        false,
        b"yes",
        b"",
        Some("CLEAN produced output: \"x\"".to_owned()),
    );
    assert_eq!(status, Status::Bork);
    assert_eq!(details.as_deref(), Some("CLEAN produced output: \"x\""));
    let (status, _) = main_verdict(
        separator,
        ExpectationKind::Exact,
        b"yes",
        false,
        b"no",
        b"",
        Some("CLEAN execution failed".to_owned()),
    );
    assert_eq!(status, Status::Fail);
    let (status, details) = main_verdict(separator, ExpectationKind::Exact, b"ok\n", false, b"ok", b"", None);
    assert_eq!(status, Status::Pass);
    assert_eq!(details, None);
}

#[test]
fn summary_counts_each_status() {
    let mut summary = Summary::new();
    assert!(summary.is_success());
    summary.push(thp::runner::result(
        std::path::PathBuf::from("a.phpt"),
        "a",
        Status::Skip,
        "skipped".to_owned(),
    ));
    assert!(summary.is_success());
    summary.push(thp::runner::result(
        std::path::PathBuf::from("b.phpt"),
        "b",
        Status::Fail,
        "failed".to_owned(),
    ));
    assert!(!summary.is_success());
    assert_eq!(summary.tests, 2);
    assert_eq!(summary.skipped, 1);
    assert_eq!(summary.failed, 1);
}
