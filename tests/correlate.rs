use log2src::{
    extract_statements, extract_variables, link_to_source, CodeSource, FormatArgument, FsEntry, LogDetails,
    LogError, LogFormat, LogMatcher, LogRef, LogRefBuilder, ProgressTracker, QueryResult, SourceLanguage,
    SourceRef, StackTrace, VariablePair,
};

const BRACKET_FORMAT: &str = r#"^\[\d{4}-\d{2}-\d{2}T\d{2}:\d{2}:\d{2}Z \w+ \w+\]\s+(?<body>.*)"#;

/// One logging call as the structural query reports it: the literal's source text, then one
/// capture per argument.
struct Call<'a> {
    literal: &'a str,
    row: usize,
    name: &'a str,
    args: &'a [&'a str],
}

fn results_for(calls: &[Call]) -> Vec<QueryResult> {
    let mut out = Vec::new();
    for c in calls {
        out.push(QueryResult {
            kind: "string_literal".to_string(),
            text: c.literal.to_string(),
            start_row: c.row,
            start_column: 4,
            end_row: c.row,
            name: c.name.to_string(),
            pattern: None,
            args: vec![],
            raw: false,
        });
        for a in c.args {
            out.push(QueryResult {
                kind: "args".to_string(),
                text: a.to_string(),
                start_row: c.row,
                start_column: 0,
                end_row: c.row,
                name: c.name.to_string(),
                pattern: None,
                args: vec![],
                raw: false,
            });
        }
    }
    out
}

fn statements(path: &str, results: &[QueryResult]) -> Vec<SourceRef> {
    let mut next_id = 0;
    let code = CodeSource::from_string(path, "", &mut next_id).unwrap();
    extract_statements(&code, &results.to_vec()).unwrap().unwrap().log_statements
}

/// The logging calls of a small Rust program: `main`, `nope`, `namedarg0`, `namedarg` and
/// `namedarg2`, in that order.
fn test_source_statements() -> Vec<SourceRef> {
    let calls = [
        Call { literal: "\"you're only as funky as your last cut\"", row: 6, name: "main", args: &[] },
        Call { literal: "\"this won't match i={}; j={}\"", row: 18, name: "nope", args: &[" i", " j"] },
        Call { literal: "\"{salutation}, {name}!\"", row: 22, name: "namedarg0", args: &[] },
        Call { literal: "\"Hello, {name}!\"", row: 27, name: "namedarg", args: &[] },
        Call { literal: "\"{salutation}, {name}!\"", row: 31, name: "namedarg2", args: &[] },
    ];
    statements("in-mem.rs", &results_for(&calls))
}

fn from_log_format_and_line(buffer: &str, format: &str) -> LogRef {
    let lf = LogFormat::try_from(format).unwrap();
    let fields = lf.captures(buffer).unwrap();
    LogRefBuilder::new().build_from_captures(&fields, buffer)
}

fn pair(expr: &str, value: &str) -> VariablePair {
    VariablePair { expr: expr.to_string(), value: value.to_string() }
}

#[test]
fn test_log_ref_builder() {
    let buffer = String::from("2025-04-10 22:12:52 INFO  JvmPauseMonitor:146 - JvmPauseMonitor-n0: Started");
    let regex = r"^(?<timestamp>\d{4}-\d{2}-\d{2} \d{2}:\d{2}:\d{2}) (?<level>\w+)\s+ (?<file>[\w$.]+):(?<line>\d+) - (?<body>.*)$";
    let log_format = LogFormat::try_from(regex).unwrap();
    let fields = log_format.captures(&buffer).unwrap();
    let result = LogRefBuilder::new().build_from_captures(&fields, &buffer);
    let details = Some(LogDetails {
        thread: None,
        file: Some("JvmPauseMonitor".to_string()),
        lineno: Some(146),
        body: Some("JvmPauseMonitor-n0: Started".to_string()),
        trace: None,
    });
    assert_eq!(
        result,
        LogRef {
            line: "2025-04-10 22:12:52 INFO  JvmPauseMonitor:146 - JvmPauseMonitor-n0: Started".to_string(),
            details
        }
    );
}

#[test]
fn test_extract_logging() {
    let src_refs = test_source_statements();
    assert_eq!(src_refs.len(), 5);
    assert_eq!(src_refs[0].line_no, 7);
    assert_eq!(src_refs[0].name, "main");
    assert_eq!(src_refs[1].vars, vec!["i".to_string(), "j".to_string()]);
    assert_eq!(src_refs[1].pattern, r#"(?s)^this won't match i=(.+); j=(.+)$"#);
    assert_eq!(src_refs[3].args, vec![FormatArgument::Named("name".to_string())]);
}

#[test]
fn test_link_to_source() {
    let log_ref = from_log_format_and_line(
        "[2024-05-09T19:58:53Z DEBUG main] you're only as funky as your last cut",
        BRACKET_FORMAT,
    );
    let src_refs = test_source_statements();
    assert_eq!(src_refs.len(), 5);
    let result = link_to_source(&log_ref, &src_refs);
    assert_eq!(result, Some(0));
}

#[test]
fn test_link_to_quality_source() {
    let log_ref = from_log_format_and_line("[2024-05-09T19:58:53Z DEBUG main] Hello, Leander!", BRACKET_FORMAT);
    let src_refs = test_source_statements();
    let result = link_to_source(&log_ref, &src_refs).unwrap();
    assert_eq!(result, 3);
    assert_eq!(src_refs[result].name, "namedarg");
    assert_eq!(src_refs[result].line_no, 28);
}

#[test]
fn test_link_multiline() {
    let log_ref = from_log_format_and_line(
        "[2024-05-09T19:58:53Z DEBUG main] you're only as funky\n as your last cut",
        BRACKET_FORMAT,
    );
    let calls = [Call {
        literal: "\"you're only as {}\\n as your last cut\"",
        row: 7,
        name: "main",
        args: &[" adjective"],
    }];
    let src_refs = statements("in-mem.rs", &results_for(&calls));
    assert_eq!(src_refs.len(), 1);
    let result = link_to_source(&log_ref, &src_refs);
    assert_eq!(result, Some(0));
    let vars = extract_variables(&log_ref, &src_refs[0]);
    assert_eq!(vars, [pair("adjective", "funky")]);
}

#[test]
fn test_link_to_source_no_matches() {
    let log_ref = LogRefBuilder::new().build("nope!");
    let src_refs = test_source_statements();
    assert_eq!(src_refs.len(), 5);
    let result = link_to_source(&log_ref, &src_refs);
    assert!(result.is_none());
}

#[test]
fn test_extract_variables() {
    let log_ref = LogRefBuilder::new().build("this won't match i=1; j=2");
    let src_refs = test_source_statements();
    assert_eq!(src_refs.len(), 5);
    let vars = extract_variables(&log_ref, &src_refs[1]);
    assert_eq!(vars, vec![pair("i", "1"), pair("j", "2")]);
}

#[test]
fn test_extract_named() {
    let log_ref = LogRefBuilder::new().build("Hello, Tim!");
    let src_refs = test_source_statements();
    assert_eq!(src_refs.len(), 5);
    let vars = extract_variables(&log_ref, &src_refs[3]);
    assert_eq!(vars, vec![pair("name", "Tim")]);
}

fn java_statements() -> Vec<SourceRef> {
    let calls = [
        Call { literal: "\"{}: Started\"", row: 2, name: "run", args: &[" this"] },
        Call { literal: "\"{}: Stopped\"", row: 8, name: "run", args: &[" this"] },
    ];
    statements("in-mem.java", &results_for(&calls))
}

#[test]
fn test_extract_var_punctuation() {
    let log_ref = from_log_format_and_line(
        "2025-04-10 22:12:52 INFO  JvmPauseMonitor:146 - JvmPauseMonitor-n0: Started",
        r"^(?<timestamp>\d{4}-\d{2}-\d{2} \d{2}:\d{2}:\d{2}) (?<level>\w+)\s+ (?<file>[\w$.]+):(?<line>\d+) - (?<body>.*)$",
    );
    let src_refs = java_statements();
    assert_eq!(src_refs.len(), 2);
    let vars = extract_variables(&log_ref, &src_refs[0]);
    assert_eq!(vars, vec![pair("this", "JvmPauseMonitor-n0")]);
}

#[test]
fn test_basic_cpp() {
    let log_ref = LogRefBuilder::new().build("Hello, Steve!");
    let calls = [Call { literal: "\"Hello, %s!\"", row: 4, name: "main", args: &[" argv[1]"] }];
    let src_refs = statements("in-mem.cc", &results_for(&calls));
    assert_eq!(src_refs.len(), 1);
    let vars = extract_variables(&log_ref, &src_refs[0]);
    assert_eq!(vars, vec![pair("argv[1]", "Steve")]);
}

#[test]
fn test_basic_python() {
    let log_ref = LogRefBuilder::new().build("foo bar π");
    let mut results = vec![QueryResult {
        kind: "string".to_string(),
        text: "\"foo %s \\N{greek small letter pi}\"".to_string(),
        start_row: 2,
        start_column: 16,
        end_row: 2,
        name: "main".to_string(),
        pattern: Some("foo %s \\N{greek small letter pi}".to_string()),
        args: vec![],
        raw: false,
    }];
    results.push(QueryResult {
        kind: "args".to_string(),
        text: " test_var".to_string(),
        start_row: 2,
        start_column: 0,
        end_row: 2,
        name: "main".to_string(),
        pattern: None,
        args: vec![],
        raw: false,
    });
    results.push(QueryResult {
        kind: "string".to_string(),
        text: "f'Hello, {args[1]}!'".to_string(),
        start_row: 3,
        start_column: 17,
        end_row: 3,
        name: "main".to_string(),
        pattern: Some("Hello, %s!".to_string()),
        args: vec![FormatArgument::Named("args[1]".to_string())],
        raw: false,
    });
    let src_refs = statements("in-mem.py", &results);
    assert_eq!(src_refs.len(), 2);
    let vars = extract_variables(&log_ref, &src_refs[0]);
    assert_eq!(vars, vec![pair("test_var", "bar")]);
    let hello = LogRefBuilder::new().build("Hello, Ann!");
    assert_eq!(extract_variables(&hello, &src_refs[1]), vec![pair("args[1]", "Ann")]);
}

const TRACE: &str = r#"JvmPauseMonitor-n0: Started
java.lang.IllegalStateException: simulated failure for demo
    at org.example.Main.simulateError(Main.java:50)
    at org.example.Main.main(Main.java:41)
    at org.codehaus.mojo.exec.ExecJavaMojo$1.run(ExecJavaMojo.java:279)
    at java.base/java.lang.Thread.run(Thread.java:1447)
"#;

#[test]
fn test_backtrace_re() {
    let log_ref = LogRefBuilder::new().with_body(Some(TRACE)).build(TRACE);
    assert_eq!(log_ref.line, TRACE);
    let details = log_ref.details.clone().unwrap();
    assert_eq!(details.body.as_deref(), Some("JvmPauseMonitor-n0: Started"));
    let trace = details.trace.unwrap();
    assert_eq!(trace.language, SourceLanguage::Java);
    assert!(trace.content.starts_with("java.lang.IllegalStateException: simulated failure for demo\n"));
    assert!(trace.content.contains("at org.example.Main.simulateError(Main.java:50)"));
    let src_refs = java_statements();
    let vars = extract_variables(&log_ref, &src_refs[0]);
    assert_eq!(vars, vec![pair("this", "JvmPauseMonitor-n0")]);
}

const PYTHON_TRACE: &str = r#"\
Traceback (most recent call last):
  File "python-logging-example/python_logging_example/__main__.py", line 26, in main
    helper.fail_now()
    ~~~~~~~~~~~~~~~^^
  File "python-logging-example/python_logging_example/helper.py", line 3, in fail_now
    return 1 / 0
           ~~^~~
ZeroDivisionError: division by zero
"#;

#[test]
fn test_python_trace() {
    let stacktrace = StackTrace { language: SourceLanguage::Python, content: PYTHON_TRACE.to_string() };
    let log_matcher = LogMatcher::new();
    let trace = stacktrace.to_exception_trace(&log_matcher);
    assert_eq!(trace.len(), 2);
    assert_eq!(trace[0].source_path, "python-logging-example/python_logging_example/__main__.py");
    assert_eq!(trace[0].line_no, 26);
    assert_eq!(trace[0].name, "main");
    assert_eq!(trace[1].source_path, "python-logging-example/python_logging_example/helper.py");
    assert_eq!(trace[1].line_no, 3);
    assert_eq!(trace[1].name, "fail_now");
}

#[test]
fn python_traceback_is_split_from_body() {
    let body = "request failed\nTraceback (most recent call last):\n  File \"a.py\", line 3, in main\n    run()\nValueError: bad";
    let log_ref = LogRefBuilder::new().with_body(Some(body)).build(body);
    let details = log_ref.details.unwrap();
    assert_eq!(details.body.as_deref(), Some("request failed"));
    assert_eq!(details.trace.unwrap().language, SourceLanguage::Python);
}

#[test]
fn test_invalid_regex() {
    assert!(matches!(LogFormat::try_from("abc("), Err(LogError::InvalidFormatRegex { .. })));
}

#[test]
fn test_no_body() {
    assert_eq!(
        LogFormat::try_from("abc").err(),
        Some(LogError::FormatMissingCapture { name: "body".to_string() })
    );
}

#[test]
fn test_unknown_cap() {
    let err = LogFormat::try_from("abc(?<extra>def)").err().unwrap();
    assert_eq!(err, LogError::UnknownFormatCapture { name: "extra".to_string() });
    assert_eq!(err.message(), "unknown capture in log format: extra");
    assert!(err.help().is_some());
}

#[test]
fn log_format_source_hint() {
    let with = LogFormat::try_from(r"(?<file>\w+):(?<line>\d+) (?<body>.*)").unwrap();
    assert!(with.has_src_hint());
    let without = LogFormat::try_from(r"(?<line>\d+) (?<body>.*)").unwrap();
    assert!(!without.has_src_hint());
    assert!(with.is_match("Main:12 hi"));
    assert!(!with.is_match("nothing here"));
    let lines = vec!["Main:12 hi".to_string(), "Other:3 yo".to_string()];
    assert_eq!(with.build_src_filter(&lines), Some(vec!["Main".to_string(), "Other".to_string()]));
    assert_eq!(without.build_src_filter(&lines), None);
}

fn matcher_with(root: &str, snapshot: FsEntry, sources: Vec<(&str, Vec<QueryResult>)>) -> LogMatcher {
    let mut m = LogMatcher::new();
    m.add_root(root).unwrap();
    let tracker = ProgressTracker::new();
    let errors = m.discover_sources(&vec![snapshot], &tracker);
    assert!(errors.is_empty());
    let new_files = m.scan_sources();
    let mut parsed = Vec::new();
    for (idx, path, info) in new_files {
        for (name, results) in &sources {
            if path.ends_with(name) {
                parsed.push(log2src::ParsedSource {
                    root: idx,
                    code: CodeSource::new(&path, info, String::new()),
                    results: results.clone(),
                });
            }
        }
    }
    let errors = m.extract_log_statements(&parsed, &tracker);
    assert!(errors.is_empty());
    m
}

fn dir(entries: Vec<(&str, FsEntry)>) -> FsEntry {
    FsEntry::Directory { entries: entries.into_iter().map(|(n, e)| (n.to_string(), e)).collect() }
}

fn file(t: u128) -> FsEntry {
    FsEntry::File { modified: t }
}

#[test]
fn scenario_plain_message() {
    let calls = [Call { literal: "\"Hello from main\"", row: 3, name: "main", args: &[] }];
    let m = matcher_with("/src", dir(vec![("main.rs", file(1))]), vec![("main.rs", results_for(&calls))]);
    assert!(!m.is_empty());
    let log_ref = LogRefBuilder::new().build("Hello from main");
    let mapping = m.match_log_statement(&log_ref).unwrap();
    assert_eq!(mapping.src_ref.unwrap().name, "main");
    assert!(mapping.variables.is_empty());
}

#[test]
fn scenario_anonymous_placeholder() {
    let calls = [Call { literal: "\"Hello from foo i={}\"", row: 9, name: "foo", args: &[" i"] }];
    let m = matcher_with("/src", dir(vec![("main.rs", file(1))]), vec![("main.rs", results_for(&calls))]);
    let log_ref = LogRefBuilder::new().build("Hello from foo i=0");
    let mapping = m.match_log_statement(&log_ref).unwrap();
    assert_eq!(mapping.variables, vec![pair("i", "0")]);
}

#[test]
fn scenario_named_placeholders() {
    let calls = [Call { literal: "\"{salutation}, {name}!\"", row: 2, name: "greet", args: &[] }];
    let m = matcher_with("/src", dir(vec![("main.rs", file(1))]), vec![("main.rs", results_for(&calls))]);
    let log_ref = LogRefBuilder::new().build("Hello, Tim!");
    let mapping = m.match_log_statement(&log_ref).unwrap();
    assert_eq!(mapping.variables, vec![pair("salutation", "Hello"), pair("name", "Tim")]);
}

#[test]
fn scenario_java_frame_resolves() {
    let calls = [Call { literal: "\"request failed\"", row: 49, name: "method", args: &[] }];
    let snapshot = dir(vec![("pkg", dir(vec![("Class.java", file(5))]))]);
    let m = matcher_with("/src", snapshot, vec![("Class.java", results_for(&calls))]);
    let body = "request failed\njava.lang.RuntimeException: boom\n    at pkg.Class.method(Class.java:50)\n";
    let log_ref = LogRefBuilder::new().with_body(Some(body)).build(body);
    let mapping = m.match_log_statement(&log_ref).unwrap();
    assert_eq!(mapping.exception_trace.len(), 1);
    assert_eq!(mapping.exception_trace[0].line_no, 50);
    assert_eq!(mapping.exception_trace[0].source_path, "/src/pkg/Class.java");
    assert_eq!(mapping.exception_trace[0].name, "method");
    let trace = StackTrace { language: SourceLanguage::Java, content: "    at pkg.Class.method(Class.java:50)\n".to_string() };
    let sites = trace.to_exception_trace(&m);
    assert_eq!(sites.len(), 1);
    assert_eq!(sites[0].line_no, 50);
}

#[test]
fn higher_quality_statement_wins() {
    let calls = [
        Call { literal: "\"{a} {b}!\"", row: 1, name: "low", args: &[] },
        Call { literal: "\"Hello {b}!\"", row: 2, name: "high", args: &[] },
    ];
    let other = [Call { literal: "\"{x}, {y}!\"", row: 1, name: "other", args: &[] }];
    let m = matcher_with(
        "/src",
        dir(vec![("a.rs", file(1)), ("b.rs", file(1))]),
        vec![("a.rs", results_for(&calls)), ("b.rs", results_for(&other))],
    );
    let log_ref = LogRefBuilder::new().build("Hello Tim!");
    let mapping = m.match_log_statement(&log_ref).unwrap();
    assert_eq!(mapping.src_ref.unwrap().name, "high");
    let miss = LogRefBuilder::new().build("no such thing");
    assert!(m.match_log_statement(&miss).is_none());
}

#[test]
fn file_hint_restricts_candidates() {
    let a = [Call { literal: "\"value {}\"", row: 1, name: "in_a", args: &[" v"] }];
    let b = [Call { literal: "\"value {}\"", row: 1, name: "in_b", args: &[" w"] }];
    let m = matcher_with(
        "/src",
        dir(vec![("Alpha.java", file(1)), ("Beta.java", file(1))]),
        vec![("Alpha.java", results_for(&a)), ("Beta.java", results_for(&b))],
    );
    let log_ref = from_log_format_and_line("Beta:1 value 7", r"(?<file>\w+):(?<line>\d+) (?<body>.*)");
    let mapping = m.match_log_statement(&log_ref).unwrap();
    assert_eq!(mapping.src_ref.unwrap().name, "in_b");
    assert_eq!(mapping.variables, vec![pair("w", "7")]);
}

#[test]
fn covered_root_is_refused() {
    let mut m = LogMatcher::new();
    assert!(m.add_root("/src").is_ok());
    assert_eq!(
        m.add_root("/src/sub"),
        Err(LogError::PathExists { path: "/src/sub".to_string(), root: "/src".to_string() })
    );
    assert!(m.add_root("/srcx").is_ok());
    assert_eq!(m.match_path("/srcx/a.rs"), Some(1));
    assert!(m.is_empty());
}

#[test]
fn positional_and_missing_arguments() {
    let calls = [Call { literal: "\"{1} then {0} then {} {}\"", row: 1, name: "f", args: &[" first", " second"] }];
    let src_refs = statements("p.rs", &results_for(&calls));
    let log_ref = LogRefBuilder::new().build("b then a then c d");
    let vars = extract_variables(&log_ref, &src_refs[0]);
    assert_eq!(
        vars,
        vec![pair("second", "b"), pair("first", "a"), pair("first", "c"), pair("second", "d")]
    );
    let short = [Call { literal: "\"{} and {}\"", row: 1, name: "g", args: &[" only"] }];
    let refs = statements("q.rs", &results_for(&short));
    let v = extract_variables(&LogRefBuilder::new().build("x and y"), &refs[0]);
    assert_eq!(v, vec![pair("only", "x"), pair("<unknown>", "y")]);
}

#[test]
fn logger_identifiers_are_not_arguments() {
    let calls = [Call { literal: "\"saw {}\"", row: 1, name: "f", args: &[" log", " count"] }];
    let refs = statements("A.java", &results_for(&calls));
    assert_eq!(refs[0].vars, vec!["count".to_string()]);
}

#[test]
fn source_ref_equality_and_copy() {
    let refs = test_source_statements();
    assert!(refs[2].same_statement(&refs[2].copy()));
    assert!(!refs[2].same_statement(&refs[4]));
}

#[test]
fn line_numbers_parse() {
    assert_eq!(log2src::log_ref::parse_number("146"), Some(146));
    assert_eq!(log2src::log_ref::parse_number("+7"), Some(7));
    assert_eq!(log2src::log_ref::parse_number("x1"), None);
    assert_eq!(log2src::log_ref::parse_number("99999999999999999999999"), None);
    assert_eq!(log2src::error::number_text(0), "0");
    assert_eq!(log2src::error::number_text(4096), "4096");
}

#[test]
fn accumulator_groups_continuation_lines() {
    let calls = [Call { literal: "\"you're only as {}\\n as your last cut\"", row: 7, name: "main", args: &[" adjective"] }];
    let m = matcher_with("/src", dir(vec![("main.rs", file(1))]), vec![("main.rs", results_for(&calls))]);
    let format = LogFormat::try_from(BRACKET_FORMAT).unwrap();
    let mut acc = log2src::MessageAccumulator::new(m, Some(format), usize::MAX);
    assert!(acc.consume_line("stray line before any message").is_none());
    assert!(acc.content.is_empty());
    assert!(acc.consume_line("[2024-05-09T19:58:53Z DEBUG main] you're only as funky").is_none());
    assert!(acc.consume_line(" as your last cut").is_none());
    let mapping = acc.consume_line("[2024-05-09T19:58:54Z DEBUG main] next").unwrap();
    assert_eq!(mapping.variables, vec![pair("adjective", "funky")]);
    assert_eq!(acc.message_count, 1);
    let last = acc.flush().unwrap();
    assert!(last.src_ref.is_none());
    assert_eq!(acc.message_count, 2);
    assert!(acc.eof().is_ok());
}

#[test]
fn accumulator_limit_and_empty_input() {
    let m = LogMatcher::new();
    let format = LogFormat::try_from(BRACKET_FORMAT).unwrap();
    let mut acc = log2src::MessageAccumulator::new(m, Some(format), 0);
    assert!(acc.at_limit());
    assert!(acc.consume_line("[2024-05-09T19:58:53Z DEBUG main] one").is_none());
    assert!(acc.flush().is_none());
    assert_eq!(acc.eof(), Err(LogError::NoLogMessages));
    let mut bare = log2src::MessageAccumulator::new(LogMatcher::new(), None, 5);
    assert!(bare.consume_line("anything").is_some());
    assert!(bare.eof().is_ok());
}

#[test]
fn batch_extraction_skips_files_without_statements() {
    let mut next_id = 0;
    let with = CodeSource::from_string("a.rs", "", &mut next_id).unwrap();
    let without = CodeSource::from_string("b.rs", "", &mut next_id).unwrap();
    let calls = [Call { literal: "\"started {}\"", row: 1, name: "main", args: &[" x"] }];
    let blank = [Call { literal: "\"{}\"", row: 1, name: "main", args: &[] }];
    let sources = vec![(with, results_for(&calls)), (without, results_for(&blank))];
    let (found, errors) = log2src::extract_logging(&sources, &ProgressTracker::new());
    assert_eq!(found.len(), 1);
    assert!(errors.is_empty());
    assert_eq!(found[0].path, "a.rs");
    assert_eq!(found[0].log_statements[0].vars, vec!["x".to_string()]);
}

#[test]
fn better_statement_under_later_root_wins() {
    let low = [Call { literal: "\"{a} {b}!\"", row: 1, name: "low", args: &[] }];
    let high = [Call { literal: "\"Hello {b}!\"", row: 1, name: "high", args: &[] }];
    let mut m = LogMatcher::new();
    m.add_root("/one").unwrap();
    m.add_root("/two").unwrap();
    let tracker = ProgressTracker::new();
    let snaps = vec![dir(vec![("a.rs", file(1))]), dir(vec![("b.rs", file(1))])];
    assert!(m.discover_sources(&snaps, &tracker).is_empty());
    let mut parsed = Vec::new();
    for (idx, path, info) in m.scan_sources() {
        let results = if path.ends_with("a.rs") { results_for(&low) } else { results_for(&high) };
        parsed.push(log2src::ParsedSource { root: idx, code: CodeSource::new(&path, info, String::new()), results });
    }
    assert!(m.extract_log_statements(&parsed, &tracker).is_empty());
    let mapping = m.match_log_statement(&LogRefBuilder::new().build("Hello Tim!")).unwrap();
    let src = mapping.src_ref.unwrap();
    assert_eq!(src.name, "high");
    assert_eq!(src.source_path, "/two/b.rs");
    assert_eq!(mapping.log_ref.line, "Hello Tim!");
}

#[test]
fn rescanning_drops_deleted_statements() {
    let calls = [Call { literal: "\"gone soon\"", row: 1, name: "f", args: &[] }];
    let mut m = matcher_with("/src", dir(vec![("a.rs", file(1))]), vec![("a.rs", results_for(&calls))]);
    assert!(!m.is_empty());
    let tracker = ProgressTracker::new();
    m.discover_sources(&vec![dir(vec![])], &tracker);
    assert!(m.scan_sources().is_empty());
    assert!(m.is_empty());
    assert!(m.find_source_file_statements("a.rs").is_empty());
}
