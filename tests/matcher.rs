use log2src::{build_matcher, FormatArgument, SourceLanguage};

fn pattern_of(raw: bool, text: &str, lang: SourceLanguage) -> String {
    build_matcher(raw, text, lang).unwrap().matcher.as_str().to_string()
}

#[test]
fn test_build_matcher_needs_escape() {
    assert_eq!(
        pattern_of(false, "{}) {}, {} \\033", SourceLanguage::Rust),
        r#"(?s)^(.+)\) (.+), (.+) \x1B$"#
    );
}

#[test]
fn test_build_matcher_named() {
    assert_eq!(
        pattern_of(false, "abc {main_path:?} def", SourceLanguage::Rust),
        r#"(?s)^abc (.+) def$"#
    );
}

#[test]
fn test_build_matcher_mix() {
    let m = build_matcher(false, "{}) {:?}, {foo.bar}", SourceLanguage::Rust).unwrap();
    assert_eq!(m.matcher.as_str(), r#"(?s)^(.+)\) (.+), (.+)$"#);
    assert_eq!(m.args[2], FormatArgument::Named("foo.bar".to_string()));
}

#[test]
fn test_build_matcher_positional() {
    let m = build_matcher(false, "second={2}", SourceLanguage::Rust).unwrap();
    assert_eq!(m.matcher.as_str(), r#"(?s)^second=(.+)$"#);
    assert_eq!(m.args[0], FormatArgument::Positional(2));
}

#[test]
fn test_build_matcher_cpp() {
    let m = build_matcher(false, "they are %d years old", SourceLanguage::Cpp).unwrap();
    assert_eq!(m.matcher.as_str(), r#"(?s)^they are (.+) years old$"#);
    assert_eq!(m.args[0], FormatArgument::Placeholder);
}

#[test]
fn test_build_matcher_cpp_spdlog() {
    let m = build_matcher(false, "they are {0:d} years old", SourceLanguage::Cpp).unwrap();
    assert_eq!(m.matcher.as_str(), r#"(?s)^they are (.+) years old$"#);
    assert_eq!(m.args[0], FormatArgument::Positional(0));
}

#[test]
fn test_build_matcher_none() {
    let build_res = build_matcher(false, "%s", SourceLanguage::Cpp);
    assert!(build_res.is_none());
}

#[test]
fn test_build_matcher_multiline() {
    assert_eq!(
        pattern_of(false, "you're only as funky\n as your last cut", SourceLanguage::Rust),
        r#"(?s)^you're only as funky\n as your last cut$"#
    );
}

#[test]
fn test_build_matcher_raw() {
    assert_eq!(
        pattern_of(true, "Hard-coded \\Windows\\Path", SourceLanguage::Rust),
        r#"(?s)^Hard-coded \\Windows\\Path$"#
    );
}

#[test]
fn blank_literal_gives_no_matcher() {
    assert!(build_matcher(false, "{} {}", SourceLanguage::Rust).is_none());
    assert!(build_matcher(false, "  {}  ", SourceLanguage::Rust).is_none());
    assert!(build_matcher(false, "%d %s", SourceLanguage::Python).is_none());
    assert!(build_matcher(false, "{}", SourceLanguage::Java).is_none());
    assert!(build_matcher(false, "", SourceLanguage::Rust).is_none());
}

#[test]
fn newline_counts_as_literal_text() {
    let m = build_matcher(false, "{}\n{}", SourceLanguage::Rust).unwrap();
    assert_eq!(m.quality, 2);
    assert_eq!(m.matcher.as_str(), r#"(?s)^(.+)\n(.+)$"#);
}

#[test]
fn one_group_per_placeholder() {
    let m = build_matcher(false, "a={} b={name} c={1} d={:>4}", SourceLanguage::Rust).unwrap();
    assert_eq!(m.args.len(), 4);
    assert_eq!(m.matcher.as_str().matches("(.+)").count(), 4);
    let re = regex::Regex::new(m.matcher.as_str()).unwrap();
    assert_eq!(re.captures_len(), 5);
    assert_eq!(
        m.args,
        vec![
            FormatArgument::Placeholder,
            FormatArgument::Named("name".to_string()),
            FormatArgument::Positional(1),
            FormatArgument::Placeholder,
        ]
    );
}

#[test]
fn placeholder_kinds() {
    let m = build_matcher(false, "x {who} {7} {} y", SourceLanguage::Rust).unwrap();
    assert_eq!(
        m.args,
        vec![
            FormatArgument::Named("who".to_string()),
            FormatArgument::Positional(7),
            FormatArgument::Placeholder,
        ]
    );
}

#[test]
fn quality_counts_escaped_literal_characters() {
    let m = build_matcher(false, "a.b {} c", SourceLanguage::Rust).unwrap();
    assert_eq!(m.matcher.as_str(), r#"(?s)^a\.b (.+) c$"#);
    assert_eq!(m.quality, 5);
    assert_eq!(m.pattern, m.matcher.as_str());
}

#[test]
fn java_placeholders() {
    let m = build_matcher(false, "{}: Started \\{user} done", SourceLanguage::Java).unwrap();
    assert_eq!(m.matcher.as_str(), r#"(?s)^(.+): Started (.+) done$"#);
    assert_eq!(
        m.args,
        vec![FormatArgument::Placeholder, FormatArgument::Named("user".to_string())]
    );
}

#[test]
fn printf_conversions() {
    let m = build_matcher(false, "v=%-08.3lf n=%zu p=%%", SourceLanguage::Cpp).unwrap();
    assert_eq!(m.matcher.as_str(), r#"(?s)^v=(.+) n=(.+) p=(.+)$"#);
    assert_eq!(m.args.len(), 3);
}

#[test]
fn python_named_unicode_escape_and_null() {
    let m = build_matcher(false, "foo %s \\N{greek small letter pi}", SourceLanguage::Python).unwrap();
    assert_eq!(m.matcher.as_str(), r#"(?s)^foo (.+) \w$"#);
    let z = build_matcher(false, "nul \\0 end", SourceLanguage::Python).unwrap();
    assert_eq!(z.matcher.as_str(), r#"(?s)^nul \x00 end$"#);
}

#[test]
fn tab_and_carriage_return_are_escaped() {
    let m = build_matcher(false, "a\tb\rc", SourceLanguage::Rust).unwrap();
    assert_eq!(m.matcher.as_str(), r#"(?s)^a\tb\rc$"#);
}

#[test]
fn unclosed_brace_is_literal() {
    let m = build_matcher(false, "open { brace", SourceLanguage::Rust).unwrap();
    assert_eq!(m.matcher.as_str(), r#"(?s)^open \{ brace$"#);
    assert!(m.args.is_empty());
}

#[test]
fn language_names_and_extensions() {
    assert_eq!(SourceLanguage::Cpp.as_str(), "C++");
    assert_eq!(SourceLanguage::from_extension("hpp"), Some(SourceLanguage::Cpp));
    assert_eq!(SourceLanguage::from_extension("txt"), None);
    assert_eq!(SourceLanguage::from_path("src/a.b/main.rs"), Some(SourceLanguage::Rust));
    assert_eq!(SourceLanguage::from_path("dir/.py"), None);
    assert_eq!(SourceLanguage::from_path("Makefile"), None);
    assert!(SourceLanguage::Java.is_logger_identifier("LOGGER"));
    assert!(!SourceLanguage::Java.is_logger_identifier("this"));
}
