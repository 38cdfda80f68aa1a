use codecrafters_shell::parser::{extract_redirection, parse_arguments, split_pipeline, Redirection};

#[test]
fn test_single_quotes() {
    assert_eq!(parse_arguments("echo 'hello    world'"), vec!["echo", "hello    world"]);
    assert_eq!(parse_arguments("echo hello    world"), vec!["echo", "hello", "world"]);
    assert_eq!(parse_arguments("echo 'hello''world'"), vec!["echo", "helloworld"]);
    assert_eq!(parse_arguments("echo hello''world"), vec!["echo", "helloworld"]);
}

#[test]
fn test_double_quotes() {
    assert_eq!(parse_arguments("echo \"hello    world\""), vec!["echo", "hello    world"]);
    assert_eq!(parse_arguments("echo \"hello\"\"world\""), vec!["echo", "helloworld"]);
    assert_eq!(parse_arguments("echo \"hello\" \"world\""), vec!["echo", "hello", "world"]);
    assert_eq!(parse_arguments("echo \"shell's test\""), vec!["echo", "shell's test"]);
}

#[test]
fn test_backslash() {
    assert_eq!(parse_arguments(r"echo three\ \ \ spaces"), vec!["echo", "three   spaces"]);
    assert_eq!(parse_arguments(r"echo before\     after"), vec!["echo", "before ", "after"]);
    assert_eq!(parse_arguments(r"echo test\nexample"), vec!["echo", "testnexample"]);
    assert_eq!(parse_arguments(r"echo hello\\world"), vec!["echo", "hello\\world"]);
    assert_eq!(parse_arguments(r"echo \'hello\'"), vec!["echo", "'hello'"]);
}

#[test]
fn test_backslash_single_quotes() {
    assert_eq!(parse_arguments(r"echo 'shell\\\nscript'"), vec!["echo", r"shell\\\nscript"]);
    assert_eq!(parse_arguments(r#"echo 'example\"test'"#), vec!["echo", r#"example\"test"#]);
    assert_eq!(parse_arguments(r"echo 'multiple\\slashes'"), vec!["echo", r"multiple\\slashes"]);
    assert_eq!(parse_arguments(r#"echo 'every\"thing_is\"literal'"#), vec!["echo", r#"every\"thing_is\"literal"#]);
}

#[test]
fn test_backslash_double_quotes() {
    assert_eq!(parse_arguments(r#"echo "just'one'\\n'backslash""#), vec!["echo", r#"just'one'\n'backslash"#]);
    assert_eq!(parse_arguments(r#"echo "inside\"literal_quote."outside\"#), vec!["echo", r#"inside"literal_quote.outside"#]);
}

#[test]
fn test_redirection() {
    let arguments = parse_arguments("echo hello > output.txt");
    let (command_arguments, redirection) = extract_redirection(&arguments);
    assert_eq!(command_arguments, vec!["echo", "hello"]);
    assert!(matches!(redirection, Redirection::RedirectStdout(ref path) if path == "output.txt"));
}

fn strings(v: &[&str]) -> Vec<String> {
    v.iter().map(|s| s.to_string()).collect()
}

#[test]
fn parse_empty_and_blank_lines() {
    assert_eq!(parse_arguments(""), Vec::<String>::new());
    assert_eq!(parse_arguments("   \t  "), Vec::<String>::new());
    assert_eq!(parse_arguments("  ls  "), vec!["ls"]);
}

#[test]
fn parse_trims_unicode_whitespace_only_at_the_ends() {
    // U+00A0 is trimmed at the ends but does not separate arguments inside.
    assert_eq!(parse_arguments("\u{a0}a\u{a0}b\u{a0}"), vec!["a\u{a0}b"]);
}

#[test]
fn parse_empty_quotes_make_an_empty_argument() {
    assert_eq!(parse_arguments("echo ''"), vec!["echo", ""]);
    assert_eq!(parse_arguments("echo \"\""), vec!["echo", ""]);
}

#[test]
fn parse_unterminated_quote_keeps_the_argument() {
    assert_eq!(parse_arguments("echo 'abc"), vec!["echo", "abc"]);
    assert_eq!(parse_arguments("echo \"a\\"), vec!["echo", "a"]);
}

#[test]
fn parse_backslash_in_double_quotes_before_ordinary_char() {
    assert_eq!(parse_arguments(r#""a\b""#), vec![r"a\b"]);
    assert_eq!(parse_arguments(r#""a\$b""#), vec!["a$b"]);
}

#[test]
fn redirection_operators() {
    let cases = [(">", 1), ("1>", 1), ("2>", 2), (">>", 3), ("1>>", 3), ("2>>", 4)];
    for (op, kind) in cases {
        let args = strings(&["cmd", "x", op, "out", ".txt"]);
        let (cmd, red) = extract_redirection(&args);
        assert_eq!(cmd, strings(&["cmd", "x"]));
        match (kind, red) {
            (1, Redirection::RedirectStdout(p)) => assert_eq!(p, "out.txt"),
            (2, Redirection::RedirectStdErr(p)) => assert_eq!(p, "out.txt"),
            (3, Redirection::AppendStdout(p)) => assert_eq!(p, "out.txt"),
            (4, Redirection::AppendStderr(p)) => assert_eq!(p, "out.txt"),
            _ => panic!("wrong redirection for {}", op),
        }
    }
}

#[test]
fn redirection_absent_and_first_operator_wins() {
    let args = strings(&["ls", "-l"]);
    let (cmd, red) = extract_redirection(&args);
    assert_eq!(cmd, args);
    assert!(matches!(red, Redirection::Standart));
    let args = strings(&["a", "2>", "e", ">", "o"]);
    let (cmd, red) = extract_redirection(&args);
    assert_eq!(cmd, strings(&["a"]));
    assert!(matches!(red, Redirection::RedirectStdErr(ref p) if p == "e>o"));
}

#[test]
fn math_redirection_and_destination() {
    let r = Redirection::math_redirection(&">".to_string(), "f".to_string());
    assert_eq!(r.destination_path(), Some("f".to_string()));
    let r = Redirection::math_redirection(&"2>".to_string(), "f".to_string());
    assert_eq!(r.destination_path(), None);
    let r = Redirection::math_redirection(&"<".to_string(), "f".to_string());
    assert!(matches!(r, Redirection::Standart));
}

#[test]
fn pipeline_split() {
    let toks = strings(&["ls", "-l", "|", "grep", "x", "|", "wc"]);
    assert_eq!(
        split_pipeline(&toks),
        vec![strings(&["ls", "-l"]), strings(&["grep", "x"]), strings(&["wc"])]
    );
    assert_eq!(split_pipeline(&strings(&["a"])), vec![strings(&["a"])]);
    assert_eq!(split_pipeline(&strings(&["|"])), vec![Vec::<String>::new(), Vec::new()]);
}

#[test]
fn plain_line_splits_on_ascii_whitespace() {
    let line = "  ls\t -la \n foo   bar\r";
    let expected: Vec<String> = line.split_ascii_whitespace().map(String::from).collect();
    assert_eq!(parse_arguments(line), expected);
}
