use codecrafters_shell::helper::{find_longest_common_prefix, CommandLineHelper};
use codecrafters_shell::program_completion::{parse_candidates, ProgrammableCompletor};

fn v(xs: &[&str]) -> Vec<String> {
    xs.iter().map(|s| s.to_string()).collect()
}

fn pairs(c: &codecrafters_shell::helper::Completion) -> Vec<(String, String)> {
    c.candidates.iter().map(|p| (p.display.clone(), p.replacement.clone())).collect()
}

#[test]
fn longest_common_prefix_cases() {
    assert_eq!(find_longest_common_prefix(&v(&[])), "");
    assert_eq!(find_longest_common_prefix(&v(&["abc"])), "abc");
    assert_eq!(find_longest_common_prefix(&v(&["abcd", "abce", "abx"])), "ab");
    assert_eq!(find_longest_common_prefix(&v(&["abc", "xyz"])), "");
    assert_eq!(find_longest_common_prefix(&v(&["ab", "abc"])), "ab");
}

#[test]
fn builtin_and_path_lookup() {
    let h = CommandLineHelper::new(v(&["echo", "exit", "type"]), v(&["xyz_b", "xyz_a", "ls", "xyz_a"]));
    assert_eq!(h.get_builtin_command("ex"), Some("exit".to_string()));
    assert_eq!(h.get_builtin_command("e"), Some("echo".to_string()));
    assert_eq!(h.get_builtin_command("q"), None);
    assert_eq!(h.get_all_path_commands("xyz"), v(&["xyz_a", "xyz_a", "xyz_b"]));
    assert_eq!(h.get_all_path_commands("nope"), v(&[]));
}

#[test]
fn complete_builtin_command() {
    let mut h = CommandLineHelper::new(v(&["echo", "exit"]), v(&["ls"]));
    let c = h.complete_command("ech");
    assert_eq!(c.start, 0);
    assert_eq!(pairs(&c), vec![("echo ".to_string(), "echo ".to_string())]);
    assert_eq!(c.printed, "");
}

#[test]
fn complete_unique_path_command() {
    let mut h = CommandLineHelper::new(v(&["echo"]), v(&["grep", "ls"]));
    let c = h.complete_command("gr");
    assert_eq!(pairs(&c), vec![("grep ".to_string(), "grep ".to_string())]);
    let c = h.complete_command("zz");
    assert!(c.candidates.is_empty());
}

#[test]
fn complete_extends_common_prefix() {
    let mut h = CommandLineHelper::new(v(&["echo"]), v(&["xyz_foo", "xyz_foo_bar"]));
    let c = h.complete_command("xy");
    assert_eq!(pairs(&c), vec![("xyz_foo".to_string(), "xyz_foo".to_string())]);
}

#[test]
fn second_tab_lists_ambiguous_matches() {
    let mut h = CommandLineHelper::new(v(&["echo"]), v(&["xyz_b", "xyz_a"]));
    let first = h.complete_command("xyz_");
    assert_eq!(first.printed, "\u{7}");
    assert_eq!(pairs(&first), vec![("xyz_".to_string(), "xyz_".to_string())]);
    let second = h.complete_command("xyz_");
    assert_eq!(second.printed, "\nxyz_a  xyz_b\n");
    assert_eq!(pairs(&second), vec![("xyz_".to_string(), "xyz_".to_string())]);
    let third = h.complete_command("xyz_");
    assert_eq!(third.printed, "\u{7}");
}

#[test]
fn file_name_completion_rings_then_lists() {
    let mut h = CommandLineHelper::new(v(&["echo"]), v(&[]));
    assert!(!h.begin_filename_completion("ls"));
    assert!(h.begin_filename_completion("cat fo"));
    let one = h.complete_filenames("cat fo", 4, v(&["foo.txt"]));
    assert_eq!(one.start, 4);
    assert_eq!(pairs(&one), vec![("foo.txt ".to_string(), "foo.txt ".to_string())]);
    let dir = h.complete_filenames("cat fo", 4, v(&["foo/"]));
    assert_eq!(pairs(&dir), vec![("foo/".to_string(), "foo/".to_string())]);
    let longer = h.complete_filenames("cat f", 4, v(&["foo_a", "foo_b"]));
    assert_eq!(longer.start, 4);
    assert_eq!(pairs(&longer), vec![("foo_".to_string(), "foo_".to_string())]);
    let first = h.complete_filenames("cat foo_", 4, v(&["foo_a", "foo_b"]));
    assert_eq!(first.printed, "\u{7}");
    assert!(first.candidates.is_empty());
    let second = h.complete_filenames("cat foo_", 4, v(&["foo_a", "foo_b"]));
    assert_eq!(second.start, 4);
    assert_eq!(
        pairs(&second),
        vec![("foo_a ".to_string(), "foo_a ".to_string()), ("foo_b ".to_string(), "foo_b ".to_string())]
    );
    h.clear_state();
    let again = h.complete_filenames("cat foo_", 4, v(&["foo_a", "foo_b"]));
    assert_eq!(again.printed, "\u{7}");
}

#[test]
fn programmable_completion_answers() {
    let h = CommandLineHelper::new(v(&[]), v(&[]));
    let none = h.complete_programmable("git ", 4, v(&[]));
    assert_eq!(none.start, 0);
    assert_eq!(none.printed, "\u{7}");
    assert_eq!(pairs(&none), vec![("git ".to_string(), "git ".to_string())]);
    let some = h.complete_programmable("git co", 6, v(&["commit", "checkout"]));
    assert_eq!(some.start, 6);
    assert_eq!(pairs(&some), vec![("commit ".to_string(), "commit ".to_string())]);
}

#[test]
fn programmable_registry() {
    let mut p = ProgrammableCompletor::new();
    assert_eq!(p.get_completion_info(&"git".to_string()), None);
    p.register_completion("git".to_string(), "/bin/gitcomp".to_string());
    assert_eq!(p.get_completion_info(&"git".to_string()), Some(&"/bin/gitcomp".to_string()));
    p.remove_completion("git".to_string());
    assert_eq!(p.get_completion_info(&"git".to_string()), None);
}

#[test]
fn programmable_request_arguments() {
    let mut p = ProgrammableCompletor::new();
    p.register_completion("git".to_string(), "/bin/gitcomp".to_string());
    assert!(p.completion_request(&"git".to_string()).is_none());
    assert!(p.completion_request(&"ls -".to_string()).is_none());
    let r = p.completion_request(&"git com".to_string()).unwrap();
    assert_eq!(r.program, "/bin/gitcomp");
    assert_eq!(r.arguments, v(&["git", "com", ""]));
    assert_eq!(r.position, 4);
    let r = p.completion_request(&"git commit -m".to_string()).unwrap();
    assert_eq!(r.arguments, v(&["git", "-m", "commit"]));
    assert_eq!(r.position, 11);
    let r = p.completion_request(&"git é".to_string()).unwrap();
    assert_eq!(r.position, 4);
}

#[test]
fn parse_program_output() {
    assert_eq!(parse_candidates("a\n b \n\nc"), v(&["a", "b", "c"]));
    assert_eq!(parse_candidates(""), v(&[]));
    assert_eq!(parse_candidates("x\n   \n"), v(&["x", ""]));
}

#[test]
fn lookup_gives_last_registration() {
    let mut p = ProgrammableCompletor::new();
    p.register_completion("git".to_string(), "/a".to_string());
    p.register_completion("ls".to_string(), "/b".to_string());
    p.register_completion("git".to_string(), "/c".to_string());
    assert_eq!(p.get_completion_info(&"git".to_string()), Some(&"/c".to_string()));
    assert_eq!(p.get_completion_info(&"ls".to_string()), Some(&"/b".to_string()));
    assert_eq!(p.get_completion_info(&"cd".to_string()), None);
}
