use codecrafters_shell::fs_utils::FSUtils;
use codecrafters_shell::output::{Output, Write};
use codecrafters_shell::parser::Redirection;
use codecrafters_shell::program_completion::ProgrammableCompletor;
use codecrafters_shell::shell::{
    builtin_commands, cd_destination, command_not_found, history_read_error, plan_command, CommandKind,
    HistoryRequest, ShellCommand, with_history_header, without_history_header,
};

fn v(xs: &[&str]) -> Vec<String> {
    xs.iter().map(|s| s.to_string()).collect()
}

#[test]
fn echo_joins_arguments() {
    let sh = ShellCommand::new();
    assert_eq!(sh.echo(v(&["hello", "world"])), (Some("hello world\n".to_string()), None));
    assert_eq!(sh.echo(v(&[""])), (Some("\n".to_string()), None));
}

#[test]
fn echo_e_unescapes() {
    let sh = ShellCommand::new();
    assert_eq!(sh.echo(v(&["-e", "a\\tb", "c\\n"])), (Some("a\tb c\n\n".to_string()), None));
    assert_eq!(sh.echo(v(&["-e", "plain", "words"])), (Some("plain words\n".to_string()), None));
    // a malformed escape is left out
    assert_eq!(sh.echo(v(&["-e", "x", "\\q", "y"])), (Some("x y\n".to_string()), None));
    assert_eq!(sh.echo(v(&["-e"])), (Some("\n".to_string()), None));
}

#[test]
fn type_reports() {
    let sh = ShellCommand::new();
    assert_eq!(sh.type_(&"echo".to_string(), None), (Some("echo is a shell builtin\n".to_string()), None));
    assert_eq!(
        sh.type_(&"ls".to_string(), Some("/bin/ls".to_string())),
        (Some("ls is /bin/ls\n".to_string()), None)
    );
    assert_eq!(sh.type_(&"nope".to_string(), None), (None, Some("nope not found\n".to_string())));
}

#[test]
fn builtin_list() {
    assert_eq!(
        builtin_commands(),
        v(&["echo", "exit", "type", "pwd", "cd", "history", "jobs", "complete", "declare"])
    );
}

#[test]
fn background_jobs_are_numbered() {
    let mut sh = ShellCommand::new();
    assert_eq!(sh.jobs(), (None, None));
    let r = sh.execute_in_background(&"sleep".to_string(), v(&["5"]), Some(4242));
    assert_eq!(r, (Some("[1] 4242\n".to_string()), None));
    let r = sh.execute_in_background(&"nope".to_string(), v(&[]), None);
    assert_eq!(r, (None, Some("nope: command not found\n".to_string())));
    let r = sh.execute_in_background(&"sleep".to_string(), v(&["9"]), Some(7));
    assert_eq!(r, (Some("[2] 7\n".to_string()), None));
    let (out, err) = sh.jobs();
    assert_eq!(err, None);
    let out = out.unwrap();
    assert!(out.ends_with('\n'));
    assert_eq!(out.lines().count(), 2);
    assert!(out.contains("sleep 5") && out.contains("sleep 9"));
}

#[test]
fn cd_messages() {
    let mut sh = ShellCommand::new();
    assert_eq!(sh.cd(&"/tmp".to_string(), true), (None, None));
    assert_eq!(
        sh.cd(&"/nowhere".to_string(), false),
        (None, Some("cd: /nowhere: No such file or directory\n".to_string()))
    );
    assert_eq!(cd_destination(&"~".to_string(), &"/home/u".to_string()), "/home/u");
    assert_eq!(cd_destination(&"dir".to_string(), &"/home/u".to_string()), "dir");
}

#[test]
fn history_requests_and_listing() {
    let sh = ShellCommand::new();
    let entries = v(&["ls", "pwd", "echo hi"]);
    assert!(matches!(sh.history(v(&["-r", "f"]), &entries), HistoryRequest::Read(ref p) if p == "f"));
    assert!(matches!(sh.history(v(&["-w", "f"]), &entries), HistoryRequest::Write(ref p) if p == "f"));
    assert!(matches!(sh.history(v(&["-a", "f"]), &entries), HistoryRequest::Append(ref p) if p == "f"));
    match sh.history(v(&[]), &entries) {
        HistoryRequest::Show(t) => assert_eq!(t, "\t1 ls\n\t2 pwd\n\t3 echo hi\n"),
        _ => panic!(),
    }
    match sh.history(v(&["2"]), &entries) {
        HistoryRequest::Show(t) => assert_eq!(t, "\t2 pwd\n\t3 echo hi\n"),
        _ => panic!(),
    }
    match sh.history(v(&["+10"]), &entries) {
        HistoryRequest::Show(t) => assert_eq!(t, "\t1 ls\n\t2 pwd\n\t3 echo hi\n"),
        _ => panic!(),
    }
    match sh.history(v(&["x"]), &entries) {
        HistoryRequest::Show(t) => assert_eq!(t, ""),
        _ => panic!(),
    }
    match sh.history(v(&["-r"]), &entries) {
        HistoryRequest::Show(t) => assert_eq!(t, ""),
        _ => panic!(),
    }
    assert_eq!(
        history_read_error(&"h.txt".to_string()),
        "history: cannot read history file 'h.txt': No such file or directory\n"
    );
}

#[test]
fn complete_builtin() {
    let sh = ShellCommand::new();
    let mut p = ProgrammableCompletor::new();
    assert_eq!(sh.complete(v(&["-p"]), &mut p), (None, Some("No command specified\n".to_string())));
    assert_eq!(
        sh.complete(v(&["-p", "git"]), &mut p),
        (None, Some("complete: git: no completion specification\n".to_string()))
    );
    assert_eq!(sh.complete(v(&["-C", "/bin/c", "git"]), &mut p), (None, None));
    assert_eq!(
        sh.complete(v(&["-p", "git"]), &mut p),
        (Some("complete -C '/bin/c' git\n".to_string()), None)
    );
    assert_eq!(sh.complete(v(&["-r", "git"]), &mut p), (None, None));
    assert_eq!(p.get_completion_info(&"git".to_string()), None);
}

#[test]
fn declare_builtin() {
    let mut sh = ShellCommand::new();
    assert_eq!(sh.declare(&v(&["declare"])), (None, Some("No command specified\n".to_string())));
    assert_eq!(sh.declare(&v(&["declare", "A=b=c"])), (None, None));
    assert_eq!(sh.declare(&v(&["declare", "-p", "A"])), (Some("declare -- A=\"b=c\"\n".to_string()), None));
    assert_eq!(sh.declare(&v(&["declare", "-p", "B"])), (None, Some("declare: B: not found\n".to_string())));
    assert_eq!(sh.declare(&v(&["declare", "noequals"])), (None, None));
    assert_eq!(sh.declare(&v(&["declare", "-p", "noequals"])), (None, Some("declare: noequals: not found\n".to_string())));
    let vars = sh.declared_variables();
    assert_eq!(vars.get(&"A".to_string()), Some(&"b=c".to_string()));
}

#[test]
fn plan_commands() {
    let p = plan_command(&v(&["echo", "hi", ">", "out"]));
    assert!(matches!(p.kind, CommandKind::Echo));
    assert_eq!(p.arguments, v(&["echo", "hi"]));
    assert_eq!(p.history_entry, "echo hi");
    assert!(matches!(p.redirection, Redirection::RedirectStdout(ref f) if f == "out"));
    let p = plan_command(&v(&["sleep", "5", "&"]));
    assert!(matches!(p.kind, CommandKind::Background));
    assert_eq!(p.arguments, v(&["sleep", "5"]));
    assert_eq!(p.history_entry, "sleep 5");
    let p = plan_command(&v(&["ls"]));
    assert!(matches!(p.kind, CommandKind::External));
    assert!(matches!(p.redirection, Redirection::Standart));
    for (name, ok) in [("exit", 0), ("pwd", 1), ("type", 2), ("cd", 3), ("history", 4), ("jobs", 5), ("complete", 6), ("declare", 7)] {
        let k = plan_command(&v(&[name])).kind;
        let got = match k {
            CommandKind::Exit => 0,
            CommandKind::Pwd => 1,
            CommandKind::Type => 2,
            CommandKind::Cd => 3,
            CommandKind::History => 4,
            CommandKind::Jobs => 5,
            CommandKind::Complete => 6,
            CommandKind::Declare => 7,
            _ => 99,
        };
        assert_eq!(got, ok);
    }
    assert_eq!(command_not_found(&"foo".to_string()), "foo: command not found\n");
}

#[test]
fn output_routing() {
    let o = Output::new();
    let text = "x".to_string();
    assert!(matches!(o.sdtout(&text, &Redirection::RedirectStdout("f".to_string())), Write::ToFile(ref p, ref t) if p == "f" && t == "x"));
    assert!(matches!(o.sdtout(&text, &Redirection::AppendStdout("f".to_string())), Write::Print(ref t) if t == "x"));
    assert!(matches!(o.stderr(&text, &Redirection::RedirectStdErr("e".to_string())), Write::ToFile(ref p, _) if p == "e"));
    assert!(matches!(o.stderr(&text, &Redirection::Standart), Write::Print(_)));
    assert!(matches!(o.stderr(&String::new(), &Redirection::Standart), Write::Nothing));
}

#[test]
fn executable_bits() {
    let f = FSUtils::new();
    assert_eq!(f.is_file_executable(Some(0o755)), Some(true));
    assert_eq!(f.is_file_executable(Some(0o644)), Some(false));
    assert_eq!(f.is_file_executable(Some(0o001)), Some(true));
    assert_eq!(f.is_file_executable(None), None);
}

#[test]
fn new_shell_is_not_redirected() {
    let sh = ShellCommand::new();
    assert!(matches!(sh.redirection, Redirection::Standart));
}

#[test]
fn execute_background_name_runs_in_background() {
    let p = plan_command(&v(&["execute_background", "sleep", "1"]));
    assert!(matches!(p.kind, CommandKind::Background));
    assert_eq!(p.arguments, v(&["execute_background", "sleep", "1"]));
}

#[test]
fn new_shell_has_no_variable() {
    let mut sh = ShellCommand::new();
    assert_eq!(sh.declare(&v(&["declare", "x=1"])), (None, None));
    assert_eq!(sh.declare(&v(&["declare", "-p", "x"])), (Some("declare -- x=\"1\"\n".to_string()), None));
    assert_eq!(sh.declare(&v(&["declare", "-p", "y"])), (None, Some("declare: y: not found\n".to_string())));
}

#[test]
fn background_job_is_listed_running() {
    let mut sh = ShellCommand::new();
    sh.execute_in_background(&"sleep".to_string(), v(&["5"]), Some(42));
    let (out, _) = sh.jobs();
    assert!(out.unwrap().contains("Running"));
}

#[test]
fn history_header_is_taken_off_and_put_back() {
    assert_eq!(without_history_header("#V2\nls\npwd\n"), "ls\npwd\n");
    assert_eq!(without_history_header("ls\n"), "ls\n");
    assert_eq!(with_history_header("ls\n"), "#V2\nls\n");
    assert_eq!(without_history_header(&with_history_header("echo hi\n")), "echo hi\n");
}

#[test]
fn jobs_text_joins_the_job_listing() {
    let mut sh = ShellCommand::new();
    sh.execute_in_background(&"sleep".to_string(), v(&["5"]), Some(7));
    sh.execute_in_background(&"sleep".to_string(), v(&["6"]), Some(8));
    sh.execute_in_background(&"sleep".to_string(), v(&["7"]), Some(9));
    let lines = sh.jobs_list().get_all_jobs();
    let (out, err) = sh.jobs();
    assert_eq!(out, Some(lines.join("\n") + "\n"));
    assert_eq!(err, None);
    assert_eq!(ShellCommand::new().jobs(), (None, None));
}
