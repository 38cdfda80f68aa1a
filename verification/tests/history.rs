use codecrafters_shell::history::History;

#[test]
fn history_numbers_commands_in_order() {
    let mut h = History::new();
    assert!(h.commands().is_empty());
    h.add_command("ls".to_string());
    h.add_command("pwd".to_string());
    h.add_command("echo hi".to_string());
    assert_eq!(
        h.commands(),
        vec![(0, "ls".to_string()), (1, "pwd".to_string()), (2, "echo hi".to_string())]
    );
}

#[test]
fn history_last_n() {
    let mut h = History::new();
    for c in ["a", "b", "c", "d"] {
        h.add_command(c.to_string());
    }
    assert_eq!(h.last_n(2), vec![(2, "c".to_string()), (3, "d".to_string())]);
    assert_eq!(h.last_n(0), vec![]);
    assert_eq!(h.last_n(10).len(), 4);
    assert_eq!(h.last_n(4), h.commands());
}
