use codecrafters_shell::declare::DeclaredVariables;

fn s(x: &str) -> String {
    x.to_string()
}

#[test]
fn validate_names() {
    let v = DeclaredVariables::new();
    assert!(v.validate_command("abc"));
    assert!(v.validate_command("_a1"));
    assert!(v.validate_command("été"));
    assert!(!v.validate_command("1abc"));
    assert!(!v.validate_command(""));
    assert!(!v.validate_command("a-b"));
}

#[test]
fn register_then_get() {
    let mut v = DeclaredVariables::new();
    assert_eq!(v.get(&s("X")), None);
    v.register(s("X"), s("1"));
    v.register(s("Y"), s("2"));
    assert_eq!(v.get(&s("X")), Some(&s("1")));
    v.register(s("X"), s("3"));
    assert_eq!(v.get(&s("X")), Some(&s("3")));
    assert_eq!(v.get(&s("Y")), Some(&s("2")));
    assert_eq!(v.get(&s("Z")), None);
}

#[test]
fn substitute_replaces_references() {
    let mut v = DeclaredVariables::new();
    v.register(s("NAME"), s("world"));
    let out = v.substitute_variables(vec![vec![s("echo"), s("hello_$NAME"), s("$NAME$NAME"), s("plain")]]);
    assert_eq!(out, vec![vec![s("echo"), s("hello_world"), s("worldworld"), s("plain")]]);
}

#[test]
fn substitute_first_declared_variable_wins() {
    let mut v = DeclaredVariables::new();
    v.register(s("A"), s("x"));
    v.register(s("AB"), s("y"));
    // "$A" occurs in "$AB", and A was declared first.
    let out = v.substitute_variables(vec![vec![s("$AB")], vec![]]);
    assert_eq!(out, vec![vec![s("xB")], vec![]]);
}

#[test]
fn substitute_without_dollar_is_identity() {
    let mut v = DeclaredVariables::new();
    v.register(s("A"), s("x"));
    let words = vec![vec![s("A"), s("no reference"), s("")]];
    assert_eq!(v.substitute_variables(words.clone()), words);
}

#[test]
fn substituted_value_is_the_declared_value() {
    let mut d = DeclaredVariables::new();
    d.register(s("x"), s("1"));
    d.register(s("x"), s("2"));
    let r = d.substitute_variables(vec![vec![s("$x$x"), s("y")]]);
    assert_eq!(r, vec![vec![s("22"), s("y")]]);
    assert_eq!(d.get(&s("x")), Some(&s("2")));
}
