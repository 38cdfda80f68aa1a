use codecrafters_shell::text::{decimal_string, lex_le_str, parse_usize, replace_text, split_on, trimmed_string};

#[test]
fn decimal_numbers() {
    assert_eq!(decimal_string(0), "0");
    assert_eq!(decimal_string(7), "7");
    assert_eq!(decimal_string(1234567890), "1234567890");
    assert_eq!(decimal_string(usize::MAX), usize::MAX.to_string());
}

#[test]
fn parse_numbers_like_std() {
    for s in ["0", "12", "+5", "", "+", "-1", "1a", "007", "18446744073709551615", "18446744073709551616", " 1"] {
        assert_eq!(parse_usize(s), s.parse::<usize>().ok(), "input {:?}", s);
    }
}

#[test]
fn replace_like_std() {
    for (s, p, r) in [("aaa", "aa", "b"), ("$X-$X", "$X", "v"), ("none", "$Y", "z"), ("", "a", "b"), ("ab", "ab", "")] {
        assert_eq!(replace_text(s, p, r), s.replace(p, r));
    }
}

#[test]
fn trim_like_std() {
    for s in ["  a b  ", "\u{3000}x\u{85}", "", "   ", "\ty\n"] {
        assert_eq!(trimmed_string(s), s.trim());
    }
}

#[test]
fn split_like_std() {
    for s in ["a b  c", "", " ", "abc "] {
        assert_eq!(split_on(s, ' '), s.split(' ').map(|x| x.to_string()).collect::<Vec<_>>());
    }
}

#[test]
fn order_like_string() {
    for (a, b) in [("a", "b"), ("ab", "a"), ("", ""), ("é", "z"), ("z", "é"), ("abc", "abd")] {
        assert_eq!(lex_le_str(a, b), a.to_string() <= b.to_string());
    }
}
