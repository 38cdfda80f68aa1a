//! Splitting a command line into arguments, and finding output redirections.

use vstd::prelude::*;
use crate::text::{views, is_ascii_ws, is_unicode_ws, trim, trim_start, trim_end, trimmed_chars, string_of, char_is_ascii_ws, chars_of, join, join_range};

verus! {

broadcast use vstd::string::group_string_axioms;

/// Where the output of a command goes.
pub enum Redirection {
    Standart,
    RedirectStdout(String),
    RedirectStdErr(String),
    AppendStdout(String),
    AppendStderr(String),
}

/// The state of the argument tokenizer between two characters.
#[derive(PartialEq, Eq, Structural, Clone, Copy)]
pub enum State {
    Whitespace,
    Unquoted,
    UnquotedBackSlash,
    SingleQuoted,
    DoubleQuoted,
    DoubleQuotedBackslash,
}

/// A character that keeps its literal meaning after a backslash inside double quotes.
pub open spec fn escapable_in_double_quotes(c: char) -> bool {
    c == '"' || c == '\\' || c == '$' || c == '`' || c == '\n'
}

/// One step of the tokenizer: the state, the argument being built and the finished
/// arguments after reading `c`.
pub open spec fn step(
    state: State,
    current: Seq<char>,
    tokens: Seq<Seq<char>>,
    c: char,
) -> (State, Seq<char>, Seq<Seq<char>>) {
    match state {
        State::Whitespace => {
            if c == '\'' {
                (State::SingleQuoted, current, tokens)
            } else if c == '"' {
                (State::DoubleQuoted, current, tokens)
            } else if c == '\\' {
                (State::UnquotedBackSlash, current, tokens)
            } else if is_ascii_ws(c) {
                (State::Whitespace, current, tokens)
            } else {
                (State::Unquoted, current.push(c), tokens)
            }
        },
        State::Unquoted => {
            if is_ascii_ws(c) {
                (State::Whitespace, Seq::empty(), tokens.push(current))
            } else if c == '\'' {
                (State::SingleQuoted, current, tokens)
            } else if c == '"' {
                (State::DoubleQuoted, current, tokens)
            } else if c == '\\' {
                (State::UnquotedBackSlash, current, tokens)
            } else {
                (State::Unquoted, current.push(c), tokens)
            }
        },
        State::UnquotedBackSlash => (State::Unquoted, current.push(c), tokens),
        State::SingleQuoted => {
            if c == '\'' {
                (State::Unquoted, current, tokens)
            } else {
                (State::SingleQuoted, current.push(c), tokens)
            }
        },
        State::DoubleQuoted => {
            if c == '"' {
                (State::Unquoted, current, tokens)
            } else if c == '\\' {
                (State::DoubleQuotedBackslash, current, tokens)
            } else {
                (State::DoubleQuoted, current.push(c), tokens)
            }
        },
        State::DoubleQuotedBackslash => {
            if escapable_in_double_quotes(c) {
                (State::DoubleQuoted, current.push(c), tokens)
            } else {
                (State::DoubleQuoted, current.push('\\').push(c), tokens)
            }
        },
    }
}

/// The tokenizer after reading all of `s`, starting between arguments with nothing read.
pub open spec fn run(s: Seq<char>) -> (State, Seq<char>, Seq<Seq<char>>)
    decreases s.len(),
{
    if s.len() == 0 {
        (State::Whitespace, Seq::empty(), Seq::empty())
    } else {
        let (st, cur, toks) = run(s.drop_last());
        step(st, cur, toks, s.last())
    }
}

/// The arguments of `input`: the tokenizer is run over the trimmed line, and an
/// argument still open at the end is kept.
pub open spec fn arguments_of(input: Seq<char>) -> Seq<Seq<char>> {
    let (st, cur, toks) = run(trim(input));
    if st == State::Whitespace {
        toks
    } else {
        toks.push(cur)
    }
}

/// Splits a command line into its arguments, following the shell's quoting rules:
/// single quotes keep everything literally, double quotes keep everything but a
/// backslash before `"`, `\`, `$`, `` ` `` or a newline, and outside quotes a backslash
/// keeps the next character literally and ASCII whitespace separates arguments.
pub fn parse_arguments(input: &str) -> (tokens: Vec<String>)
    ensures
        views(tokens@) == arguments_of(input@),
{
    let cs = trimmed_chars(input);
    let ghost t = cs@;
    let mut tokens: Vec<String> = Vec::new();
    let mut current: Vec<char> = Vec::new();
    let mut state = State::Whitespace;
    let mut i: usize = 0;
    while i < cs.len()
        invariant
            t == cs@,
            i <= cs@.len(),
            run(t.take(i as int)) == (state, current@, views(tokens@)),
        decreases cs@.len() - i,
    {
        let c = cs[i];
        proof {
            assert(t.take(i + 1).drop_last() == t.take(i as int));
            assert(t.take(i + 1).last() == c);
        }
        let ghost before = tokens@;
        match state {
            State::Whitespace => {
                if c == '\'' {
                    state = State::SingleQuoted;
                } else if c == '"' {
                    state = State::DoubleQuoted;
                } else if c == '\\' {
                    state = State::UnquotedBackSlash;
                } else if char_is_ascii_ws(c) {
                    state = State::Whitespace;
                } else {
                    current.push(c);
                    state = State::Unquoted;
                }
            },
            State::Unquoted => {
                if char_is_ascii_ws(c) {
                    let tok = string_of(&current);
                    tokens.push(tok);
                    assert(views(tokens@) == views(before).push(current@));
                    current = Vec::new();
                    state = State::Whitespace;
                } else if c == '\'' {
                    state = State::SingleQuoted;
                } else if c == '"' {
                    state = State::DoubleQuoted;
                } else if c == '\\' {
                    state = State::UnquotedBackSlash;
                } else {
                    current.push(c);
                    state = State::Unquoted;
                }
            },
            State::UnquotedBackSlash => {
                current.push(c);
                state = State::Unquoted;
            },
            State::SingleQuoted => {
                if c == '\'' {
                    state = State::Unquoted;
                } else {
                    current.push(c);
                    state = State::SingleQuoted;
                }
            },
            State::DoubleQuoted => {
                if c == '"' {
                    state = State::Unquoted;
                } else if c == '\\' {
                    state = State::DoubleQuotedBackslash;
                } else {
                    current.push(c);
                    state = State::DoubleQuoted;
                }
            },
            State::DoubleQuotedBackslash => {
                if c == '"' || c == '\\' || c == '$' || c == '`' || c == '\n' {
                    current.push(c);
                } else {
                    current.push('\\');
                    current.push(c);
                }
                state = State::DoubleQuoted;
            },
        }
        i += 1;
    }
    proof {
        assert(t.take(t.len() as int) == t);
    }
    if state != State::Whitespace {
        let ghost before = tokens@;
        let tok = string_of(&current);
        tokens.push(tok);
        assert(views(tokens@) == views(before).push(current@));
    }
    tokens
}


/// Which redirection operator `s` is: 1 for `>` and `1>`, 2 for `2>`, 3 for `>>` and
/// `1>>`, 4 for `2>>`, 0 for anything else.
pub open spec fn operator_kind(s: Seq<char>) -> u8 {
    if s == seq!['>'] || s == seq!['1', '>'] {
        1
    } else if s == seq!['2', '>'] {
        2
    } else if s == seq!['>', '>'] || s == seq!['1', '>', '>'] {
        3
    } else if s == seq!['2', '>', '>'] {
        4
    } else {
        0
    }
}

/// `s` is one of the six redirection operators.
pub open spec fn is_operator(s: Seq<char>) -> bool {
    operator_kind(s) != 0
}

/// `r` is the redirection that operator `symbol` asks for, towards `path`.
pub open spec fn redirection_for(r: Redirection, symbol: Seq<char>, path: Seq<char>) -> bool {
    match operator_kind(symbol) {
        1 => r matches Redirection::RedirectStdout(p) && p@ == path,
        2 => r matches Redirection::RedirectStdErr(p) && p@ == path,
        3 => r matches Redirection::AppendStdout(p) && p@ == path,
        4 => r matches Redirection::AppendStderr(p) && p@ == path,
        _ => r is Standart,
    }
}

/// The number that `operator_kind` gives to the string `symbol`.
fn kind_of(symbol: &String) -> (k: u8)
    ensures
        k == operator_kind(symbol@),
{
    let cs = chars_of(symbol.as_str());
    let n = cs.len();
    proof {
        assert(cs@ == symbol@);
    }
    if n == 1 && cs[0] == '>' {
        assert(cs@ == seq!['>']);
        1
    } else if n == 2 && cs[0] == '1' && cs[1] == '>' {
        assert(cs@ == seq!['1', '>']);
        1
    } else if n == 2 && cs[0] == '2' && cs[1] == '>' {
        assert(cs@ == seq!['2', '>']);
        2
    } else if n == 2 && cs[0] == '>' && cs[1] == '>' {
        assert(cs@ == seq!['>', '>']);
        3
    } else if n == 3 && cs[0] == '1' && cs[1] == '>' && cs[2] == '>' {
        assert(cs@ == seq!['1', '>', '>']);
        3
    } else if n == 3 && cs[0] == '2' && cs[1] == '>' && cs[2] == '>' {
        assert(cs@ == seq!['2', '>', '>']);
        4
    } else {
        assert(!(cs@ == seq!['>'])) by {
            if cs@ == seq!['>'] { assert(cs@[0] == '>'); }
        }
        assert(!(cs@ == seq!['1', '>'])) by {
            if cs@ == seq!['1', '>'] { assert(cs@[0] == '1' && cs@[1] == '>'); }
        }
        assert(!(cs@ == seq!['2', '>'])) by {
            if cs@ == seq!['2', '>'] { assert(cs@[0] == '2' && cs@[1] == '>'); }
        }
        assert(!(cs@ == seq!['>', '>'])) by {
            if cs@ == seq!['>', '>'] { assert(cs@[0] == '>' && cs@[1] == '>'); }
        }
        assert(!(cs@ == seq!['1', '>', '>'])) by {
            if cs@ == seq!['1', '>', '>'] { assert(cs@[0] == '1' && cs@[1] == '>' && cs@[2] == '>'); }
        }
        assert(!(cs@ == seq!['2', '>', '>'])) by {
            if cs@ == seq!['2', '>', '>'] { assert(cs@[0] == '2' && cs@[1] == '>' && cs@[2] == '>'); }
        }
        0
    }
}

impl Redirection {
    /// The redirection that `symbol` asks for, towards `path`; `Standart` when
    /// `symbol` is no redirection operator.
    pub fn math_redirection(symbol: &String, path: String) -> (r: Redirection)
        ensures
            redirection_for(r, symbol@, path@),
    {
        let k = kind_of(symbol);
        if k == 1 {
            Redirection::RedirectStdout(path)
        } else if k == 2 {
            Redirection::RedirectStdErr(path)
        } else if k == 3 {
            Redirection::AppendStdout(path)
        } else if k == 4 {
            Redirection::AppendStderr(path)
        } else {
            Redirection::Standart
        }
    }

    /// The file that standard output is written to, for a `>` or `1>` redirection only.
    pub fn destination_path(&self) -> (r: Option<String>)
        ensures
            match self {
                Redirection::RedirectStdout(p) => r matches Some(q) && q@ == p@,
                _ => r is None,
            },
    {
        match self {
            Redirection::RedirectStdout(path) => Some(path.clone()),
            _ => None,
        }
    }
}

/// `i` is the position of the first redirection operator among `args`.
pub open spec fn is_first_operator(args: Seq<Seq<char>>, i: int) -> bool {
    &&& 0 <= i < args.len()
    &&& is_operator(args[i])
    &&& forall|j: int| 0 <= j < i ==> !is_operator(#[trigger] args[j])
}

/// When some argument is a redirection operator, a first one exists.
pub proof fn lemma_first_operator_exists(args: Seq<Seq<char>>, j: int)
    requires
        0 <= j < args.len(),
        is_operator(args[j]),
    ensures
        exists|i: int| is_first_operator(args, i),
    decreases j,
{
    if exists|m: int| 0 <= m < j && is_operator(#[trigger] args[m]) {
        let m = choose|m: int| 0 <= m < j && is_operator(#[trigger] args[m]);
        lemma_first_operator_exists(args, m);
    } else {
        assert(is_first_operator(args, j));
    }
}

/// Splits `arguments` at its first redirection operator: the arguments before it are
/// the command, and the arguments after it, concatenated, are the target path. Without
/// an operator, all arguments are the command and the redirection is `Standart`.
pub fn extract_redirection(arguments: &Vec<String>) -> (r: (Vec<String>, Redirection))
    ensures
        (forall|j: int| 0 <= j < arguments@.len() ==> !is_operator(#[trigger] arguments@[j]@))
            ==> views(r.0@) == views(arguments@) && r.1 is Standart,
        forall|i: int|
            is_first_operator(views(arguments@), i) ==> {
                &&& views(r.0@) == views(arguments@).take(i)
                &&& redirection_for(r.1, arguments@[i]@, join(views(arguments@.skip(i + 1)), Seq::empty()))
            },
{
    let n = arguments.len();
    let mut i: usize = 0;
    while i < n
        invariant
            n == arguments@.len(),
            i <= n,
            forall|j: int| 0 <= j < i ==> !is_operator(#[trigger] arguments@[j]@),
        decreases n - i,
    {
        if kind_of(&arguments[i]) != 0 {
            let mut command: Vec<String> = Vec::new();
            let mut k: usize = 0;
            while k < i
                invariant
                    i < n == arguments@.len(),
                    k <= i,
                    views(command@) == views(arguments@).take(k as int),
                decreases i - k,
            {
                command.push(arguments[k].clone());
                assert(views(arguments@).take(k + 1) == views(arguments@).take(k as int).push(arguments@[k as int]@));
                k += 1;
            }
            let path = join_range(arguments, i + 1, n, "");
            proof {
                reveal_strlit("");
                assert(""@ == Seq::<char>::empty());
                assert(arguments@.subrange(i + 1, n as int) == arguments@.skip(i + 1));
                assert forall|m: int| is_first_operator(views(arguments@), m) implies m == i by {
                    if m < i {
                        assert(!is_operator(arguments@[m]@));
                    } else if m > i {
                        assert(!is_operator(views(arguments@)[i as int]));
                    }
                }
            }
            let red = Redirection::math_redirection(&arguments[i], path);
            assert(is_first_operator(views(arguments@), i as int));
            return (command, red);
        }
        i += 1;
    }
    let mut all: Vec<String> = Vec::new();
    let mut k: usize = 0;
    while k < n
        invariant
            n == arguments@.len(),
            k <= n,
            views(all@) == views(arguments@).take(k as int),
        decreases n - k,
    {
        all.push(arguments[k].clone());
        assert(views(arguments@).take(k + 1) == views(arguments@).take(k as int).push(arguments@[k as int]@));
        k += 1;
    }
    assert(views(arguments@).take(n as int) == views(arguments@));
    proof {
        assert forall|m: int| !is_first_operator(views(arguments@), m) by {
            if 0 <= m < n {
                assert(!is_operator(arguments@[m]@));
            }
        }
    }
    (all, Redirection::Standart)
}


/// Whether `s` is one of the six redirection operators.
pub fn is_redirection_operator(s: &String) -> (b: bool)
    ensures
        b == is_operator(s@),
{
    kind_of(s) != 0
}

/// The commands of a pipeline: the arguments between the `|` arguments (there is
/// always at least one command, possibly empty).
pub open spec fn pipeline_segments(ts: Seq<Seq<char>>) -> Seq<Seq<Seq<char>>>
    decreases ts.len(),
{
    if ts.len() == 0 {
        seq![Seq::empty()]
    } else {
        let p = pipeline_segments(ts.drop_last());
        if ts.last() == seq!['|'] {
            p.push(Seq::empty())
        } else {
            p.update(p.len() - 1, p.last().push(ts.last()))
        }
    }
}

proof fn lemma_pipeline_segments_nonempty(ts: Seq<Seq<char>>)
    ensures
        pipeline_segments(ts).len() >= 1,
    decreases ts.len(),
{
    if ts.len() > 0 {
        lemma_pipeline_segments_nonempty(ts.drop_last());
    }
}

/// The arguments `tokens[lo..hi]`, copied.
fn copy_range(tokens: &Vec<String>, lo: usize, hi: usize) -> (r: Vec<String>)
    requires
        lo <= hi <= tokens@.len(),
    ensures
        views(r@) == views(tokens@).subrange(lo as int, hi as int),
{
    let mut r: Vec<String> = Vec::new();
    let mut k = lo;
    while k < hi
        invariant
            lo <= k <= hi <= tokens@.len(),
            views(r@) == views(tokens@).subrange(lo as int, k as int),
        decreases hi - k,
    {
        r.push(tokens[k].clone());
        assert(views(tokens@).subrange(lo as int, k + 1) == views(tokens@).subrange(lo as int, k as int).push(tokens@[k as int]@));
        k += 1;
    }
    r
}

/// Whether `s` is the pipe argument `|`.
fn is_pipe(s: &String) -> (b: bool)
    ensures
        b == (s@ == seq!['|']),
{
    let cs = chars_of(s.as_str());
    if cs.len() == 1 && cs[0] == '|' {
        assert(cs@ == seq!['|']);
        true
    } else {
        assert(!(cs@ == seq!['|'])) by {
            if cs@ == seq!['|'] { assert(cs@[0] == '|'); }
        }
        false
    }
}

/// Splits the arguments of a command line into the commands of a pipeline, at each
/// `|` argument.
pub fn split_pipeline(tokens: &Vec<String>) -> (r: Vec<Vec<String>>)
    ensures
        r@.len() == pipeline_segments(views(tokens@)).len(),
        forall|i: int| 0 <= i < r@.len() ==> #[trigger] views(r@[i]@) == pipeline_segments(views(tokens@))[i],
{
    let ghost ts = views(tokens@);
    let mut segments: Vec<Vec<String>> = Vec::new();
    let mut start: usize = 0;
    let mut i: usize = 0;
    proof {
        assert(ts.take(0) == Seq::<Seq<char>>::empty());
        assert(ts.subrange(0, 0) == Seq::<Seq<char>>::empty());
    }
    while i < tokens.len()
        invariant
            ts == views(tokens@),
            start <= i <= ts.len(),
            segments@.len() + 1 == pipeline_segments(ts.take(i as int)).len(),
            forall|k: int| 0 <= k < segments@.len() ==> #[trigger] views(segments@[k]@) == pipeline_segments(ts.take(i as int))[k],
            pipeline_segments(ts.take(i as int)).last() == ts.subrange(start as int, i as int),
        decreases ts.len() - i,
    {
        proof {
            assert(ts.take(i + 1).drop_last() == ts.take(i as int));
            assert(ts.take(i + 1).last() == ts[i as int]);
            lemma_pipeline_segments_nonempty(ts.take(i as int));
        }
        if is_pipe(&tokens[i]) {
            let seg = copy_range(tokens, start, i);
            segments.push(seg);
            start = i + 1;
            assert(ts.subrange(start as int, i + 1) == Seq::<Seq<char>>::empty());
        } else {
            assert(ts.subrange(start as int, i + 1) == ts.subrange(start as int, i as int).push(ts[i as int]));
        }
        i += 1;
    }
    let seg = copy_range(tokens, start, tokens.len());
    segments.push(seg);
    assert(ts.take(ts.len() as int) == ts);
    proof {
        lemma_pipeline_segments_nonempty(ts);
    }
    segments
}


/// `c` has a special meaning to the tokenizer: a quote or a backslash.
pub open spec fn is_quoting(c: char) -> bool {
    c == '\'' || c == '"' || c == '\\'
}

/// The pieces of `s` between its ASCII whitespace characters.
pub open spec fn ws_pieces(s: Seq<char>) -> Seq<Seq<char>>
    decreases s.len(),
{
    if s.len() == 0 {
        seq![Seq::empty()]
    } else {
        let p = ws_pieces(s.drop_last());
        if is_ascii_ws(s.last()) {
            p.push(Seq::empty())
        } else {
            p.update(p.len() - 1, p.last().push(s.last()))
        }
    }
}

/// The words of `s`: its non-empty pieces between ASCII whitespace.
pub open spec fn words(s: Seq<char>) -> Seq<Seq<char>> {
    ws_pieces(s).filter(|w: Seq<char>| w.len() > 0)
}

proof fn lemma_run_plain(s: Seq<char>)
    requires
        forall|i: int| 0 <= i < s.len() ==> !is_quoting(#[trigger] s[i]),
    ensures
        ws_pieces(s).len() >= 1,
        run(s).2 == ws_pieces(s).drop_last().filter(|w: Seq<char>| w.len() > 0),
        run(s).1 == ws_pieces(s).last(),
        (run(s).0 == State::Whitespace) == (run(s).1.len() == 0),
        run(s).0 == State::Whitespace || run(s).0 == State::Unquoted,
    decreases s.len(),
{
    let pred = |w: Seq<char>| w.len() > 0;
    if s.len() == 0 {
        assert(ws_pieces(s).drop_last() == Seq::<Seq<char>>::empty());
        reveal_with_fuel(Seq::filter, 1);
    } else {
        let t = s.drop_last();
        let c = s.last();
        assert(!is_quoting(s[s.len() - 1]));
        lemma_run_plain(t);
        let p = ws_pieces(t);
        if is_ascii_ws(c) {
            assert(ws_pieces(s).drop_last() == p);
            p.drop_last().lemma_filter_push(p.last(), pred);
            assert(p.drop_last().push(p.last()) == p);
        } else {
            assert(ws_pieces(s).drop_last() == p.drop_last());
        }
    }
}

/// A line without quotes or backslashes splits into its words: the tokenizer
/// separates arguments at ASCII whitespace and keeps everything else.
pub proof fn law_plain_line_splits_into_words(input: Seq<char>)
    requires
        forall|i: int| 0 <= i < input.len() ==> !is_quoting(#[trigger] input[i]),
    ensures
        arguments_of(input) == words(trim(input)),
{
    let t = trim(input);
    assert forall|i: int| 0 <= i < t.len() implies !is_quoting(#[trigger] t[i]) by {
        let k = crate::text::lemma_trim_is_subrange(input);
        assert(t[i] == input[k + i]);
    }
    lemma_run_plain(t);
    let p = ws_pieces(t);
    let pred = |w: Seq<char>| w.len() > 0;
    p.drop_last().lemma_filter_push(p.last(), pred);
    assert(p.drop_last().push(p.last()) == p);
}

/// There is always at least one piece.
proof fn lemma_ws_pieces_nonempty(s: Seq<char>)
    ensures
        ws_pieces(s).len() >= 1,
    decreases s.len(),
{
    if s.len() > 0 {
        lemma_ws_pieces_nonempty(s.drop_last());
    }
}

/// A leading ASCII whitespace character only puts an empty piece in front.
proof fn lemma_ws_pieces_leading(c: char, t: Seq<char>)
    requires
        is_ascii_ws(c),
    ensures
        ws_pieces(seq![c] + t) == seq![Seq::<char>::empty()] + ws_pieces(t),
    decreases t.len(),
{
    let s = seq![c] + t;
    let e = Seq::<char>::empty();
    if t.len() == 0 {
        assert(s.drop_last() == Seq::<char>::empty());
        assert(s.last() == c);
        assert(ws_pieces(s.drop_last()) == seq![e]);
        assert(ws_pieces(t) == seq![e]);
        assert(ws_pieces(s) == seq![e].push(e));
        assert(seq![e].push(e) == seq![e] + seq![e]);
    } else {
        assert(s.drop_last() == seq![c] + t.drop_last());
        assert(s.last() == t.last());
        lemma_ws_pieces_leading(c, t.drop_last());
        lemma_ws_pieces_nonempty(t.drop_last());
        let p = ws_pieces(t.drop_last());
        if is_ascii_ws(t.last()) {
            assert((seq![e] + p).push(e) == seq![e] + p.push(e));
        } else {
            assert((seq![e] + p).last() == p.last());
            assert((seq![e] + p).update(p.len() as int, p.last().push(t.last())) == seq![e] + p.update(
                p.len() - 1,
                p.last().push(t.last()),
            ));
        }
    }
}

/// Leading ASCII whitespace does not change the words.
proof fn lemma_words_trim_start(s: Seq<char>)
    requires
        forall|i: int| 0 <= i < s.len() && is_unicode_ws(#[trigger] s[i]) ==> is_ascii_ws(s[i]),
    ensures
        words(trim_start(s)) == words(s),
    decreases s.len(),
{
    if s.len() > 0 && is_unicode_ws(s[0]) {
        let c = s[0];
        let t = s.drop_first();
        let e = Seq::<char>::empty();
        let pred = |w: Seq<char>| w.len() > 0;
        assert(is_ascii_ws(c));
        assert(s == seq![c] + t);
        lemma_ws_pieces_leading(c, t);
        Seq::filter_distributes_over_add(seq![e], ws_pieces(t), pred);
        assert(seq![e] == Seq::<Seq<char>>::empty().push(e));
        Seq::<Seq<char>>::empty().lemma_filter_push(e, pred);
        reveal_with_fuel(Seq::filter, 1);
        assert(seq![e].filter(pred) == Seq::<Seq<char>>::empty());
        assert(seq![e].filter(pred) + ws_pieces(t).filter(pred) == ws_pieces(t).filter(pred));
        assert forall|i: int| 0 <= i < t.len() && is_unicode_ws(#[trigger] t[i]) implies is_ascii_ws(t[i]) by {
            assert(t[i] == s[i + 1]);
        }
        lemma_words_trim_start(t);
    }
}

/// Trailing ASCII whitespace does not change the words.
proof fn lemma_words_trim_end(s: Seq<char>)
    requires
        forall|i: int| 0 <= i < s.len() && is_unicode_ws(#[trigger] s[i]) ==> is_ascii_ws(s[i]),
    ensures
        words(trim_end(s)) == words(s),
    decreases s.len(),
{
    if s.len() > 0 && is_unicode_ws(s.last()) {
        let t = s.drop_last();
        let pred = |w: Seq<char>| w.len() > 0;
        assert(is_ascii_ws(s[s.len() - 1]));
        assert(ws_pieces(s) == ws_pieces(t).push(Seq::<char>::empty()));
        ws_pieces(t).lemma_filter_push(Seq::<char>::empty(), pred);
        assert forall|i: int| 0 <= i < t.len() && is_unicode_ws(#[trigger] t[i]) implies is_ascii_ws(t[i]) by {
            assert(t[i] == s[i]);
        }
        lemma_words_trim_end(t);
    }
}

/// A line without quotes, backslashes or whitespace outside ASCII splits exactly as
/// `str::split_ascii_whitespace` splits it: into the non-empty pieces between its
/// ASCII whitespace characters.
pub proof fn law_plain_line_is_ascii_whitespace_split(input: Seq<char>)
    requires
        forall|i: int| 0 <= i < input.len() ==> !is_quoting(#[trigger] input[i]),
        forall|i: int| 0 <= i < input.len() && is_unicode_ws(#[trigger] input[i]) ==> is_ascii_ws(input[i]),
    ensures
        arguments_of(input) == words(input),
{
    law_plain_line_splits_into_words(input);
    lemma_words_trim_start(input);
    let t = trim_start(input);
    crate::text::lemma_trim_start_is_suffix(input);
    assert forall|i: int| 0 <= i < t.len() && is_unicode_ws(#[trigger] t[i]) implies is_ascii_ws(t[i]) by {
        assert(t[i] == input[input.len() - t.len() + i]);
    }
    lemma_words_trim_end(t);
}

/// A single-quoted text without single quotes is one argument: the text itself.
pub proof fn law_single_quotes_are_literal(text: Seq<char>)
    requires
        forall|i: int| 0 <= i < text.len() ==> #[trigger] text[i] != '\'',
    ensures
        arguments_of(seq!['\''] + text + seq!['\'']) == seq![text],
{
    let line = seq!['\''] + text + seq!['\''];
    crate::text::lemma_trim_keeps(line);
    assert forall|j: int| 0 <= j <= text.len() implies #[trigger] run(seq!['\''] + text.take(j)) == (
        State::SingleQuoted,
        text.take(j),
        Seq::<Seq<char>>::empty(),
    ) by {
        lemma_run_single_quoted(text, j);
    }
    assert(text.take(text.len() as int) == text);
    assert(line.drop_last() == seq!['\''] + text.take(text.len() as int));
    assert(run(line.drop_last()) == (State::SingleQuoted, text, Seq::<Seq<char>>::empty()));
    assert(line.last() == '\'');
    assert(run(line) == (State::Unquoted, text, Seq::<Seq<char>>::empty()));
    assert(Seq::<Seq<char>>::empty().push(text) == seq![text]);
}

proof fn lemma_run_single_quoted(text: Seq<char>, j: int)
    requires
        0 <= j <= text.len(),
        forall|i: int| 0 <= i < text.len() ==> #[trigger] text[i] != '\'',
    ensures
        run(seq!['\''] + text.take(j)) == (State::SingleQuoted, text.take(j), Seq::<Seq<char>>::empty()),
    decreases j,
{
    let s = seq!['\''] + text.take(j);
    if j == 0 {
        assert(text.take(0) == Seq::<char>::empty());
        assert(s == seq!['\'']);
        assert(s.drop_last() == Seq::<char>::empty());
        assert(s.last() == '\'');
        assert(run(s.drop_last()) == (State::Whitespace, Seq::<char>::empty(), Seq::<Seq<char>>::empty()));
    } else {
        lemma_run_single_quoted(text, j - 1);
        assert(s.drop_last() == seq!['\''] + text.take(j - 1));
        assert(s.last() == text[j - 1]);
        assert(text.take(j - 1).push(text[j - 1]) == text.take(j));
    }
}

/// Inside double quotes, text without `"` or `\\` is taken as it is.
proof fn lemma_run_double_quoted(s: Seq<char>, x: Seq<char>, cur: Seq<char>, toks: Seq<Seq<char>>)
    requires
        run(s) == (State::DoubleQuoted, cur, toks),
        forall|i: int| 0 <= i < x.len() ==> #[trigger] x[i] != '"' && x[i] != '\\',
    ensures
        run(s + x) == (State::DoubleQuoted, cur + x, toks),
    decreases x.len(),
{
    if x.len() == 0 {
        assert(s + x == s);
        assert(cur + x == cur);
    } else {
        let y = x.drop_last();
        assert forall|i: int| 0 <= i < y.len() implies #[trigger] y[i] != '"' && y[i] != '\\' by {
            assert(y[i] == x[i]);
        }
        lemma_run_double_quoted(s, y, cur, toks);
        assert((s + x).drop_last() == s + y);
        assert((s + x).last() == x.last());
        assert(x.last() == x[x.len() - 1]);
        assert((cur + y).push(x.last()) == cur + x);
    }
}

/// Inside double quotes, a backslash before `"`, `\\`, `$`, a backquote or a newline
/// gives just that character; before any other character both the backslash and the
/// character are kept. The quoted text `t`, backslash, `c`, text `u` (no `"` or `\\` in
/// `t` or `u`) is one argument.
pub proof fn law_double_quote_backslash(t: Seq<char>, c: char, u: Seq<char>)
    requires
        forall|i: int| 0 <= i < t.len() ==> #[trigger] t[i] != '"' && t[i] != '\\',
        forall|i: int| 0 <= i < u.len() ==> #[trigger] u[i] != '"' && u[i] != '\\',
    ensures
        (c == '"' || c == '\\' || c == '$' || c == '`' || c == '\n') ==> arguments_of(
            seq!['"'] + t + seq!['\\', c] + u + seq!['"'],
        ) == seq![t + seq![c] + u],
        !(c == '"' || c == '\\' || c == '$' || c == '`' || c == '\n') ==> arguments_of(
            seq!['"'] + t + seq!['\\', c] + u + seq!['"'],
        ) == seq![t + seq!['\\', c] + u],
{
    let e = Seq::<Seq<char>>::empty();
    let s0 = seq!['"'];
    assert(s0.drop_last() == Seq::<char>::empty());
    assert(s0.last() == '"');
    assert(run(s0.drop_last()) == (State::Whitespace, Seq::<char>::empty(), e));
    assert(run(s0) == (State::DoubleQuoted, Seq::<char>::empty(), e));
    lemma_run_double_quoted(s0, t, Seq::<char>::empty(), e);
    assert(Seq::<char>::empty() + t == t);
    let s1 = s0 + t;
    let s2 = s1.push('\\');
    assert(s2.drop_last() == s1);
    assert(run(s2) == (State::DoubleQuotedBackslash, t, e));
    let s3 = s2.push(c);
    assert(s3.drop_last() == s2);
    let kept = if c == '"' || c == '\\' || c == '$' || c == '`' || c == '\n' { t.push(c) } else { t.push('\\').push(
        c,
    ) };
    assert(run(s3) == (State::DoubleQuoted, kept, e));
    lemma_run_double_quoted(s3, u, kept, e);
    let s4 = s3 + u;
    let line = s4.push('"');
    assert(line.drop_last() == s4);
    assert(run(line) == (State::Unquoted, kept + u, e));
    assert(line == seq!['"'] + t + seq!['\\', c] + u + seq!['"']);
    assert(line[0] == '"');
    assert(line.last() == '"');
    crate::text::lemma_trim_keeps(line);
    assert(e.push(kept + u) == seq![kept + u]);
    assert(t.push(c) + u == t + seq![c] + u);
    assert(t.push('\\').push(c) + u == t + seq!['\\', c] + u);
}

/// The commands of a pipeline joined back with `|` arguments give the arguments.
pub open spec fn rejoin_pipeline(segments: Seq<Seq<Seq<char>>>) -> Seq<Seq<char>>
    decreases segments.len(),
{
    if segments.len() <= 1 {
        if segments.len() == 0 { Seq::empty() } else { segments[0] }
    } else {
        rejoin_pipeline(segments.drop_last()) + seq![seq!['|']] + segments.last()
    }
}

/// Splitting a command line at its `|` arguments loses nothing: joining the
/// commands back with `|` gives the arguments again.
pub proof fn law_pipeline_split_rejoins(ts: Seq<Seq<char>>)
    ensures
        rejoin_pipeline(pipeline_segments(ts)) == ts,
    decreases ts.len(),
{
    if ts.len() > 0 {
        let t = ts.drop_last();
        law_pipeline_split_rejoins(t);
        lemma_pipeline_segments_nonempty(t);
        let p = pipeline_segments(t);
        if ts.last() == seq!['|'] {
            assert(pipeline_segments(ts).drop_last() == p);
            assert(ts == t + seq![seq!['|']] + Seq::<Seq<char>>::empty());
        } else {
            let q = pipeline_segments(ts);
            if p.len() == 1 {
                assert(q == seq![p[0].push(ts.last())]);
                assert(ts == t.push(ts.last()));
            } else {
                assert(q.drop_last() == p.drop_last());
                assert(q.last() == p.last().push(ts.last()));
                assert(rejoin_pipeline(p) == rejoin_pipeline(p.drop_last()) + seq![seq!['|']] + p.last());
                assert(ts == t.push(ts.last()));
            }
        }
    }
}

} // verus!
