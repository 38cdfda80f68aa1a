//! Completions that the user registers with `complete -C <program> <command>`:
//! for a registered command, a program lists the candidates.

use vstd::prelude::*;
use vstd::hash_map::StringHashMap;
use crate::text::{views, trim, byte_len, split_char, lemma_split_char_last, lemma_split_char_pieces, lemma_byte_len_concat,
    split_on, trimmed_string, contains_char, utf8_len};

verus! {

broadcast use vstd::string::group_string_axioms;

/// The completion programs registered per command name.
pub struct ProgrammableCompletor {
    completions: StringHashMap<String>,
}

/// How to run the completion program of a command line: the program, its three
/// arguments (the command, the word being completed, the word before it) and the byte
/// position where the word being completed starts.
pub struct CompletionRequest {
    pub program: String,
    pub arguments: Vec<String>,
    pub position: usize,
}

/// The three arguments given to a completion program for the pieces `w` of a command
/// line: the command, the last piece and the piece before it (empty for two pieces).
pub open spec fn request_arguments(w: Seq<Seq<char>>) -> Seq<Seq<char>> {
    seq![w[0], w.last(), if w.len() > 2 { w[w.len() - 2] } else { Seq::empty() }]
}

/// The candidates in the output of a completion program: its non-empty lines, trimmed.
pub open spec fn candidates_of(output: Seq<char>) -> Seq<Seq<char>> {
    split_char(output, '\n').filter(|l: Seq<char>| l.len() > 0).map_values(|l: Seq<char>| trim(l))
}

impl ProgrammableCompletor {
    /// The registered program path of each command.
    pub closed spec fn completions(&self) -> Map<Seq<char>, Seq<char>> {
        self.completions@.map_values(|v: String| v@)
    }

    /// No completion is registered.
    pub fn new() -> (r: ProgrammableCompletor)
        ensures
            r.completions() == Map::<Seq<char>, Seq<char>>::empty(),
    {
        let r = ProgrammableCompletor { completions: StringHashMap::new() };
        assert(r.completions() == Map::<Seq<char>, Seq<char>>::empty());
        r
    }

    /// Registers `path` as the completion program of `command`, replacing any earlier one.
    pub fn register_completion(&mut self, command: String, path: String)
        ensures
            final(self).completions() == old(self).completions().insert(command@, path@),
    {
        self.completions.insert(command, path);
        assert(self.completions() == old(self).completions().insert(command@, path@));
    }

    /// Forgets the completion program of `command`.
    pub fn remove_completion(&mut self, command: String)
        ensures
            final(self).completions() == old(self).completions().remove(command@),
    {
        self.completions.remove(command.as_str());
        assert(self.completions() == old(self).completions().remove(command@));
    }

    /// The completion program registered for `command`.
    pub fn get_completion_info(&self, command: &String) -> (r: Option<&String>)
        ensures
            match r {
                Some(p) => self.completions().contains_key(command@) && p@ == self.completions()[command@],
                None => !self.completions().contains_key(command@),
            },
    {
        self.completions.get(command.as_str())
    }

    /// What to run to complete the line `command`: nothing when the line holds no space
    /// or when its first word, trimmed, has no registered program; otherwise the
    /// registered program with the first word, the last word and the word before it,
    /// and the byte position where the last word starts.
    pub fn completion_request(&self, command: &String) -> (r: Option<CompletionRequest>)
        ensures
            ({
                let w = split_char(command@, ' ');
                &&& !command@.contains(' ') ==> r is None
                &&& command@.contains(' ') && !self.completions().contains_key(trim(w[0])) ==> r is None
                &&& command@.contains(' ') && self.completions().contains_key(trim(w[0])) ==> {
                    &&& r is Some
                    &&& r->0.program@ == self.completions()[trim(w[0])]
                    &&& views(r->0.arguments@) == request_arguments(w)
                    &&& r->0.position == byte_len(command@) - byte_len(w.last())
                }
            }),
    {
        if !contains_char(command.as_str(), ' ') {
            return None;
        }
        let words = split_on(command.as_str(), ' ');
        let ghost w = split_char(command@, ' ');
        let first = trimmed_string(words[0].as_str());
        let found = self.completions.get(first.as_str());
        match found {
            None => None,
            Some(path) => {
                let n = words.len();
                let last = words[n - 1].clone();
                let before = if n > 2 { words[n - 2].clone() } else { String::new() };
                let total = utf8_len(command.as_str());
                let tail = utf8_len(last.as_str());
                proof {
                    assert(last@ == w.last());
                    lemma_split_char_last(command@, ' ');
                    let k = command@.len() - w.last().len();
                    assert(command@ == command@.take(k) + command@.skip(k));
                    lemma_byte_len_concat(command@.take(k), command@.skip(k));
                }
                let mut arguments: Vec<String> = Vec::new();
                arguments.push(words[0].clone());
                arguments.push(last);
                arguments.push(before);
                assert(views(arguments@) == request_arguments(w));
                Some(CompletionRequest { program: path.clone(), arguments, position: total - tail })
            },
        }
    }
}

/// After `register_completion(command, path)`, the program of `command` is `path`;
/// after `remove_completion(command)`, `command` has none; other commands keep theirs.
pub proof fn law_register_then_lookup(
    before: ProgrammableCompletor,
    registered: ProgrammableCompletor,
    removed: ProgrammableCompletor,
    command: Seq<char>,
    path: Seq<char>,
    other: Seq<char>,
)
    requires
        registered.completions() == before.completions().insert(command, path),
        removed.completions() == registered.completions().remove(command),
    ensures
        registered.completions().contains_key(command),
        registered.completions()[command] == path,
        !removed.completions().contains_key(command),
        other != command ==> removed.completions().contains_key(other) == before.completions().contains_key(other),
        other != command && before.completions().contains_key(other) ==> removed.completions()[other]
            == before.completions()[other],
{
}

/// The candidates that a completion program printed: each non-empty line of `output`,
/// trimmed.
pub fn parse_candidates(output: &str) -> (r: Vec<String>)
    ensures
        views(r@) == candidates_of(output@),
{
    let lines = split_on(output, '\n');
    let ghost ls = split_char(output@, '\n');
    let ghost pred = |l: Seq<char>| l.len() > 0;
    let ghost f = |l: Seq<char>| trim(l);
    let mut r: Vec<String> = Vec::new();
    let mut i: usize = 0;
    proof {
        assert(ls.take(0) == Seq::<Seq<char>>::empty());
        assert(ls.take(0).filter(pred) == Seq::<Seq<char>>::empty()) by {
            reveal_with_fuel(Seq::filter, 1);
        }
    }
    while i < lines.len()
        invariant
            views(lines@) == ls,
            ls == split_char(output@, '\n'),
            pred == (|l: Seq<char>| l.len() > 0),
            f == (|l: Seq<char>| trim(l)),
            i <= lines@.len(),
            views(r@) == ls.take(i as int).filter(pred).map_values(f),
        decreases lines@.len() - i,
    {
        let ghost prev = views(r@);
        proof {
            assert(ls.take(i + 1) == ls.take(i as int).push(ls[i as int]));
            ls.take(i as int).lemma_filter_push(ls[i as int], pred);
            assert(pred(ls[i as int]) == (ls[i as int].len() > 0));
            assert(ls.take(i + 1).filter(pred) == if pred(ls[i as int]) {
                ls.take(i as int).filter(pred).push(ls[i as int])
            } else {
                ls.take(i as int).filter(pred)
            });
        }
        assert(lines@[i as int]@ == ls[i as int]);
        if !lines[i].as_str().is_empty() {
            let t = trimmed_string(lines[i].as_str());
            r.push(t);
            assert(views(r@) == prev.push(trim(ls[i as int])));
            assert(ls.take(i + 1).filter(pred) == ls.take(i as int).filter(pred).push(ls[i as int]));
        } else {
            assert(ls.take(i + 1).filter(pred) == ls.take(i as int).filter(pred));
        }
        i += 1;
    }
    assert(ls.take(lines@.len() as int) == ls);
    r
}

/// The programs after registering `regs` in order on a completor with none.
pub open spec fn registered(regs: Seq<(Seq<char>, Seq<char>)>) -> Map<Seq<char>, Seq<char>>
    decreases regs.len(),
{
    if regs.len() == 0 {
        Map::empty()
    } else {
        registered(regs.drop_last()).insert(regs.last().0, regs.last().1)
    }
}

/// A completor reached from the empty one by the registrations `regs` holds
/// `registered(regs)`.
proof fn lemma_states_registered(states: Seq<ProgrammableCompletor>, regs: Seq<(Seq<char>, Seq<char>)>)
    requires
        states.len() == regs.len() + 1,
        states[0].completions() == Map::<Seq<char>, Seq<char>>::empty(),
        forall|i: int| 0 <= i < regs.len() ==> #[trigger] states[i + 1].completions() == states[i].completions().insert(
            regs[i].0,
            regs[i].1,
        ),
    ensures
        states.last().completions() == registered(regs),
    decreases regs.len(),
{
    let n: int = regs.len() as int;
    if n > 0 {
        let sub = states.drop_last();
        let rs = regs.drop_last();
        assert forall|i: int| 0 <= i < rs.len() implies #[trigger] sub[i + 1].completions() == sub[i].completions().insert(
            rs[i].0,
            rs[i].1,
        ) by {
            assert(sub[i + 1] == states[i + 1]);
            assert(sub[i] == states[i]);
            assert(rs[i] == regs[i]);
        }
        lemma_states_registered(sub, rs);
        let k = n - 1;
        assert(states[k + 1].completions() == states[k].completions().insert(regs[k].0, regs[k].1));
        assert(sub.last() == states[k]);
        assert(states.last() == states[k + 1]);
    }
}

/// In `registered(regs)`, a command has a program exactly when some registration
/// named it, and the program is that of the last registration naming it.
proof fn lemma_registered_lookup(regs: Seq<(Seq<char>, Seq<char>)>, command: Seq<char>)
    ensures
        registered(regs).contains_key(command) <==> exists|i: int| 0 <= i < regs.len() && #[trigger] regs[i].0 == command,
        forall|i: int|
            0 <= i < regs.len() && #[trigger] regs[i].0 == command && (forall|j: int| i < j < regs.len() ==> #[trigger] regs[j].0
                != command) ==> registered(regs)[command] == regs[i].1,
    decreases regs.len(),
{
    let n: int = regs.len() as int;
    if n > 0 {
        let rs = regs.drop_last();
        lemma_registered_lookup(rs, command);
        let m = registered(regs);
        let k = n - 1;
        if regs[k].0 == command {
            assert(m.contains_key(command));
            assert forall|i: int|
                0 <= i < regs.len() && #[trigger] regs[i].0 == command && (forall|j: int| i < j < regs.len() ==> #[trigger] regs[j].0
                    != command) implies m[command] == regs[i].1 by {
                if i < k {
                    assert(regs[k].0 != command);
                }
            }
        } else {
            if exists|i: int| 0 <= i < regs.len() && #[trigger] regs[i].0 == command {
                let i = choose|i: int| 0 <= i < regs.len() && #[trigger] regs[i].0 == command;
                assert(rs[i] == regs[i]);
            }
            if exists|i: int| 0 <= i < rs.len() && #[trigger] rs[i].0 == command {
                let i = choose|i: int| 0 <= i < rs.len() && #[trigger] rs[i].0 == command;
                assert(regs[i] == rs[i]);
            }
            assert forall|i: int|
                0 <= i < regs.len() && #[trigger] regs[i].0 == command && (forall|j: int| i < j < regs.len() ==> #[trigger] regs[j].0
                    != command) implies m[command] == regs[i].1 by {
                assert(rs[i] == regs[i]);
                assert forall|j: int| i < j < rs.len() implies #[trigger] rs[j].0 != command by {
                    assert(rs[j] == regs[j]);
                }
            }
        }
    }
}

/// After registering `regs` one by one on a completor with none, a command has a
/// program exactly when some registration named it, and its program is the path of
/// the last registration that named it. (`states[0]` is the empty completor and
/// `states[i + 1]` the completor after registering `regs[i]`, as `new` and
/// `register_completion` state them; `get_completion_info` reads this map.)
pub proof fn law_lookup_gives_last_registration(
    states: Seq<ProgrammableCompletor>,
    regs: Seq<(Seq<char>, Seq<char>)>,
    command: Seq<char>,
)
    requires
        states.len() == regs.len() + 1,
        states[0].completions() == Map::<Seq<char>, Seq<char>>::empty(),
        forall|i: int| 0 <= i < regs.len() ==> #[trigger] states[i + 1].completions() == states[i].completions().insert(
            regs[i].0,
            regs[i].1,
        ),
    ensures
        states.last().completions().contains_key(command) <==> exists|i: int| 0 <= i < regs.len() && #[trigger] regs[i].0
            == command,
        forall|i: int|
            0 <= i < regs.len() && #[trigger] regs[i].0 == command && (forall|j: int| i < j < regs.len() ==> #[trigger] regs[j].0
                != command) ==> states.last().completions()[command] == regs[i].1,
{
    lemma_states_registered(states, regs);
    lemma_registered_lookup(regs, command);
}

/// The arguments given to a completion program, read off a command line that holds a
/// space: the first is the text before the first space, the second the text after
/// the last space, and the third the text between the last two spaces, or empty when
/// the line holds a single space.
pub proof fn law_request_arguments_read_the_line(line: Seq<char>)
    requires
        line.contains(' '),
    ensures
        ({
            let a = request_arguments(split_char(line, ' '));
            let k = line.len() - a[1].len() - 1;
            &&& !a[0].contains(' ')
            &&& a[0].len() < line.len()
            &&& line.take(a[0].len() as int) == a[0]
            &&& line[a[0].len() as int] == ' '
            &&& !a[1].contains(' ')
            &&& 0 <= k
            &&& line[k] == ' '
            &&& line.skip(k + 1) == a[1]
            &&& line.take(k).contains(' ') ==> {
                &&& !a[2].contains(' ')
                &&& 0 <= k - a[2].len() - 1
                &&& line[k - a[2].len() - 1] == ' '
                &&& line.subrange(k - a[2].len(), k) == a[2]
            }
            &&& !line.take(k).contains(' ') ==> a[2] == Seq::<char>::empty()
        }),
{
    let w = split_char(line, ' ');
    let a = request_arguments(w);
    lemma_split_char_pieces(line, ' ');
    crate::text::lemma_split_char_first(line, ' ');
    crate::text::lemma_split_char_last_two(line, ' ');
    assert(a[0] == w[0]);
    assert(a[1] == w.last());
    assert(!a[0].contains(' '));
    if w.len() > 2 {
        assert(a[2] == w[w.len() - 2]);
    } else {
        assert(a[2] == Seq::<char>::empty());
    }
}

} // verus!
