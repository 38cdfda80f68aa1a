//! The builtin commands of the shell and how a command line is dispatched.

use vstd::prelude::*;
use vstd::std_specs::iter::IteratorSpec;
use unescape::unescape;
use crate::text::{views, join, join_all, join_range, str_eq, contains_char, chars_of, string_of, string_of_range,
    starts_with, is_prefix,
    decimal, decimal_string, parsed_usize, parse_usize, push_char};
use crate::parser::{Redirection, extract_redirection, is_operator, is_first_operator, redirection_for};
use crate::declare::DeclaredVariables;
use crate::jobs::{Job, Jobs, Status, is_job_listing, job_listing};
use crate::output::Output;
use crate::fs_utils::FSUtils;
use crate::program_completion::ProgrammableCompletor;

verus! {

broadcast use vstd::string::group_string_axioms;

/// What `unescape::unescape` returns for a text: the text with its backslash escapes
/// resolved, or `None` when an escape is malformed.
pub uninterp spec fn unescaped(s: Seq<char>) -> Option<Seq<char>>;

/// `unescape::unescape`: resolves backslash escapes. Its answer is named
/// `unescaped`; a text without a backslash comes back unchanged.
#[verifier::external_body]
fn unescape_text(s: &str) -> (r: Option<String>)
    ensures
        unescaped(s@) == option_view(r),
        !s@.contains('\u{5c}') ==> option_view(r) == Some(s@),
{
    unescape(s)
}

/// The view of an optional string.
pub open spec fn option_view(o: Option<String>) -> Option<Seq<char>> {
    match o {
        Some(s) => Some(s@),
        None => None,
    }
}

/// The names of the builtin commands.
pub open spec fn builtin_names() -> Seq<Seq<char>> {
    seq!["echo"@, "exit"@, "type"@, "pwd"@, "cd"@, "history"@, "jobs"@, "complete"@, "declare"@]
}

/// The names of the builtin commands.
pub fn builtin_commands() -> (r: Vec<String>)
    ensures
        views(r@) == builtin_names(),
{
    let mut r: Vec<String> = Vec::new();
    r.push(String::from_str("echo"));
    r.push(String::from_str("exit"));
    r.push(String::from_str("type"));
    r.push(String::from_str("pwd"));
    r.push(String::from_str("cd"));
    r.push(String::from_str("history"));
    r.push(String::from_str("jobs"));
    r.push(String::from_str("complete"));
    r.push(String::from_str("declare"));
    assert(views(r@) == builtin_names());
    r
}

/// Whether `name` is a builtin command.
fn is_builtin(name: &String) -> (b: bool)
    ensures
        b == builtin_names().contains(name@),
{
    let names = builtin_commands();
    let mut i: usize = 0;
    while i < names.len()
        invariant
            views(names@) == builtin_names(),
            i <= names@.len(),
            forall|k: int| 0 <= k < i ==> builtin_names()[k] != name@,
        decreases names@.len() - i,
    {
        if str_eq(names[i].as_str(), name.as_str()) {
            assert(builtin_names()[i as int] == name@);
            return true;
        }
        i += 1;
    }
    false
}

/// The texts of `words` that unescape successfully, unescaped, in order.
pub open spec fn unescaped_words(words: Seq<Seq<char>>) -> Seq<Seq<char>>
    decreases words.len(),
{
    if words.len() == 0 {
        Seq::empty()
    } else {
        let rest = unescaped_words(words.drop_last());
        match unescaped(words.last()) {
            Some(t) => rest.push(t),
            None => rest,
        }
    }
}

/// The texts that unescaped successfully, in order.
pub open spec fn kept(results: Seq<Option<Seq<char>>>) -> Seq<Seq<char>>
    decreases results.len(),
{
    if results.len() == 0 {
        Seq::empty()
    } else {
        let rest = kept(results.drop_last());
        match results.last() {
            Some(t) => rest.push(t),
            None => rest,
        }
    }
}

/// The views of optional strings.
pub open spec fn option_views(v: Seq<Option<String>>) -> Seq<Option<Seq<char>>> {
    v.map_values(|o: Option<String>| match o {
        Some(s) => Some(s@),
        None => None,
    })
}

/// The line that `echo -e` prints from the unescaped arguments: those that unescaped
/// successfully, separated by spaces, and a newline.
pub fn join_unescaped(results: Vec<Option<String>>) -> (r: String)
    ensures
        r@ == join(kept(option_views(results@)), " "@) + "\n"@,
{
    let mut words: Vec<String> = Vec::new();
    let mut i: usize = 0;
    while i < results.len()
        invariant
            i <= results@.len(),
            views(words@) == kept(option_views(results@).take(i as int)),
        decreases results@.len() - i,
    {
        let ghost prev = views(words@);
        proof {
            assert(option_views(results@).take(i + 1).drop_last() == option_views(results@).take(i as int));
        }
        match &results[i] {
            Some(t) => {
                words.push(t.clone());
                assert(views(words@) == prev.push(t@));
            },
            None => {},
        }
        i += 1;
    }
    assert(option_views(results@).take(results@.len() as int) == option_views(results@));
    let mut r = join_all(&words, " ");
    r.append("\n");
    r
}

/// What `history` asks for: reading, writing or appending the history file at a
/// path, or showing the listing text.
pub enum HistoryRequest {
    Read(String),
    Write(String),
    Append(String),
    Show(String),
}

/// The listing lines of the entries from `from` to `to`: a tab, the entry's number
/// counted from 1, a space, the entry and a newline.
pub open spec fn history_text(entries: Seq<Seq<char>>, from: int, to: int) -> Seq<char>
    decreases to - from,
{
    if to <= from {
        Seq::empty()
    } else {
        history_text(entries, from, to - 1) + seq!['\t'] + decimal(to as nat) + seq![' '] + entries[to - 1]
            + seq!['\n']
    }
}

/// The entry from which `history` lists, given its arguments: all without an
/// argument, the last `n` for a number `n`, none for anything else.
pub open spec fn history_start(args: Seq<Seq<char>>, len: int) -> int {
    if args.len() == 0 {
        0
    } else {
        match parsed_usize(args[0]) {
            Some(n) => if n >= len { 0 } else { len - n },
            None => len,
        }
    }
}

/// The kind of a command, by its name.
pub enum CommandKind {
    Exit,
    Pwd,
    Echo,
    Type,
    Cd,
    History,
    Jobs,
    Complete,
    Declare,
    Background,
    External,
}

/// The kind of the command called `name` when it does not end in `&`: a builtin by
/// its name; `execute_background`, the name under which the dispatch files background
/// commands, runs in the background; any other name is an external program.
pub open spec fn kind_for(name: Seq<char>) -> CommandKind {
    if name == "exit"@ {
        CommandKind::Exit
    } else if name == "pwd"@ {
        CommandKind::Pwd
    } else if name == "echo"@ {
        CommandKind::Echo
    } else if name == "type"@ {
        CommandKind::Type
    } else if name == "cd"@ {
        CommandKind::Cd
    } else if name == "history"@ {
        CommandKind::History
    } else if name == "jobs"@ {
        CommandKind::Jobs
    } else if name == "complete"@ {
        CommandKind::Complete
    } else if name == "declare"@ {
        CommandKind::Declare
    } else if name == "execute_background"@ {
        CommandKind::Background
    } else {
        CommandKind::External
    }
}

/// How to run one command of a pipeline: its arguments (the command first), its
/// redirection, its kind, and the text added to the history.
pub struct CommandPlan {
    pub arguments: Vec<String>,
    pub redirection: Redirection,
    pub kind: CommandKind,
    pub history_entry: String,
}

/// The arguments of `args` before the first redirection operator.
pub open spec fn command_words(args: Seq<Seq<char>>) -> Seq<Seq<char>> {
    if exists|i: int| is_first_operator(args, i) {
        args.take(choose|i: int| is_first_operator(args, i))
    } else {
        args
    }
}

/// The kind of command `name`.
fn kind_of_name(name: &String) -> (k: CommandKind)
    ensures
        k == kind_for(name@),
{
    let s = name.as_str();
    if str_eq(s, "exit") {
        CommandKind::Exit
    } else if str_eq(s, "pwd") {
        CommandKind::Pwd
    } else if str_eq(s, "echo") {
        CommandKind::Echo
    } else if str_eq(s, "type") {
        CommandKind::Type
    } else if str_eq(s, "cd") {
        CommandKind::Cd
    } else if str_eq(s, "history") {
        CommandKind::History
    } else if str_eq(s, "jobs") {
        CommandKind::Jobs
    } else if str_eq(s, "complete") {
        CommandKind::Complete
    } else if str_eq(s, "declare") {
        CommandKind::Declare
    } else if str_eq(s, "execute_background") {
        CommandKind::Background
    } else {
        CommandKind::External
    }
}

/// How to run the command `comm` (see `CommandPlan`): its redirection is taken off;
/// a last argument `&` is dropped and the command goes to the background; otherwise
/// the kind follows the command's name. The history entry is the remaining arguments
/// joined by spaces.
pub fn plan_command(comm: &Vec<String>) -> (p: CommandPlan)
    requires
        comm@.len() > 0,
        !is_operator(comm@[0]@),
    ensures
        ({
            let c = command_words(views(comm@));
            &&& c.len() > 0
            &&& c.last() == "&"@ ==> views(p.arguments@) == c.drop_last() && p.kind == CommandKind::Background
            &&& c.last() != "&"@ ==> views(p.arguments@) == c && p.kind == kind_for(c[0])
            &&& p.history_entry@ == join(views(p.arguments@), " "@)
        }),
        (forall|j: int| 0 <= j < comm@.len() ==> !is_operator(#[trigger] comm@[j]@)) ==> p.redirection is Standart,
        forall|i: int|
            is_first_operator(views(comm@), i) ==> redirection_for(
                p.redirection,
                comm@[i]@,
                join(views(comm@.skip(i + 1)), Seq::empty()),
            ),
{
    let (mut command_and_args, redirection) = extract_redirection(comm);
    proof {
        let ws = views(comm@);
        if exists|i: int| is_first_operator(ws, i) {
            let i = choose|i: int| is_first_operator(ws, i);
            assert(i != 0) by {
                assert(ws[0] == comm@[0]@);
            }
            assert(views(command_and_args@) == command_words(ws));
            assert(views(command_and_args@).len() > 0);
        } else {
            assert forall|j: int| 0 <= j < comm@.len() implies !is_operator(#[trigger] comm@[j]@) by {
                if is_operator(comm@[j]@) {
                    assert(ws[j] == comm@[j]@);
                    crate::parser::lemma_first_operator_exists(ws, j);
                }
            }
            assert(views(command_and_args@) == ws);
            assert(views(command_and_args@).len() > 0);
        }
    }
    let n = command_and_args.len();
    let ghost c = views(command_and_args@);
    if str_eq(command_and_args[n - 1].as_str(), "&") {
        command_and_args.pop();
        assert(views(command_and_args@) == c.drop_last());
        let entry = join_all(&command_and_args, " ");
        CommandPlan { arguments: command_and_args, redirection, kind: CommandKind::Background, history_entry: entry }
    } else {
        let kind = kind_of_name(&command_and_args[0]);
        let entry = join_all(&command_and_args, " ");
        CommandPlan { arguments: command_and_args, redirection, kind, history_entry: entry }
    }
}

/// The message for a command that is not found: `<name>: command not found`.
pub fn command_not_found(name: &String) -> (r: String)
    ensures
        r@ == name@ + ": command not found\n"@,
{
    let mut r = name.clone();
    r.append(": command not found\n");
    r
}

/// The message when the history file at `path` cannot be read.
pub fn history_read_error(path: &String) -> (r: String)
    ensures
        r@ == "history: cannot read history file '"@ + path@ + "': No such file or directory\n"@,
{
    let mut r = String::from_str("history: cannot read history file '");
    r.append(path.as_str());
    r.append("': No such file or directory\n");
    r
}

/// The line that the line editor writes at the head of every history file it saves.
pub open spec fn history_header() -> Seq<char> {
    seq!['#', 'V', '2', '\n']
}

/// The text of a history file as the shell keeps it: the line editor's header taken
/// off the front, when it is there.
pub fn without_history_header(content: &str) -> (r: String)
    ensures
        is_prefix(history_header(), content@) ==> r@ == content@.skip(4),
        !is_prefix(history_header(), content@) ==> r@ == content@,
{
    proof {
        reveal_strlit("#V2\n");
        assert("#V2\n"@ == history_header());
    }
    let cs = chars_of(content);
    if starts_with(content, "#V2\n") {
        string_of_range(&cs, 4, cs.len())
    } else {
        string_of(&cs)
    }
}

/// The text of a history file as the line editor reads it: the header in front.
pub fn with_history_header(content: &str) -> (r: String)
    ensures
        r@ == history_header() + content@,
{
    proof {
        reveal_strlit("#V2\n");
    }
    let mut r = String::from_str("#V2\n");
    r.append(content);
    r
}

/// The directory that `cd` goes to: the home directory for `~`, otherwise the path.
pub fn cd_destination(path: &String, home: &String) -> (r: String)
    ensures
        path@ == "~"@ ==> r@ == home@,
        path@ != "~"@ ==> r@ == path@,
{
    if str_eq(path.as_str(), "~") {
        home.clone()
    } else {
        path.clone()
    }
}

/// The shell's state: the background jobs and the declared variables, with the
/// redirection of the command being run.
pub struct ShellCommand {
    pub fs_utils: FSUtils,
    output: Output,
    pub redirection: Redirection,
    jobs_list: Jobs,
    declared_variables: DeclaredVariables,
}

impl ShellCommand {
    /// The background jobs by number.
    pub closed spec fn job_table(&self) -> Map<usize, Job> {
        self.jobs_list.jobs()
    }

    /// The declared variables, in declaration order.
    pub closed spec fn variables(&self) -> Seq<(Seq<char>, Seq<char>)> {
        self.declared_variables.pairs()
    }

    /// The walk over the job numbers of the job table (see `Jobs::key_walk`).
    pub closed spec fn job_walk(&self) -> std::collections::hash_map::Keys<'_, usize, Job> {
        self.jobs_list.key_walk()
    }

    /// The redirection of the command being run.
    pub closed spec fn current_redirection(&self) -> Redirection {
        self.redirection
    }

    /// The value of each declared variable.
    pub closed spec fn variable_map(&self) -> Map<Seq<char>, Seq<char>> {
        self.declared_variables.vars()
    }

    /// A shell with no job and no variable, whose output is not redirected.
    pub fn new() -> (s: ShellCommand)
        ensures
            s.job_table() == Map::<usize, Job>::empty(),
            s.variables() == Seq::<(Seq<char>, Seq<char>)>::empty(),
            s.variable_map() == Map::<Seq<char>, Seq<char>>::empty(),
            s.current_redirection() is Standart,
    {
        let utils = FSUtils::new();
        let output = Output::new();
        let jobs = Jobs::new();
        ShellCommand {
            fs_utils: utils,
            output,
            redirection: Redirection::Standart,
            jobs_list: jobs,
            declared_variables: DeclaredVariables::new(),
        }
    }

    /// The output router.
    pub fn output(&self) -> &Output {
        &self.output
    }

    /// The background jobs.
    pub fn jobs_list(&self) -> (r: &Jobs)
        ensures
            r.jobs() == self.job_table(),
            r.key_walk() == self.job_walk(),
    {
        &self.jobs_list
    }

    /// The declared variables.
    pub fn declared_variables(&self) -> (r: &DeclaredVariables)
        ensures
            r.pairs() == self.variables(),
            r.vars() == self.variable_map(),
    {
        &self.declared_variables
    }

    /// `echo`: the arguments separated by spaces and a newline; with `-e` first, the
    /// other arguments with their escapes resolved (those that fail to unescape are
    /// left out).
    pub fn echo(&self, input: Vec<String>) -> (r: (Option<String>, Option<String>))
        requires
            input@.len() > 0,
        ensures
            r.1 is None,
            input@[0]@ == "-e"@ ==> (r.0 matches Some(t) && t@ == join(unescaped_words(views(input@).skip(1)), " "@)
                + "\n"@),
            input@[0]@ != "-e"@ ==> (r.0 matches Some(t) && t@ == join(views(input@), " "@) + "\n"@),
            input@[0]@ == "-e"@ && (forall|i: int| 1 <= i < input@.len() ==> !(#[trigger] input@[i])@.contains('\u{5c}'))
                ==> (r.0 matches Some(t) && t@ == join(views(input@).skip(1), " "@) + "\n"@),
    {
        if str_eq(input[0].as_str(), "-e") {
            let mut results: Vec<Option<String>> = Vec::new();
            let mut i: usize = 1;
            let ghost ws = views(input@).skip(1);
            proof {
                assert(ws.take(0) == Seq::<Seq<char>>::empty());
                assert(option_views(results@) == Seq::<Option<Seq<char>>>::empty());
            }
            while i < input.len()
                invariant
                    1 <= i <= input@.len(),
                    ws == views(input@).skip(1),
                    kept(option_views(results@)) == unescaped_words(ws.take(i - 1)),
                    (forall|k: int| 1 <= k < i ==> !(#[trigger] input@[k])@.contains('\u{5c}'))
                        ==> unescaped_words(ws.take(i - 1)) == ws.take(i - 1),
                decreases input@.len() - i,
            {
                let u = unescape_text(input[i].as_str());
                let ghost prev = option_views(results@);
                let ghost o = option_view(u);
                results.push(u);
                proof {
                    assert(option_views(results@) == prev.push(o));
                    assert(option_views(results@).drop_last() == prev);
                    assert(ws.take(i as int).drop_last() == ws.take(i - 1));
                    assert(ws.take(i as int).last() == input@[i as int]@);
                    if forall|k: int| 1 <= k < i + 1 ==> !(#[trigger] input@[k])@.contains('\u{5c}') {
                        assert(!input@[i as int]@.contains('\u{5c}'));
                        assert(ws.take(i as int) == ws.take(i - 1).push(input@[i as int]@));
                    }
                }
                i += 1;
            }
            assert(ws.take(input@.len() - 1) == ws);
            let text = join_unescaped(results);
            return (Some(text), None);
        }
        let mut text = join_all(&input, " ");
        text.append("\n");
        (Some(text), None)
    }

    /// `type`: a builtin is reported as such; otherwise where the executable was found
    /// (`location`, the result of the PATH search), or that it was not found.
    pub fn type_(&self, input: &String, location: Option<String>) -> (r: (Option<String>, Option<String>))
        ensures
            builtin_names().contains(input@) ==> r.1 is None && (r.0 matches Some(t) && t@ == input@
                + " is a shell builtin\n"@),
            !builtin_names().contains(input@) ==> match location {
                Some(f) => r.1 is None && (r.0 matches Some(t) && t@ == input@ + " is "@ + f@ + "\n"@),
                None => r.0 is None && (r.1 matches Some(t) && t@ == input@ + " not found\n"@),
            },
    {
        if is_builtin(input) {
            let mut result = input.clone();
            result.append(" is a shell builtin\n");
            return (Some(result), None);
        }
        match location {
            Some(file_name) => {
                let mut result = input.clone();
                result.append(" is ");
                result.append(file_name.as_str());
                result.append("\n");
                (Some(result), None)
            },
            None => {
                let mut result = input.clone();
                result.append(" not found\n");
                (None, Some(result))
            },
        }
    }

    /// Records a command started in the background as the next job and reports
    /// `[number] pid`; `pid` is `None` when the executable was not found, which is
    /// reported instead.
    pub fn execute_in_background(&mut self, input: &String, arguments: Vec<String>, pid: Option<u32>) -> (r: (
        Option<String>,
        Option<String>,
    ))
        ensures
            pid is None ==> final(self).job_table() == old(self).job_table() && r.0 is None && (r.1 matches Some(t)
                && t@ == input@ + ": command not found\n"@),
            pid matches Some(id) ==> {
                let n = (if old(self).job_table().dom().len() < usize::MAX {
                    (old(self).job_table().dom().len() + 1) as usize
                } else {
                    usize::MAX
                });
                &&& r.1 is None
                &&& r.0 matches Some(t) && t@ == seq!['['] + decimal(n as nat) + seq![']', ' '] + decimal(id as nat)
                    + seq!['\n']
                &&& final(self).job_table().dom() == old(self).job_table().dom().insert(n)
                &&& final(self).job_table()[n].number() == n
                &&& final(self).job_table()[n].pid() == id
                &&& final(self).job_table()[n].status() == Status::Running
                &&& final(self).job_table()[n].command() == input@ + seq![' '] + join(views(arguments@), seq![' '])
                &&& forall|k: usize| k != n && #[trigger] old(self).job_table().contains_key(k)
                    ==> final(self).job_table()[k] == old(self).job_table()[k]
            },
            final(self).variables() == old(self).variables(),
    {
        match pid {
            Some(command_id) => {
                let number = self.jobs_list.get_next_job_number();
                let mut result = String::new();
                push_char(&mut result, '[');
                result.append(decimal_string(number).as_str());
                push_char(&mut result, ']');
                push_char(&mut result, ' ');
                result.append(decimal_string(command_id as usize).as_str());
                push_char(&mut result, '\n');
                let job = Job::new(command_id, number, input.clone(), &arguments);
                self.jobs_list.add_job(job);
                (Some(result), None)
            },
            None => (None, Some(command_not_found(input))),
        }
    }

    /// `cd` after the target was looked up: an error when `desired_path` does not
    /// exist, nothing otherwise (the caller then changes directory).
    pub fn cd(&mut self, desired_path: &String, exists: bool) -> (r: (Option<String>, Option<String>))
        ensures
            exists ==> r.0 is None && r.1 is None,
            !exists ==> r.0 is None && (r.1 matches Some(t) && t@ == "cd: "@ + desired_path@
                + ": No such file or directory\n"@),
            final(self).job_table() == old(self).job_table(),
            final(self).variables() == old(self).variables(),
    {
        if !exists {
            let mut result = String::from_str("cd: ");
            result.append(desired_path.as_str());
            result.append(": No such file or directory\n");
            return (None, Some(result));
        }
        (None, None)
    }

    /// `history` with its arguments, given the entries of the line editor's history:
    /// `-r`, `-w` or `-a` with a path ask to read, write or append that file;
    /// otherwise the listing from `history_start` on.
    pub fn history(&self, args: Vec<String>, entries: &Vec<String>) -> (r: HistoryRequest)
        ensures
            args@.len() >= 2 && args@[0]@ == "-r"@ ==> (r matches HistoryRequest::Read(p) && p@ == args@[1]@),
            args@.len() >= 2 && args@[0]@ == "-w"@ ==> (r matches HistoryRequest::Write(p) && p@ == args@[1]@),
            args@.len() >= 2 && args@[0]@ == "-a"@ ==> (r matches HistoryRequest::Append(p) && p@ == args@[1]@),
            !(args@.len() >= 2 && (args@[0]@ == "-r"@ || args@[0]@ == "-w"@ || args@[0]@ == "-a"@)) ==> (r matches HistoryRequest::Show(t)
                && t@ == history_text(
                views(entries@),
                history_start(views(args@), entries@.len() as int),
                entries@.len() as int,
            )),
    {
        proof {
            reveal_strlit("-r");
            reveal_strlit("-w");
            reveal_strlit("-a");
            assert("-r"@ != "-w"@) by { assert("-r"@[1] != "-w"@[1]); }
            assert("-r"@ != "-a"@) by { assert("-r"@[1] != "-a"@[1]); }
            assert("-w"@ != "-a"@) by { assert("-w"@[1] != "-a"@[1]); }
        }
        if args.len() >= 2 {
            if str_eq(args[0].as_str(), "-r") {
                return HistoryRequest::Read(args[1].clone());
            }
            if str_eq(args[0].as_str(), "-w") {
                return HistoryRequest::Write(args[1].clone());
            }
            if str_eq(args[0].as_str(), "-a") {
                return HistoryRequest::Append(args[1].clone());
            }
        }
        let len = entries.len();
        let from: usize = if args.len() == 0 {
            0
        } else {
            match parse_usize(args[0].as_str()) {
                Some(n) => len.saturating_sub(n),
                None => len,
            }
        };
        let mut result = String::new();
        let mut i: usize = from;
        while i < len
            invariant
                len == entries@.len(),
                from <= i <= len,
                result@ == history_text(views(entries@), from as int, i as int),
            decreases len - i,
        {
            push_char(&mut result, '\t');
            result.append(decimal_string(i + 1).as_str());
            push_char(&mut result, ' ');
            result.append(entries[i].as_str());
            push_char(&mut result, '\n');
            i += 1;
        }
        HistoryRequest::Show(result)
    }

    /// `jobs`: the job listing, one line each, or nothing without jobs.
    pub fn jobs(&mut self) -> (r: (Option<String>, Option<String>))
        ensures
            final(self).job_table() == old(self).job_table(),
            final(self).job_walk() == old(self).job_walk(),
            final(self).variables() == old(self).variables(),
            r.1 is None,
            old(self).job_table().dom().len() == 0 ==> r.0 is None,
            old(self).job_table().dom().len() > 0 ==> (r.0 matches Some(t) && t@ == join(
                job_listing(old(self).job_table(), old(self).job_walk().remaining().unref()),
                seq!['\n'],
            ) + seq!['\n']),
            old(self).job_table().dom().len() > 0 ==> exists|lines: Seq<Seq<char>>| is_job_listing(old(self).job_table(), lines)
                && (r.0 matches Some(t) && t@ == join(lines, seq!['\n']) + seq!['\n']),
    {
        let all_jobs = self.jobs_list.get_all_jobs();
        if all_jobs.len() == 0 {
            proof {
                let ks = choose|ks: Seq<usize>| {
                    &&& ks.no_duplicates()
                    &&& ks.to_set() == self.job_table().dom()
                    &&& views(all_jobs@).len() == ks.len()
                    &&& forall|i: int| 0 <= i < ks.len() ==> #[trigger] views(all_jobs@)[i] == crate::jobs::job_line(self.job_table()[ks[i]], i, ks.len() as int)
                };
                assert(ks.len() == 0);
                assert(ks.to_set() == Set::<usize>::empty());
            }
            return (None, None);
        }
        let mut text = join_all(&all_jobs, "\n");
        proof {
            reveal_strlit("\n");
            assert("\n"@ == seq!['\n']);
        }
        push_char(&mut text, '\n');
        assert(is_job_listing(self.job_table(), views(all_jobs@)));
        proof {
            let ks = choose|ks: Seq<usize>| {
                &&& ks.no_duplicates()
                &&& ks.to_set() == self.job_table().dom()
                &&& views(all_jobs@).len() == ks.len()
                &&& forall|i: int| 0 <= i < ks.len() ==> #[trigger] views(all_jobs@)[i] == crate::jobs::job_line(self.job_table()[ks[i]], i, ks.len() as int)
            };
            assert(ks.to_set().contains(ks[0]));
            assert(self.job_table().dom().contains(ks[0]));
            assert(self.job_table().dom().len() > 0);
        }
        (Some(text), None)
    }

    /// `complete`: `-p <command>` shows the registered program, `-C <program>
    /// <command>` registers one, `-r <command>` removes it; fewer than two arguments
    /// are an error.
    pub fn complete(&self, arguments: Vec<String>, prog_completer: &mut ProgrammableCompletor) -> (r: (
        Option<String>,
        Option<String>,
    ))
        requires
            arguments@.len() >= 2 && arguments@[0]@ == "-C"@ ==> arguments@.len() >= 3,
        ensures
            arguments@.len() < 2 ==> r.0 is None && (r.1 matches Some(t) && t@ == "No command specified\n"@)
                && final(prog_completer).completions() == old(prog_completer).completions(),
            arguments@.len() >= 2 && arguments@[0]@ == "-p"@ ==> final(prog_completer).completions() == old(
                prog_completer,
            ).completions() && (if old(prog_completer).completions().contains_key(arguments@[1]@) {
                r.1 is None && (r.0 matches Some(t) && t@ == "complete -C '"@ + old(prog_completer).completions()[arguments@[1]@]
                    + "' "@ + arguments@[1]@ + "\n"@)
            } else {
                r.0 is None && (r.1 matches Some(t) && t@ == "complete: "@ + arguments@[1]@
                    + ": no completion specification\n"@)
            }),
            arguments@.len() >= 2 && arguments@[0]@ == "-C"@ ==> r.0 is None && r.1 is None
                && final(prog_completer).completions() == old(prog_completer).completions().insert(arguments@[2]@, arguments@[1]@),
            arguments@.len() >= 2 && arguments@[0]@ == "-r"@ ==> r.0 is None && r.1 is None
                && final(prog_completer).completions() == old(prog_completer).completions().remove(arguments@[1]@),
            arguments@.len() >= 2 && arguments@[0]@ != "-p"@ && arguments@[0]@ != "-C"@ && arguments@[0]@ != "-r"@
                ==> r.0 is None && r.1 is None && final(prog_completer).completions() == old(prog_completer).completions(),
    {
        proof {
            reveal_strlit("-p");
            reveal_strlit("-C");
            reveal_strlit("-r");
            assert("-p"@ != "-C"@) by { assert("-p"@[1] != "-C"@[1]); }
            assert("-p"@ != "-r"@) by { assert("-p"@[1] != "-r"@[1]); }
            assert("-C"@ != "-r"@) by { assert("-C"@[1] != "-r"@[1]); }
        }
        if arguments.len() < 2 {
            return (None, Some(String::from_str("No command specified\n")));
        }
        if str_eq(arguments[0].as_str(), "-p") {
            let completion = prog_completer.get_completion_info(&arguments[1]);
            match completion {
                Some(comp) => {
                    let mut res = String::from_str("complete -C '");
                    res.append(comp.as_str());
                    res.append("' ");
                    res.append(arguments[1].as_str());
                    res.append("\n");
                    return (Some(res), None);
                },
                None => {
                    let mut res = String::from_str("complete: ");
                    res.append(arguments[1].as_str());
                    res.append(": no completion specification\n");
                    return (None, Some(res));
                },
            }
        }
        if str_eq(arguments[0].as_str(), "-C") {
            prog_completer.register_completion(arguments[2].clone(), arguments[1].clone());
        }
        if str_eq(arguments[0].as_str(), "-r") {
            prog_completer.remove_completion(arguments[1].clone());
        }
        (None, None)
    }

    /// `declare`: `declare -p <name>` shows a variable, `declare <name>=<value>` sets
    /// one (the name ends at the first `=`); fewer than two arguments are an error.
    pub fn declare(&mut self, arguments: &Vec<String>) -> (r: (Option<String>, Option<String>))
        requires
            arguments@.len() >= 2 && arguments@[1]@ == "-p"@ ==> arguments@.len() >= 3,
        ensures
            final(self).job_table() == old(self).job_table(),
            arguments@.len() < 2 ==> r.0 is None && (r.1 matches Some(t) && t@ == "No command specified\n"@)
                && final(self).variables() == old(self).variables(),
            arguments@.len() >= 2 && arguments@[1]@ == "-p"@ ==> final(self).variables() == old(self).variables()
                && final(self).variable_map() == old(self).variable_map() && ({
                let name = arguments@[2]@;
                let vars = old(self).variable_map();
                if vars.contains_key(name) {
                    r.1 is None && (r.0 matches Some(t) && t@ == "declare -- "@ + name + "=\""@ + vars[name] + "\"\n"@)
                } else {
                    r.0 is None && (r.1 matches Some(t) && t@ == "declare: "@ + name + ": not found\n"@)
                }
            }),
            arguments@.len() >= 2 && arguments@[1]@ != "-p"@ && !arguments@[1]@.contains('=') ==> r.0 is None && r.1 is None
                && final(self).variables() == old(self).variables(),
            arguments@.len() >= 2 && arguments@[1]@ != "-p"@ && arguments@[1]@.contains('=') ==> r.0 is None && r.1 is None
                && exists|k: int| {
                &&& 0 <= k < arguments@[1]@.len()
                &&& arguments@[1]@[k] == '='
                &&& forall|m: int| 0 <= m < k ==> #[trigger] arguments@[1]@[m] != '='
                &&& final(self).variable_map() == old(self).variable_map().insert(
                    arguments@[1]@.take(k),
                    arguments@[1]@.skip(k + 1),
                )
            },
    {
        if arguments.len() < 2 {
            return (None, Some(String::from_str("No command specified\n")));
        }
        if str_eq(arguments[1].as_str(), "-p") {
            let command = arguments[2].clone();
            let description = self.declared_variables.get(&arguments[2]);
            return match description {
                Some(description) => {
                    let mut res = String::from_str("declare -- ");
                    res.append(command.as_str());
                    res.append("=\"");
                    res.append(description.as_str());
                    res.append("\"\n");
                    (Some(res), None)
                },
                None => {
                    let mut res = String::from_str("declare: ");
                    res.append(command.as_str());
                    res.append(": not found\n");
                    (None, Some(res))
                },
            };
        }
        if contains_char(arguments[1].as_str(), '=') {
            let cs = chars_of(arguments[1].as_str());
            let mut k: usize = 0;
            while cs[k] != '='
                invariant
                    arguments@.len() >= 2,
                    cs@.len() == cs.len(),
                    cs@ == arguments@[1]@,
                    cs@.contains('='),
                    k < cs@.len(),
                    forall|m: int| 0 <= m < k ==> #[trigger] cs@[m] != '=',
                decreases cs@.len() - k,
            {
                k += 1;
                assert(k < cs@.len()) by {
                    let j = choose|j: int| 0 <= j < cs@.len() && cs@[j] == '=';
                    if j < k {
                        assert(cs@[j] != '=');
                    }
                }
            }
            let comm = string_of_range(&cs, 0, k);
            let description = string_of_range(&cs, k + 1, cs.len());
            assert(cs@.subrange(0, k as int) == cs@.take(k as int));
            assert(cs@.subrange(k + 1, cs@.len() as int) == cs@.skip(k + 1));
            self.declared_variables.register(comm, description);
        }
        (None, None)
    }
}

} // verus!
