//! Tab completion of command lines: builtin commands, executables on the PATH,
//! file names and programmable completions, with the state that successive tab
//! presses share.

use vstd::prelude::*;
use vstd::relations::sorted_by;
use prefix_tree_rs::Trie;
use crate::program_completion::ProgrammableCompletor;
use crate::text::{views, is_prefix, lex_le, lex_order, lemma_lex_total, lex_le_str, starts_with,
    chars_of, string_of_range, push_char, byte_len, utf8_len, split_char, split_on, join, join_all,
    contains_char, lemma_split_char_first, lemma_byte_len_concat, lemma_byte_len_space};

verus! {

broadcast use vstd::string::group_string_axioms, vstd::seq_lib::group_to_multiset_ensures;

#[verifier::external_type_specification]
#[verifier::external_body]
pub struct ExTrie(Trie);

/// The words inserted into a `prefix_tree_rs::Trie`.
pub uninterp spec fn trie_words(t: Trie) -> Set<Seq<char>>;

/// `Trie::new` from prefix_tree_rs: a trie that holds no word.
#[verifier::external_body]
fn trie_new() -> (t: Trie)
    ensures
        trie_words(t) == Set::<Seq<char>>::empty(),
{
    Trie::new()
}

/// `Trie::insert` from prefix_tree_rs: adds `word` to the words of the trie.
#[verifier::external_body]
fn trie_insert(t: &mut Trie, word: &str)
    ensures
        trie_words(*final(t)) == trie_words(*old(t)).insert(word@),
{
    t.insert(word)
}

/// `Trie::starts_with` from prefix_tree_rs: whether the path of `prefix` exists in the
/// trie, which holds for the empty prefix and for every prefix of an inserted word.
#[verifier::external_body]
fn trie_starts_with(t: &Trie, prefix: &str) -> (b: bool)
    ensures
        b == (prefix@.len() == 0 || exists|w: Seq<char>| #[trigger] trie_words(*t).contains(w) && is_prefix(prefix@, w)),
{
    t.starts_with(prefix)
}

/// A completion candidate: what the terminal shows and what replaces the word.
pub struct Candidate {
    pub display: String,
    pub replacement: String,
}

impl View for Candidate {
    type V = (Seq<char>, Seq<char>);

    open spec fn view(&self) -> (Seq<char>, Seq<char>) {
        (self.display@, self.replacement@)
    }
}

/// The answer to one completion request: where the replaced text starts (a byte
/// position in the line), the candidates, and what to write to the terminal.
pub struct Completion {
    pub start: usize,
    pub candidates: Vec<Candidate>,
    pub printed: String,
}

/// The candidate that shows and inserts `s`.
pub open spec fn pair(s: Seq<char>) -> (Seq<char>, Seq<char>) {
    (s, s)
}

/// The views of a sequence of candidates.
pub open spec fn candidate_views(v: Seq<Candidate>) -> Seq<(Seq<char>, Seq<char>)> {
    v.map_values(|c: Candidate| c@)
}

/// The terminal bell.
pub open spec fn bell() -> Seq<char> {
    seq!['\u{7}']
}

/// Some word of `words` starts with `p`, or `p` is empty (what a trie of `words`
/// answers to `starts_with(p)`).
pub open spec fn prefix_hit(words: Seq<Seq<char>>, p: Seq<char>) -> bool {
    p.len() == 0 || exists|i: int| 0 <= i < words.len() && is_prefix(p, #[trigger] words[i])
}

/// The first word of `words` that starts with `p`.
pub open spec fn first_with_prefix(words: Seq<Seq<char>>, p: Seq<char>) -> Option<Seq<char>>
    decreases words.len(),
{
    if words.len() == 0 {
        None
    } else if is_prefix(p, words[0]) {
        Some(words[0])
    } else {
        first_with_prefix(words.drop_first(), p)
    }
}

/// The words of `words` that start with `p`, sorted.
pub open spec fn sorted_matches(words: Seq<Seq<char>>, p: Seq<char>) -> Seq<Seq<char>> {
    words.filter(|w: Seq<char>| is_prefix(p, w)).sort_by(lex_order())
}

/// `p` is the longest common prefix of `words` (empty for no word).
pub open spec fn is_longest_common_prefix(words: Seq<Seq<char>>, p: Seq<char>) -> bool {
    &&& forall|i: int| 0 <= i < words.len() ==> is_prefix(p, #[trigger] words[i])
    &&& words.len() == 0 ==> p.len() == 0
    &&& words.len() > 0 ==> (p.len() == words[0].len() || exists|j: int|
        0 <= j < words.len() && !is_prefix(words[0].take(p.len() + 1 as int), #[trigger] words[j]))
}

/// The longest common prefix of `words`.
pub open spec fn longest_common_prefix(words: Seq<Seq<char>>) -> Seq<char> {
    choose|p: Seq<char>| is_longest_common_prefix(words, p)
}

/// Only one sequence is the longest common prefix of `words`.
pub proof fn lemma_longest_common_prefix_unique(words: Seq<Seq<char>>, p: Seq<char>, q: Seq<char>)
    requires
        is_longest_common_prefix(words, p),
        is_longest_common_prefix(words, q),
    ensures
        p == q,
{
    if words.len() > 0 {
        let w = words[0];
        assert(is_prefix(p, w) && is_prefix(q, w));
        if p.len() < q.len() {
            let j = choose|j: int| 0 <= j < words.len() && !is_prefix(w.take(p.len() + 1 as int), #[trigger] words[j]);
            assert(is_prefix(q, words[j]));
            assert(w.take(p.len() + 1 as int) == q.take(p.len() + 1 as int));
            assert(words[j].subrange(0, p.len() + 1 as int) == q.subrange(0, p.len() + 1 as int));
        } else if q.len() < p.len() {
            let j = choose|j: int| 0 <= j < words.len() && !is_prefix(w.take(q.len() + 1 as int), #[trigger] words[j]);
            assert(is_prefix(p, words[j]));
            assert(w.take(q.len() + 1 as int) == p.take(q.len() + 1 as int));
            assert(words[j].subrange(0, q.len() + 1 as int) == p.subrange(0, q.len() + 1 as int));
        } else {
            assert(p == w.subrange(0, p.len() as int));
            assert(q == w.subrange(0, q.len() as int));
        }
    }
}

/// What completing a command name answers, given the builtin commands, the
/// executables on the PATH, the line that an earlier ambiguous tab press left pending,
/// and the line: the candidates, what is written to the terminal, and the line left
/// pending afterwards. The replaced text always starts at 0.
pub open spec fn command_completion(
    builtins: Seq<Seq<char>>,
    paths: Seq<Seq<char>>,
    pending: Option<Seq<char>>,
    line: Seq<char>,
) -> (Seq<(Seq<char>, Seq<char>)>, Seq<char>, Option<Seq<char>>) {
    if prefix_hit(builtins, line) {
        match first_with_prefix(builtins, line) {
            Some(w) => (seq![pair(w.push(' '))], Seq::empty(), None),
            None => (Seq::empty(), Seq::empty(), None),
        }
    } else if prefix_hit(paths, line) {
        let m = sorted_matches(paths, line);
        if m.len() == 1 {
            (seq![pair(m[0].push(' '))], Seq::empty(), None)
        } else if m.len() > 1 {
            let p = longest_common_prefix(m);
            if byte_len(p) > byte_len(line) {
                (seq![pair(p)], Seq::empty(), pending)
            } else if pending is Some {
                (seq![pair(line)], seq!['\n'] + join(m, seq![' ', ' ']) + seq!['\n'], None)
            } else {
                (seq![pair(line)], bell(), Some(line))
            }
        } else {
            (Seq::empty(), Seq::empty(), None)
        }
    } else {
        (Seq::empty(), Seq::empty(), None)
    }
}

/// `first_with_prefix` finds the first word, in order, that starts with `p`.
proof fn lemma_first_with_prefix(words: Seq<Seq<char>>, p: Seq<char>, i: int)
    requires
        0 <= i < words.len(),
        is_prefix(p, words[i]),
        forall|j: int| 0 <= j < i ==> !is_prefix(p, #[trigger] words[j]),
    ensures
        first_with_prefix(words, p) == Some(words[i]),
    decreases i,
{
    if i > 0 {
        let t = words.drop_first();
        assert(!is_prefix(p, words[0]));
        assert(t[i - 1] == words[i]);
        assert forall|j: int| 0 <= j < i - 1 implies !is_prefix(p, #[trigger] t[j]) by {
            assert(t[j] == words[j + 1]);
        }
        lemma_first_with_prefix(t, p, i - 1);
    }
}

/// When some builtin command starts with the line, completion offers the first such
/// builtin (in the order of `builtins`) followed by a space, whatever the PATH
/// executables and the pending line are: nothing is printed and nothing stays
/// pending.
pub proof fn law_builtin_completion_comes_first(
    builtins: Seq<Seq<char>>,
    paths: Seq<Seq<char>>,
    pending: Option<Seq<char>>,
    line: Seq<char>,
    i: int,
)
    requires
        0 <= i < builtins.len(),
        is_prefix(line, builtins[i]),
        forall|j: int| 0 <= j < i ==> !is_prefix(line, #[trigger] builtins[j]),
    ensures
        command_completion(builtins, paths, pending, line) == (
            seq![(builtins[i].push(' '), builtins[i].push(' '))],
            Seq::<char>::empty(),
            None::<Seq<char>>,
        ),
{
    assert(prefix_hit(builtins, line));
    lemma_first_with_prefix(builtins, line, i);
}

/// A single proposed file name is offered at once, replacing text from the file name
/// completer's own start: a directory (ending in `/`) as it is, any other name
/// followed by a space. Nothing is printed and whether a tab press has rung is kept.
pub proof fn law_single_file_name_offered(rung: bool, line: Seq<char>, start: usize, names: Seq<Seq<char>>)
    requires
        names.len() == 1,
    ensures
        ({
            let f = if names[0].len() > 0 && names[0].last() == '/' { names[0] } else { names[0].push(' ') };
            file_completion(rung, line, start, names) == (start as int, seq![(f, f)], Seq::<char>::empty(), rung)
        }),
{
}

/// On an ambiguous command name (no builtin and several PATH executables start with
/// it, sharing no longer prefix), the first tab press rings the bell and leaves the
/// line pending, and a second tab press on the same line lists the matches and
/// clears it; both offer the line itself.
pub proof fn law_second_tab_lists_matches(builtins: Seq<Seq<char>>, paths: Seq<Seq<char>>, line: Seq<char>)
    requires
        !prefix_hit(builtins, line),
        sorted_matches(paths, line).len() > 1,
        byte_len(longest_common_prefix(sorted_matches(paths, line))) <= byte_len(line),
    ensures
        ({
            let first = command_completion(builtins, paths, None, line);
            let second = command_completion(builtins, paths, first.2, line);
            &&& first.0 == seq![pair(line)]
            &&& first.1 == bell()
            &&& first.2 == Some(line)
            &&& second.0 == seq![pair(line)]
            &&& second.1 == seq!['\n'] + join(sorted_matches(paths, line), seq![' ', ' ']) + seq!['\n']
            &&& second.2 is None
        }),
{
    let m = sorted_matches(paths, line);
    let pred = |w: Seq<char>| is_prefix(line, w);
    let f = paths.filter(pred);
    lemma_lex_total();
    f.lemma_sort_by_ensures(lex_order());
    assert(m.len() == f.len()) by {
        assert(f.to_multiset().len() == f.len());
        assert(m.to_multiset().len() == m.len());
    }
    assert(f.len() > 0);
    assert(f.contains(f[0]));
    let w = f[0];
    paths.lemma_filter_pred(pred, 0);
    assert(pred(w));
    paths.lemma_filter_contains_rev(pred, w);
    let i = choose|i: int| 0 <= i < paths.len() && paths[i] == w;
    assert(is_prefix(line, paths[i]));
    assert(prefix_hit(paths, line));
}

/// A file name candidate as offered: a space is added unless it names a directory.
pub open spec fn finished_file_name(r: Seq<char>) -> Seq<char> {
    if r.len() > 0 && r.last() == '/' {
        r
    } else {
        r.push(' ')
    }
}

/// What completing a file name argument answers, given whether the previous tab press
/// already rang, the line, where the file name completer replaces text, and the file
/// names it proposes: the start, the candidates, what is written to the terminal and
/// whether a tab press has rung afterwards.
pub open spec fn file_completion(
    rung: bool,
    line: Seq<char>,
    start: usize,
    names: Seq<Seq<char>>,
) -> (int, Seq<(Seq<char>, Seq<char>)>, Seq<char>, bool) {
    let offered = names.map_values(|r: Seq<char>| finished_file_name(r));
    let w = split_char(line, ' ');
    if offered.len() == 1 {
        (start as int, seq![pair(offered[0])], Seq::empty(), rung)
    } else {
        let p = longest_common_prefix(offered);
        if byte_len(p) > byte_len(w[1]) {
            (byte_len(w[0]) + 1int, seq![pair(p)], Seq::empty(), rung)
        } else if !rung {
            (0, Seq::empty(), bell(), true)
        } else {
            (start as int, offered.map_values(|r: Seq<char>| pair(r)), Seq::empty(), true)
        }
    }
}

/// On ambiguous file names that share no longer prefix than the word typed, the
/// first tab press only rings the bell and a second one offers all names (replacing
/// from the completer's start); a single file name is always offered at once.
pub proof fn law_second_file_tab_lists_names(line: Seq<char>, start: usize, names: Seq<Seq<char>>)
    requires
        names.len() != 1,
        byte_len(longest_common_prefix(names.map_values(|r: Seq<char>| finished_file_name(r))))
            <= byte_len(split_char(line, ' ')[1]),
    ensures
        ({
            let first = file_completion(false, line, start, names);
            let second = file_completion(first.3, line, start, names);
            &&& first == (0int, Seq::<(Seq<char>, Seq<char>)>::empty(), bell(), true)
            &&& second.0 == start
            &&& second.1 == names.map_values(|r: Seq<char>| finished_file_name(r)).map_values(|r: Seq<char>| pair(r))
            &&& second.2 == Seq::<char>::empty()
        }),
        forall|rung: bool| #![auto] names.len() == 1 ==> file_completion(rung, line, start, names).1 == seq![
            pair(finished_file_name(names[0])),
        ],
{
}

/// The candidate that shows and inserts `s`.
fn make_candidate(s: String) -> (c: Candidate)
    ensures
        c@ == pair(s@),
{
    Candidate { display: s.clone(), replacement: s }
}

/// The candidate that shows and inserts `s` followed by a space.
fn make_pair(s: String) -> (c: Candidate)
    ensures
        c@ == pair(s@.push(' ')),
{
    let mut s = s;
    push_char(&mut s, ' ');
    make_candidate(s)
}

/// The string holding only the terminal bell.
fn bell_string() -> (s: String)
    ensures
        s@ == bell(),
{
    let mut s = String::new();
    push_char(&mut s, '\u{7}');
    s
}

/// Sorts strings in the order of `String` (code point order, character by character).
fn sort_strings(v: Vec<String>) -> (r: Vec<String>)
    ensures
        views(r@) == views(v@).sort_by(lex_order()),
{
    let mut r: Vec<String> = Vec::new();
    proof {
        lemma_lex_total();
    }
    let mut i: usize = 0;
    while i < v.len()
        invariant
            i <= v@.len(),
            vstd::relations::total_ordering(lex_order()),
            sorted_by(views(r@), lex_order()),
            views(r@).to_multiset() == views(v@).take(i as int).to_multiset(),
        decreases v@.len() - i,
    {
        let x = v[i].clone();
        let mut j: usize = 0;
        while j < r.len() && lex_le_str(r[j].as_str(), x.as_str())
            invariant
                j <= r@.len(),
                forall|k: int| 0 <= k < j ==> lex_le(#[trigger] r@[k]@, x@),
            decreases r@.len() - j,
        {
            j += 1;
        }
        let ghost old_r = views(r@);
        r.insert(j, x);
        proof {
            assert(views(r@) == old_r.insert(j as int, x@));
            vstd::seq_lib::to_multiset_insert(old_r, j as int, x@);
            assert(views(v@).take(i + 1) == views(v@).take(i as int).push(x@));
            vstd::seq_lib::to_multiset_build(views(v@).take(i as int), x@);
            assert forall|a: int, b: int| 0 <= a < b < r@.len() implies #[trigger] lex_order()(
                views(r@)[a],
                views(r@)[b],
            ) by {
                let s = views(r@);
                if b < j {
                    assert(s[a] == old_r[a] && s[b] == old_r[b]);
                } else if b == j {
                    assert(s[a] == old_r[a]);
                    assert(lex_le(r@[a]@, x@));
                } else if a == j {
                    assert(s[b] == old_r[b - 1]);
                    assert(!lex_le(old_r[j as int], x@));
                    assert(lex_order()(x@, old_r[j as int]) || lex_order()(old_r[j as int], x@));
                    if b - 1 > j {
                        assert(lex_order()(old_r[j as int], old_r[b - 1]));
                    }
                } else if a < j {
                    assert(s[a] == old_r[a] && s[b] == old_r[b - 1]);
                } else {
                    assert(s[a] == old_r[a - 1] && s[b] == old_r[b - 1]);
                }
            }
        }
        i += 1;
    }
    proof {
        assert(views(v@).take(v@.len() as int) == views(v@));
        views(v@).lemma_sort_by_ensures(lex_order());
        vstd::seq_lib::lemma_sorted_unique(views(r@), views(v@).sort_by(lex_order()), lex_order());
    }
    r
}

/// The longest common prefix of `words`, computed as the first word cut back until
/// every other word starts with it; empty when there is no word.
pub fn find_longest_common_prefix(words: &Vec<String>) -> (r: String)
    ensures
        is_longest_common_prefix(views(words@), r@),
{
    if words.len() == 0 {
        return String::new();
    }
    let w0 = chars_of(words[0].as_str());
    let ghost ws = views(words@);
    let mut plen: usize = w0.len();
    let mut i: usize = 1;
    proof {
        assert(w0@.take(plen as int) == w0@);
        assert(is_prefix(w0@, ws[0]));
    }
    while i < words.len()
        invariant
            ws == views(words@),
            w0@ == ws[0],
            1 <= i <= ws.len(),
            plen <= w0@.len(),
            forall|k: int| 0 <= k < i ==> is_prefix(w0@.take(plen as int), #[trigger] ws[k]),
            plen == w0@.len() || exists|j: int| 0 <= j < ws.len() && !is_prefix(w0@.take(plen + 1), #[trigger] ws[j]),
        decreases ws.len() - i,
    {
        let wi = chars_of(words[i].as_str());
        let ghost prev = plen;
        loop
            invariant
                ws == views(words@),
                w0@ == ws[0],
                1 <= i < ws.len(),
                wi@ == ws[i as int],
                plen <= prev <= w0@.len(),
                forall|k: int| 0 <= k < i ==> is_prefix(w0@.take(plen as int), #[trigger] ws[k]),
                plen == w0@.len() || exists|j: int| 0 <= j < ws.len() && !is_prefix(w0@.take(plen + 1), #[trigger] ws[j]),
            ensures
                plen <= w0@.len(),
                forall|k: int| 0 <= k <= i ==> is_prefix(w0@.take(plen as int), #[trigger] ws[k]),
                plen == w0@.len() || exists|j: int| 0 <= j < ws.len() && !is_prefix(w0@.take(plen + 1), #[trigger] ws[j]),
            decreases plen,
        {
            let mut ok = plen <= wi.len();
            let mut k: usize = 0;
            while ok && k < plen
                invariant
                    plen <= w0@.len(),
                    ok ==> plen <= wi@.len(),
                    plen == 0 ==> ok,
                    k <= plen,
                    ok ==> forall|m: int| 0 <= m < k ==> wi@[m] == w0@[m],
                    !ok ==> !is_prefix(w0@.take(plen as int), wi@),
                decreases plen - k,
            {
                if wi[k] != w0[k] {
                    ok = false;
                    assert(wi@.subrange(0, plen as int)[k as int] != w0@.take(plen as int)[k as int]);
                }
                k += 1;
            }
            if ok {
                assert(wi@.subrange(0, plen as int) == w0@.take(plen as int));
                break;
            }
            proof {
                assert(plen > 0);
                assert(w0@.take(plen as int) == w0@.take((plen - 1) + 1));
                assert forall|m: int| 0 <= m < i implies is_prefix(w0@.take(plen - 1), #[trigger] ws[m]) by {
                    assert(is_prefix(w0@.take(plen as int), ws[m]));
                    assert(ws[m].subrange(0, plen as int) == w0@.take(plen as int));
                    assert(ws[m].subrange(0, plen - 1) == ws[m].subrange(0, plen as int).subrange(0, plen - 1));
                    assert(w0@.take(plen - 1) == w0@.take(plen as int).subrange(0, plen - 1));
                }
            }
            plen = plen - 1;
            if plen == 0 {
                proof {
                    assert forall|m: int| 0 <= m < ws.len() implies is_prefix(Seq::<char>::empty(), #[trigger] ws[m]) by {
                        assert(ws[m].subrange(0, 0) == Seq::<char>::empty());
                    }
                    assert(w0@.take(0) == Seq::<char>::empty());
                }
                return String::new();
            }
        }
        i += 1;
    }
    let r = string_of_range(&w0, 0, plen);
    assert(r@ == w0@.take(plen as int));
    r
}

/// Tab completion state: the builtin commands and the executables on the PATH (each
/// also held in a prefix tree), the line of an ambiguous tab press that waits for a
/// second press, whether a file name tab press has rung, and the programmable
/// completions.
pub struct CommandLineHelper {
    builtin_prefix_tree: Trie,
    path_prefix_tree: Trie,
    builtin_command: Vec<String>,
    path_names: Vec<String>,
    last_prompt: Option<String>,
    first_tab: bool,
    programmable_completor: ProgrammableCompletor,
}

impl CommandLineHelper {
    /// The builtin command names.
    pub closed spec fn builtins(&self) -> Seq<Seq<char>> {
        views(self.builtin_command@)
    }

    /// The names of the executables on the PATH.
    pub closed spec fn paths(&self) -> Seq<Seq<char>> {
        views(self.path_names@)
    }

    /// The line of an ambiguous command completion that waits for a second tab press.
    pub closed spec fn pending(&self) -> Option<Seq<char>> {
        match self.last_prompt {
            Some(s) => Some(s@),
            None => None,
        }
    }

    /// A file name completion has rung since the state was last cleared.
    pub closed spec fn rung(&self) -> bool {
        self.first_tab
    }

    /// The programmable completions.
    pub closed spec fn completor(&self) -> ProgrammableCompletor {
        self.programmable_completor
    }

    /// The prefix trees hold exactly the builtin and PATH names.
    pub closed spec fn wf(&self) -> bool {
        &&& trie_words(self.builtin_prefix_tree) == self.builtins().to_set()
        &&& trie_words(self.path_prefix_tree) == self.paths().to_set()
    }

    /// Completion state for the given builtin commands and PATH executables, with
    /// nothing pending and no programmable completion.
    pub fn new(command: Vec<String>, path_executables: Vec<String>) -> (h: CommandLineHelper)
        ensures
            h.wf(),
            h.builtins() == views(command@),
            h.paths() == views(path_executables@),
            h.pending() is None,
            !h.rung(),
            h.completor().completions() == Map::<Seq<char>, Seq<char>>::empty(),
    {
        let mut trie = trie_new();
        let mut i: usize = 0;
        while i < command.len()
            invariant
                i <= command@.len(),
                trie_words(trie) == views(command@).take(i as int).to_set(),
            decreases command@.len() - i,
        {
            trie_insert(&mut trie, command[i].as_str());
            proof {
                assert(views(command@).take(i + 1) == views(command@).take(i as int).push(command@[i as int]@));
                views(command@).take(i as int).lemma_push_to_set_commute(command@[i as int]@);
            }
            i += 1;
        }
        assert(views(command@).take(command@.len() as int) == views(command@));
        let mut path_trie = trie_new();
        let mut i: usize = 0;
        while i < path_executables.len()
            invariant
                i <= path_executables@.len(),
                trie_words(path_trie) == views(path_executables@).take(i as int).to_set(),
            decreases path_executables@.len() - i,
        {
            trie_insert(&mut path_trie, path_executables[i].as_str());
            proof {
                assert(views(path_executables@).take(i + 1) == views(path_executables@).take(i as int).push(
                    path_executables@[i as int]@,
                ));
                views(path_executables@).take(i as int).lemma_push_to_set_commute(path_executables@[i as int]@);
            }
            i += 1;
        }
        assert(views(path_executables@).take(path_executables@.len() as int) == views(path_executables@));
        CommandLineHelper {
            builtin_prefix_tree: trie,
            path_prefix_tree: path_trie,
            builtin_command: command,
            path_names: path_executables,
            last_prompt: None,
            first_tab: false,
            programmable_completor: ProgrammableCompletor::new(),
        }
    }

    /// The programmable completions, to read.
    pub fn programmable_completor(&self) -> (r: &ProgrammableCompletor)
        ensures
            *r == self.completor(),
    {
        &self.programmable_completor
    }

    /// The programmable completions, to change; nothing else changes.
    pub fn programmable_completor_mut(&mut self) -> (r: &mut ProgrammableCompletor)
        ensures
            *r == old(self).completor(),
            final(self).completor() == *final(r),
            final(self).builtins() == old(self).builtins(),
            final(self).paths() == old(self).paths(),
            final(self).pending() == old(self).pending(),
            final(self).rung() == old(self).rung(),
            old(self).wf() ==> final(self).wf(),
    {
        &mut self.programmable_completor
    }

    /// Forgets that a file name completion has rung.
    pub fn clear_state(&mut self)
        ensures
            !final(self).rung(),
            final(self).builtins() == old(self).builtins(),
            final(self).paths() == old(self).paths(),
            final(self).pending() == old(self).pending(),
            old(self).wf() ==> final(self).wf(),
            final(self).completor() == old(self).completor(),
    {
        self.first_tab = false;
    }

    /// The first builtin command that starts with `prefix`.
    pub fn get_builtin_command(&self, prefix: &str) -> (r: Option<String>)
        ensures
            match r {
                Some(w) => first_with_prefix(self.builtins(), prefix@) == Some(w@),
                None => first_with_prefix(self.builtins(), prefix@) is None,
            },
    {
        let ghost ws = self.builtins();
        let mut i: usize = 0;
        proof {
            assert(ws.skip(0) == ws);
        }
        while i < self.builtin_command.len()
            invariant
                ws == views(self.builtin_command@),
                i <= ws.len(),
                first_with_prefix(ws, prefix@) == first_with_prefix(ws.skip(i as int), prefix@),
            decreases ws.len() - i,
        {
            assert(ws.skip(i as int).drop_first() == ws.skip(i + 1));
            assert(ws.skip(i as int)[0] == self.builtin_command@[i as int]@);
            if starts_with(self.builtin_command[i].as_str(), prefix) {
                return Some(self.builtin_command[i].clone());
            }
            i += 1;
        }
        None
    }

    /// The PATH executables that start with `prefix`, sorted.
    pub fn get_all_path_commands(&self, prefix: &str) -> (r: Vec<String>)
        ensures
            views(r@) == sorted_matches(self.paths(), prefix@),
            sorted_by(views(r@), lex_order()),
            views(r@).to_multiset() == self.paths().filter(|w: Seq<char>| is_prefix(prefix@, w)).to_multiset(),
    {
        proof {
            lemma_lex_total();
            self.paths().filter(|w: Seq<char>| is_prefix(prefix@, w)).lemma_sort_by_ensures(lex_order());
        }
        let ghost ws = self.paths();
        let ghost pred = |w: Seq<char>| is_prefix(prefix@, w);
        let mut matches: Vec<String> = Vec::new();
        let mut i: usize = 0;
        proof {
            assert(ws.take(0).filter(pred) == Seq::<Seq<char>>::empty()) by {
                reveal_with_fuel(Seq::filter, 1);
            }
        }
        while i < self.path_names.len()
            invariant
                ws == views(self.path_names@),
                pred == (|w: Seq<char>| is_prefix(prefix@, w)),
                i <= ws.len(),
                views(matches@) == ws.take(i as int).filter(pred),
            decreases ws.len() - i,
        {
            proof {
                assert(ws.take(i + 1) == ws.take(i as int).push(ws[i as int]));
                ws.take(i as int).lemma_filter_push(ws[i as int], pred);
            }
            let ghost prev = views(matches@);
            if starts_with(self.path_names[i].as_str(), prefix) {
                matches.push(self.path_names[i].clone());
                assert(views(matches@) == prev.push(ws[i as int]));
            }
            i += 1;
        }
        assert(ws.take(ws.len() as int) == ws);
        sort_strings(matches)
    }

    /// What programmable completion answers with the candidates that the completion
    /// program gave: the first candidate followed by a space, replacing from `pos`; or,
    /// with no candidate, the line itself from 0 and the bell.
    pub fn complete_programmable(&self, line: &str, pos: usize, candidates: Vec<String>) -> (c: Completion)
        ensures
            candidates@.len() == 0 ==> {
                &&& c.start == 0
                &&& candidate_views(c.candidates@) == seq![pair(line@)]
                &&& c.printed@ == bell()
            },
            candidates@.len() > 0 ==> {
                &&& c.start == pos
                &&& candidate_views(c.candidates@) == seq![pair(candidates@[0]@.push(' '))]
                &&& c.printed@ == Seq::<char>::empty()
            },
    {
        let mut out: Vec<Candidate> = Vec::new();
        if candidates.len() == 0 {
            let whole = chars_of(line);
            let text = string_of_range(&whole, 0, whole.len());
            assert(whole@.subrange(0, whole@.len() as int) == whole@);
            out.push(make_candidate(text));
            assert(candidate_views(out@) == seq![pair(line@)]);
            Completion { start: 0, candidates: out, printed: bell_string() }
        } else {
            out.push(make_pair(candidates[0].clone()));
            assert(candidate_views(out@) == seq![pair(candidates@[0]@.push(' '))]);
            Completion { start: pos, candidates: out, printed: String::new() }
        }
    }

    /// Starts a file name completion: it applies when the line holds a space, and then
    /// nothing stays pending from an ambiguous command completion.
    pub fn begin_filename_completion(&mut self, line: &str) -> (b: bool)
        ensures
            b == line@.contains(' '),
            final(self).pending() == (if b { None } else { old(self).pending() }),
            final(self).rung() == old(self).rung(),
            final(self).builtins() == old(self).builtins(),
            final(self).paths() == old(self).paths(),
            old(self).wf() ==> final(self).wf(),
            final(self).completor() == old(self).completor(),
    {
        let b = contains_char(line, ' ');
        if b {
            self.last_prompt = None;
        }
        b
    }

    /// What file name completion answers for `line`, given where the file name
    /// completer replaces text and the file names it proposes (see `file_completion`).
    pub fn complete_filenames(&mut self, line: &str, start: usize, names: Vec<String>) -> (c: Completion)
        requires
            line@.contains(' '),
        ensures
            ({
                let (s, cands, printed, rung) = file_completion(old(self).rung(), line@, start, views(names@));
                &&& c.start == s
                &&& candidate_views(c.candidates@) == cands
                &&& c.printed@ == printed
                &&& final(self).rung() == rung
            }),
            final(self).pending() == old(self).pending(),
            final(self).builtins() == old(self).builtins(),
            final(self).paths() == old(self).paths(),
            old(self).wf() ==> final(self).wf(),
            final(self).completor() == old(self).completor(),
    {
        let ghost ns = views(names@);
        let ghost offered = ns.map_values(|r: Seq<char>| finished_file_name(r));
        let mut updated: Vec<String> = Vec::new();
        let mut i: usize = 0;
        while i < names.len()
            invariant
                ns == views(names@),
                offered == ns.map_values(|r: Seq<char>| finished_file_name(r)),
                i <= ns.len(),
                views(updated@) == offered.take(i as int),
            decreases ns.len() - i,
        {
            let mut r = names[i].clone();
            let cs = chars_of(r.as_str());
            if !(cs.len() > 0 && cs[cs.len() - 1] == '/') {
                push_char(&mut r, ' ');
            }
            let ghost prev = views(updated@);
            updated.push(r);
            assert(views(updated@) == prev.push(offered[i as int]));
            assert(offered.take(i + 1) == offered.take(i as int).push(offered[i as int]));
            i += 1;
        }
        assert(offered.take(ns.len() as int) == offered);
        if updated.len() == 1 {
            let mut out: Vec<Candidate> = Vec::new();
            out.push(make_candidate(updated[0].clone()));
            assert(candidate_views(out@) == seq![pair(offered[0])]);
            return Completion { start, candidates: out, printed: String::new() };
        }
        let prefix = find_longest_common_prefix(&updated);
        proof {
            lemma_longest_common_prefix_unique(offered, prefix@, longest_common_prefix(offered));
        }
        let words = split_on(line, ' ');
        proof {
            lemma_split_char_first(line@, ' ');
        }
        let prefix_len = utf8_len(prefix.as_str());
        let second_len = utf8_len(words[1].as_str());
        if prefix_len > second_len {
            let first_len = utf8_len(words[0].as_str());
            let line_len = utf8_len(line);
            proof {
                let w0 = split_char(line@, ' ')[0];
                let k = w0.len() as int;
                assert(line@ == w0 + line@.skip(k));
                assert(line@.skip(k) == seq![' '] + line@.skip(k + 1));
                lemma_byte_len_concat(w0, line@.skip(k));
                lemma_byte_len_concat(seq![' '], line@.skip(k + 1));
                lemma_byte_len_space();
            }
            let mut out: Vec<Candidate> = Vec::new();
            out.push(make_candidate(prefix));
            return Completion { start: first_len + 1, candidates: out, printed: String::new() };
        }
        if !self.first_tab {
            self.first_tab = true;
            return Completion { start: 0, candidates: Vec::new(), printed: bell_string() };
        }
        let mut out: Vec<Candidate> = Vec::new();
        let mut k: usize = 0;
        while k < updated.len()
            invariant
                views(updated@) == offered,
                k <= offered.len(),
                candidate_views(out@) == offered.map_values(|r: Seq<char>| pair(r)).take(k as int),
            decreases offered.len() - k,
        {
            let ghost prev = candidate_views(out@);
            out.push(make_candidate(updated[k].clone()));
            assert(candidate_views(out@) == prev.push(pair(offered[k as int])));
            assert(offered.map_values(|r: Seq<char>| pair(r)).take(k + 1)
                == offered.map_values(|r: Seq<char>| pair(r)).take(k as int).push(pair(offered[k as int])));
            k += 1;
        }
        assert(offered.map_values(|r: Seq<char>| pair(r)).take(offered.len() as int) == offered.map_values(
            |r: Seq<char>| pair(r),
        ));
        Completion { start, candidates: out, printed: String::new() }
    }

    /// What completing a command name answers (see `command_completion`): a builtin
    /// command first, then the executables on the PATH; an ambiguous PATH match first
    /// rings the bell and waits, and a second tab press lists the matches.
    pub fn complete_command(&mut self, line: &str) -> (c: Completion)
        requires
            old(self).wf(),
        ensures
            ({
                let (cands, printed, pending) = command_completion(
                    old(self).builtins(),
                    old(self).paths(),
                    old(self).pending(),
                    line@,
                );
                &&& c.start == 0
                &&& candidate_views(c.candidates@) == cands
                &&& c.printed@ == printed
                &&& final(self).pending() == pending
            }),
            final(self).wf(),
            final(self).rung() == old(self).rung(),
            final(self).builtins() == old(self).builtins(),
            final(self).paths() == old(self).paths(),
            final(self).completor() == old(self).completor(),
    {
        proof {
            let b = self.builtins();
            let p = self.paths();
            assert(prefix_hit(b, line@) == (line@.len() == 0 || exists|w: Seq<char>| #[trigger] b.to_set().contains(w) && is_prefix(line@, w))) by {
                if exists|w: Seq<char>| #[trigger] b.to_set().contains(w) && is_prefix(line@, w) {
                    let w = choose|w: Seq<char>| #[trigger] b.to_set().contains(w) && is_prefix(line@, w);
                    let i = choose|i: int| 0 <= i < b.len() && b[i] == w;
                    assert(is_prefix(line@, b[i]));
                }
                if exists|i: int| 0 <= i < b.len() && is_prefix(line@, #[trigger] b[i]) {
                    let i = choose|i: int| 0 <= i < b.len() && is_prefix(line@, #[trigger] b[i]);
                    assert(b.to_set().contains(b[i]));
                }
            }
            assert(prefix_hit(p, line@) == (line@.len() == 0 || exists|w: Seq<char>| #[trigger] p.to_set().contains(w) && is_prefix(line@, w))) by {
                if exists|w: Seq<char>| #[trigger] p.to_set().contains(w) && is_prefix(line@, w) {
                    let w = choose|w: Seq<char>| #[trigger] p.to_set().contains(w) && is_prefix(line@, w);
                    let i = choose|i: int| 0 <= i < p.len() && p[i] == w;
                    assert(is_prefix(line@, p[i]));
                }
                if exists|i: int| 0 <= i < p.len() && is_prefix(line@, #[trigger] p[i]) {
                    let i = choose|i: int| 0 <= i < p.len() && is_prefix(line@, #[trigger] p[i]);
                    assert(p.to_set().contains(p[i]));
                }
            }
        }
        let mut result: Vec<Candidate> = Vec::new();
        if trie_starts_with(&self.builtin_prefix_tree, line) {
            match self.get_builtin_command(line) {
                Some(found_word) => {
                    result.push(make_pair(found_word));
                },
                None => {},
            }
            self.last_prompt = None;
            return Completion { start: 0, candidates: result, printed: String::new() };
        } else if trie_starts_with(&self.path_prefix_tree, line) {
            let matched = self.get_all_path_commands(line);
            if matched.len() == 1 {
                result.push(make_pair(matched[0].clone()));
            } else if matched.len() > 1 {
                let prefix = find_longest_common_prefix(&matched);
                proof {
                    lemma_longest_common_prefix_unique(views(matched@), prefix@, longest_common_prefix(views(matched@)));
                }
                if utf8_len(prefix.as_str()) > utf8_len(line) {
                    result.push(make_candidate(prefix));
                    return Completion { start: 0, candidates: result, printed: String::new() };
                }
                let whole = chars_of(line);
                let text = string_of_range(&whole, 0, whole.len());
                assert(whole@.subrange(0, whole@.len() as int) == whole@);
                result.push(make_candidate(text));
                if self.last_prompt.is_some() {
                    self.last_prompt = None;
                    let mut printed = String::new();
                    push_char(&mut printed, '\n');
                    let listing = join_all(&matched, "  ");
                    proof {
                        reveal_strlit("  ");
                        assert("  "@ == seq![' ', ' ']);
                    }
                    printed.append(listing.as_str());
                    push_char(&mut printed, '\n');
                    return Completion { start: 0, candidates: result, printed };
                } else {
                    let pending = string_of_range(&whole, 0, whole.len());
                    self.last_prompt = Some(pending);
                    return Completion { start: 0, candidates: result, printed: bell_string() };
                }
            }
        }
        self.last_prompt = None;
        Completion { start: 0, candidates: result, printed: String::new() }
    }
}

} // verus!
