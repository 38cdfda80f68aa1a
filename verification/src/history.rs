//! The commands entered so far, numbered from 0 in the order they came.

use vstd::prelude::*;
use std::collections::VecDeque;

verus! {

broadcast use vstd::string::group_string_axioms;

/// The entered commands, newest first, each with its number.
pub struct History {
    list_of_commands: VecDeque<(usize, String)>,
}

/// The entry views of a sequence of numbered commands.
pub open spec fn entry_views(v: Seq<(usize, String)>) -> Seq<(usize, Seq<char>)> {
    v.map_values(|e: (usize, String)| (e.0, e.1@))
}

impl History {
    /// The entries in the order they were added: entry `i` is numbered `i`.
    pub closed spec fn entries(&self) -> Seq<(usize, Seq<char>)> {
        Seq::new(
            self.list_of_commands@.len(),
            |i: int| {
                let e = self.list_of_commands@[self.list_of_commands@.len() - 1 - i];
                (e.0, e.1@)
            },
        )
    }

    /// Entry `i` carries the number `i`.
    #[verifier::type_invariant]
    closed spec fn numbered(&self) -> bool {
        forall|i: int|
            0 <= i < self.list_of_commands@.len() ==> #[trigger] self.list_of_commands@[i].0
                == self.list_of_commands@.len() - 1 - i
    }

    /// No command entered.
    pub fn new() -> (h: History)
        ensures
            h.entries() == Seq::<(usize, Seq<char>)>::empty(),
    {
        let list_of_commands = VecDeque::new();
        let h = History { list_of_commands };
        assert(h.entries() == Seq::<(usize, Seq<char>)>::empty());
        h
    }

    /// Adds `command` as the newest entry, numbered by how many came before it.
    pub fn add_command(&mut self, command: String)
        ensures
            final(self).entries() == old(self).entries().push((old(self).entries().len() as usize, command@)),
    {
        proof {
            use_type_invariant(&*self);
        }
        let index = self.list_of_commands.len();
        let ghost before = self.list_of_commands@;
        let mut list: VecDeque<(usize, String)> = VecDeque::new();
        std::mem::swap(&mut list, &mut self.list_of_commands);
        list.push_front((index, command));
        assert forall|i: int| 0 <= i < list@.len() implies #[trigger] list@[i].0 == list@.len() - 1 - i by {
            if i > 0 {
                assert(list@[i] == before[i - 1]);
            }
        }
        self.list_of_commands = list;
        assert(self.entries() == old(self).entries().push((index, command@)));
    }

    /// The entries from number `skip` on, oldest first.
    fn entries_from(&self, skip: usize) -> (r: Vec<(usize, String)>)
        requires
            skip <= self.entries().len(),
        ensures
            entry_views(r@) == self.entries().skip(skip as int),
    {
        let n = self.list_of_commands.len();
        let mut r: Vec<(usize, String)> = Vec::new();
        let mut i: usize = skip;
        while i < n
            invariant
                n == self.list_of_commands@.len(),
                skip <= i <= n,
                entry_views(r@) == self.entries().subrange(skip as int, i as int),
            decreases n - i,
        {
            let e = &self.list_of_commands[n - 1 - i];
            let ghost prev = entry_views(r@);
            r.push((e.0, e.1.clone()));
            assert(entry_views(r@) == prev.push(self.entries()[i as int]));
            assert(self.entries().subrange(skip as int, i + 1) == self.entries().subrange(skip as int, i as int).push(
                self.entries()[i as int],
            ));
            i += 1;
        }
        assert(self.entries().subrange(skip as int, n as int) == self.entries().skip(skip as int));
        r
    }

    /// All entries, oldest first.
    pub fn commands(&self) -> (r: Vec<(usize, String)>)
        ensures
            entry_views(r@) == self.entries(),
            forall|i: int| 0 <= i < r@.len() ==> #[trigger] r@[i].0 == i,
    {
        proof {
            use_type_invariant(self);
        }
        let r = self.entries_from(0);
        assert(self.entries().skip(0) == self.entries());
        assert forall|i: int| 0 <= i < r@.len() implies #[trigger] r@[i].0 == i by {
            assert(entry_views(r@)[i].0 == r@[i].0);
            let n = self.list_of_commands@.len();
            assert(self.list_of_commands@[n - 1 - i].0 == n - 1 - (n - 1 - i));
        }
        r
    }

    /// The newest `n` entries (all of them when there are fewer), oldest first.
    pub fn last_n(&self, n: usize) -> (r: Vec<(usize, String)>)
        ensures
            entry_views(r@) == self.entries().skip(
                if n >= self.entries().len() { 0 } else { self.entries().len() - n },
            ),
            forall|i: int| 0 <= i < r@.len() ==> #[trigger] r@[i].0 == self.entries().len() - r@.len() + i,
    {
        proof {
            use_type_invariant(self);
        }
        let len = self.list_of_commands.len();
        let skip = len.saturating_sub(n);
        assert(skip == (if n >= len { 0 } else { len - n }));
        let r = self.entries_from(skip);
        assert(entry_views(r@).len() == r@.len());
        assert(r@.len() == len - skip);
        assert forall|i: int| 0 <= i < r@.len() implies #[trigger] r@[i].0 == self.entries().len() - r@.len() + i by {
            assert(entry_views(r@)[i].0 == r@[i].0);
            let m = self.list_of_commands@.len();
            let k = skip + i;
            assert(self.list_of_commands@[m - 1 - k].0 == m - 1 - (m - 1 - k));
        }
        r
    }
}

/// Commands added one by one to an empty history are listed oldest first, each
/// numbered by its position: the `i`-th command added carries the number `i`.
/// (`states[0]` is the empty history and `states[i + 1]` the history after adding
/// `cmds[i]`, as `new` and `add_command` state them.)
pub proof fn law_history_numbers_commands_in_order(states: Seq<History>, cmds: Seq<Seq<char>>)
    requires
        states.len() == cmds.len() + 1,
        states[0].entries() == Seq::<(usize, Seq<char>)>::empty(),
        forall|i: int| 0 <= i < cmds.len() ==> #[trigger] states[i + 1].entries() == states[i].entries().push(
            (states[i].entries().len() as usize, cmds[i]),
        ),
    ensures
        states.last().entries() == Seq::new(cmds.len(), |i: int| (i as usize, cmds[i])),
    decreases cmds.len(),
{
    let n: int = cmds.len() as int;
    if n == 0 {
        assert(states.last() == states[0]);
        assert(states[0].entries() == Seq::new(0, |i: int| (i as usize, cmds[i])));
    } else {
        let sub = states.drop_last();
        let cs = cmds.drop_last();
        assert forall|i: int| 0 <= i < cs.len() implies #[trigger] sub[i + 1].entries() == sub[i].entries().push(
            (sub[i].entries().len() as usize, cs[i]),
        ) by {
            assert(sub[i + 1] == states[i + 1]);
            assert(sub[i] == states[i]);
            assert(states[i + 1].entries() == states[i].entries().push((states[i].entries().len() as usize, cmds[i])));
        }
        law_history_numbers_commands_in_order(sub, cs);
        let before = states[n - 1].entries();
        assert(sub.last() == states[n - 1]);
        assert(before == Seq::new(cs.len(), |i: int| (i as usize, cs[i])));
        assert(states[n].entries() == before.push((before.len() as usize, cmds[n - 1])));
        assert(states.last() == states[n]);
        assert(states.last().entries() == Seq::new(n as nat, |i: int| (i as usize, cmds[i])));
    }
}

} // verus!
