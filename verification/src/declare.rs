//! Shell variables set with `declare NAME=VALUE` and substituted as `$NAME`.

use vstd::prelude::*;
use crate::text::{views, occurs, replace_all, contains_text, replace_text, chars_of, str_eq};

verus! {

broadcast use vstd::string::group_string_axioms;

/// `char::is_alphabetic`: `c` has the Unicode `Alphabetic` property.
pub uninterp spec fn alphabetic(c: char) -> bool;

/// `char::is_alphanumeric`: `c` is alphabetic or numeric in Unicode.
pub uninterp spec fn alphanumeric(c: char) -> bool;

/// `char::is_alphabetic` from std, whose answer is named `alphabetic`.
#[verifier::external_body]
fn char_is_alphabetic(c: char) -> (b: bool)
    ensures
        b == alphabetic(c),
{
    c.is_alphabetic()
}

/// `char::is_alphanumeric` from std, whose answer is named `alphanumeric`.
#[verifier::external_body]
fn char_is_alphanumeric(c: char) -> (b: bool)
    ensures
        b == alphanumeric(c),
{
    c.is_alphanumeric()
}

/// `name` is a valid variable name: it starts with a letter or `_` and holds only
/// letters, digits and `_`.
pub open spec fn valid_name(name: Seq<char>) -> bool {
    &&& name.len() > 0
    &&& (alphabetic(name[0]) || name[0] == '_')
    &&& forall|i: int| 0 <= i < name.len() ==> (alphanumeric(#[trigger] name[i]) || name[i] == '_')
}

/// `$name`: how a variable is referred to.
pub open spec fn reference(name: Seq<char>) -> Seq<char> {
    seq!['$'] + name
}

/// `w` with its variable references substituted: the first variable (in the order of
/// `vars`) whose reference occurs in `w` has all its references replaced by its value;
/// a word without a reference is unchanged.
pub open spec fn substitute_word(vars: Seq<(Seq<char>, Seq<char>)>, w: Seq<char>) -> Seq<char>
    decreases vars.len(),
{
    if vars.len() == 0 {
        w
    } else if occurs(w, reference(vars[0].0)) {
        replace_all(w, reference(vars[0].0), vars[0].1)
    } else {
        substitute_word(vars.drop_first(), w)
    }
}

/// `out` is `w` with one declared variable substituted: when the reference of some
/// name of `vars` occurs in `w`, every reference of one such name is replaced by its
/// value; otherwise `out` is `w`.
pub open spec fn substituted_by_declared(vars: Map<Seq<char>, Seq<char>>, w: Seq<char>, out: Seq<char>) -> bool {
    if exists|k: Seq<char>| #[trigger] vars.contains_key(k) && occurs(w, reference(k)) {
        exists|k: Seq<char>| #[trigger] vars.contains_key(k) && occurs(w, reference(k)) && out == replace_all(
            w,
            reference(k),
            vars[k],
        )
    } else {
        out == w
    }
}

/// `substitute_word` either leaves the word as it is, when no reference of a pair
/// occurs in it, or replaces the references of one pair whose reference occurs.
proof fn lemma_substitute_word_pair(vars: Seq<(Seq<char>, Seq<char>)>, w: Seq<char>)
    ensures
        !(exists|i: int| 0 <= i < vars.len() && occurs(w, reference(#[trigger] vars[i].0))) ==> substitute_word(vars, w) == w,
        (exists|i: int| 0 <= i < vars.len() && occurs(w, reference(#[trigger] vars[i].0))) ==> exists|i: int|
            0 <= i < vars.len() && occurs(w, reference(#[trigger] vars[i].0)) && substitute_word(vars, w) == replace_all(
                w,
                reference(vars[i].0),
                vars[i].1,
            ),
    decreases vars.len(),
{
    if vars.len() > 0 && !occurs(w, reference(vars[0].0)) {
        let t = vars.drop_first();
        lemma_substitute_word_pair(t, w);
        if exists|i: int| 0 <= i < vars.len() && occurs(w, reference(#[trigger] vars[i].0)) {
            let i = choose|i: int| 0 <= i < vars.len() && occurs(w, reference(#[trigger] vars[i].0));
            assert(i > 0);
            assert(t[i - 1] == vars[i]);
            let j = choose|j: int| 0 <= j < t.len() && occurs(w, reference(#[trigger] t[j].0)) && substitute_word(t, w)
                == replace_all(w, reference(t[j].0), t[j].1);
            assert(vars[j + 1] == t[j]);
        } else {
            assert forall|i: int| 0 <= i < t.len() implies !occurs(w, reference(#[trigger] t[i].0)) by {
                assert(t[i] == vars[i + 1]);
            }
        }
    } else if vars.len() > 0 {
        assert(occurs(w, reference(vars[0].0)));
    }
}

/// No two pairs of `s` have the same name.
pub open spec fn distinct_keys(s: Seq<(String, String)>) -> bool {
    forall|i: int, j: int| 0 <= i < s.len() && 0 <= j < s.len() && i != j ==> #[trigger] s[i].0@ != #[trigger] s[j].0@
}

/// The map from the names to the values of `ps` (a later pair wins).
pub open spec fn pairs_map(ps: Seq<(Seq<char>, Seq<char>)>) -> Map<Seq<char>, Seq<char>>
    decreases ps.len(),
{
    if ps.len() == 0 {
        Map::empty()
    } else {
        pairs_map(ps.drop_last()).insert(ps.last().0, ps.last().1)
    }
}

/// The names of `ps` are pairwise different.
pub open spec fn distinct_names_of(ps: Seq<(Seq<char>, Seq<char>)>) -> bool {
    forall|i: int, j: int| 0 <= i < ps.len() && 0 <= j < ps.len() && i != j ==> #[trigger] ps[i].0 != #[trigger] ps[j].0
}

/// `pairs_map` holds exactly the names of the pairs, each with its value.
proof fn lemma_pairs_map(ps: Seq<(Seq<char>, Seq<char>)>, k: Seq<char>)
    requires
        distinct_names_of(ps),
    ensures
        pairs_map(ps).contains_key(k) <==> exists|i: int| 0 <= i < ps.len() && #[trigger] ps[i].0 == k,
        forall|i: int| 0 <= i < ps.len() && #[trigger] ps[i].0 == k ==> pairs_map(ps)[k] == ps[i].1,
    decreases ps.len(),
{
    if ps.len() > 0 {
        let t = ps.drop_last();
        assert(distinct_names_of(t)) by {
            assert forall|i: int, j: int| 0 <= i < t.len() && 0 <= j < t.len() && i != j implies #[trigger] t[i].0 != #[trigger] t[j].0 by {
                assert(t[i] == ps[i] && t[j] == ps[j]);
            }
        }
        lemma_pairs_map(t, k);
        let last = ps.len() - 1;
        assert(ps.last() == ps[last]);
        if exists|i: int| 0 <= i < t.len() && #[trigger] t[i].0 == k {
            let i = choose|i: int| 0 <= i < t.len() && #[trigger] t[i].0 == k;
            assert(ps[i].0 == k);
        }
        if ps[last].0 == k {
            assert(pairs_map(ps).contains_key(k));
        } else {
            assert(pairs_map(ps).contains_key(k) == pairs_map(t).contains_key(k));
            if exists|i: int| 0 <= i < ps.len() && #[trigger] ps[i].0 == k {
                let i = choose|i: int| 0 <= i < ps.len() && #[trigger] ps[i].0 == k;
                assert(i != last);
                assert(t[i].0 == k);
            }
        }
        assert forall|i: int| 0 <= i < ps.len() && #[trigger] ps[i].0 == k implies pairs_map(ps)[k] == ps[i].1 by {
            if i < ps.len() - 1 {
                assert(ps[i] == t[i]);
                assert(ps[ps.len() - 1].0 != ps[i].0);
                assert(pairs_map(t).contains_key(k));
                assert(pairs_map(t)[k] == t[i].1);
            }
        }
    }
}

/// With distinct names, `substitute_word` substitutes a declared variable by its
/// declared value (see `substituted_by_declared`).
proof fn lemma_substituted_by_declared(ps: Seq<(Seq<char>, Seq<char>)>, w: Seq<char>)
    requires
        distinct_names_of(ps),
    ensures
        substituted_by_declared(pairs_map(ps), w, substitute_word(ps, w)),
{
    let m = pairs_map(ps);
    lemma_substitute_word_pair(ps, w);
    if exists|i: int| 0 <= i < ps.len() && occurs(w, reference(#[trigger] ps[i].0)) {
        let i = choose|i: int| 0 <= i < ps.len() && occurs(w, reference(#[trigger] ps[i].0)) && substitute_word(ps, w)
            == replace_all(w, reference(ps[i].0), ps[i].1);
        let k = ps[i].0;
        lemma_pairs_map(ps, k);
        assert(m.contains_key(k));
        assert(m[k] == ps[i].1);
    } else {
        assert forall|k: Seq<char>| #[trigger] m.contains_key(k) implies !occurs(w, reference(k)) by {
            lemma_pairs_map(ps, k);
            let i = choose|i: int| 0 <= i < ps.len() && #[trigger] ps[i].0 == k;
            assert(!occurs(w, reference(ps[i].0)));
        }
    }
}

/// Replacing the value of a name that occurs in `ps` (names distinct) sets it in the map.
proof fn lemma_pairs_map_update(ps: Seq<(Seq<char>, Seq<char>)>, i: int, v: Seq<char>)
    requires
        distinct_names_of(ps),
        0 <= i < ps.len(),
    ensures
        pairs_map(ps.update(i, (ps[i].0, v))) == pairs_map(ps).insert(ps[i].0, v),
{
    let qs = ps.update(i, (ps[i].0, v));
    assert(distinct_names_of(qs)) by {
        assert forall|a: int, b: int| 0 <= a < qs.len() && 0 <= b < qs.len() && a != b implies #[trigger] qs[a].0 != #[trigger] qs[b].0 by {
            assert(qs[a].0 == ps[a].0 && qs[b].0 == ps[b].0);
        }
    }
    assert forall|k: Seq<char>| #[trigger] pairs_map(qs).contains_key(k) == pairs_map(ps).insert(ps[i].0, v).contains_key(k) by {
        lemma_pairs_map(ps, k);
        lemma_pairs_map(qs, k);
        if exists|j: int| 0 <= j < ps.len() && #[trigger] ps[j].0 == k {
            let j = choose|j: int| 0 <= j < ps.len() && #[trigger] ps[j].0 == k;
            assert(qs[j].0 == k);
        }
        if exists|j: int| 0 <= j < qs.len() && #[trigger] qs[j].0 == k {
            let j = choose|j: int| 0 <= j < qs.len() && #[trigger] qs[j].0 == k;
            assert(ps[j].0 == k);
        }
    }
    assert forall|k: Seq<char>| #[trigger] pairs_map(qs).contains_key(k) implies pairs_map(qs)[k] == pairs_map(ps).insert(ps[i].0, v)[k] by {
        lemma_pairs_map(ps, k);
        lemma_pairs_map(qs, k);
        let j = choose|j: int| 0 <= j < qs.len() && #[trigger] qs[j].0 == k;
        assert(ps[j].0 == k);
        if j != i {
            assert(qs[j] == ps[j]);
        }
    }
    assert(pairs_map(qs) =~= pairs_map(ps).insert(ps[i].0, v));
}

/// The variables, each name once, in the order in which they were first declared.
/// They are kept as a list of pairs rather than in vstd's `StringHashMap` because
/// substitution walks the variables, and that map offers no walk over its entries.
pub struct DeclaredVariables {
    store: Vec<(String, String)>,
}

impl DeclaredVariables {
    /// The variables as (name, value) pairs, in the order of their first declaration.
    pub closed spec fn pairs(&self) -> Seq<(Seq<char>, Seq<char>)> {
        self.store@.map_values(|kv: (String, String)| (kv.0@, kv.1@))
    }

    /// The value of each declared name.
    pub open spec fn vars(&self) -> Map<Seq<char>, Seq<char>> {
        pairs_map(self.pairs())
    }

    /// No name is declared twice.
    #[verifier::type_invariant]
    closed spec fn distinct_names(&self) -> bool {
        distinct_keys(self.store@)
    }

    /// The names of the pairs are distinct.
    proof fn lemma_distinct(&self)
        requires
            distinct_keys(self.store@),
        ensures
            distinct_names_of(self.pairs()),
    {
        assert forall|i: int, j: int| 0 <= i < self.pairs().len() && 0 <= j < self.pairs().len() && i != j
            implies #[trigger] self.pairs()[i].0 != #[trigger] self.pairs()[j].0 by {
            assert(self.pairs()[i].0 == self.store@[i].0@);
            assert(self.pairs()[j].0 == self.store@[j].0@);
        }
    }

    /// No variable is declared.
    pub fn new() -> (r: DeclaredVariables)
        ensures
            r.pairs() == Seq::<(Seq<char>, Seq<char>)>::empty(),
            r.vars() == Map::<Seq<char>, Seq<char>>::empty(),
    {
        let r = DeclaredVariables { store: Vec::new() };
        assert(r.pairs() == Seq::<(Seq<char>, Seq<char>)>::empty());
        r
    }

    /// Whether `command` is a valid variable name (see `valid_name`).
    pub fn validate_command(&self, command: &str) -> (b: bool)
        ensures
            b == valid_name(command@),
    {
        let cs = chars_of(command);
        let first_ok = if cs.len() > 0 {
            char_is_alphabetic(cs[0]) || cs[0] == '_'
        } else {
            false
        };
        if !first_ok {
            return false;
        }
        let mut i: usize = 0;
        while i < cs.len()
            invariant
                cs@ == command@,
                i <= cs@.len(),
                forall|k: int| 0 <= k < i ==> (alphanumeric(#[trigger] cs@[k]) || cs@[k] == '_'),
            decreases cs@.len() - i,
        {
            if !(char_is_alphanumeric(cs[i]) || cs[i] == '_') {
                assert(!(alphanumeric(command@[i as int]) || command@[i as int] == '_'));
                return false;
            }
            i += 1;
        }
        true
    }

    /// Sets variable `command` to `description`: a declared name keeps its place and
    /// gets the new value, a new name goes last.
    pub fn register(&mut self, command: String, description: String)
        ensures
            (exists|i: int| 0 <= i < old(self).pairs().len() && #[trigger] old(self).pairs()[i].0 == command@)
                ==> final(self).pairs().len() == old(self).pairs().len()
                && forall|i: int| 0 <= i < old(self).pairs().len() ==> #[trigger] final(self).pairs()[i] == (
                if old(self).pairs()[i].0 == command@ { (command@, description@) } else { old(self).pairs()[i] }),
            !(exists|i: int| 0 <= i < old(self).pairs().len() && #[trigger] old(self).pairs()[i].0 == command@)
                ==> final(self).pairs() == old(self).pairs().push((command@, description@)),
            final(self).vars() == old(self).vars().insert(command@, description@),
            distinct_names_of(final(self).pairs()),
    {
        proof {
            use_type_invariant(&*self);
            self.lemma_distinct();
        }
        let ghost old_pairs = self.pairs();
        let mut store: Vec<(String, String)> = Vec::new();
        std::mem::swap(&mut store, &mut self.store);
        let n = store.len();
        let mut i: usize = 0;
        while i < n
            invariant
                n == store@.len(),
                i <= n,
                distinct_keys(store@),
                distinct_names_of(old_pairs),
                old_pairs == store@.map_values(|kv: (String, String)| (kv.0@, kv.1@)),
                old_pairs == old(self).pairs(),
                forall|k: int| 0 <= k < i ==> #[trigger] store@[k].0@ != command@,
            decreases n - i,
        {
            if str_eq(store[i].0.as_str(), command.as_str()) {
                let key = store[i].0.clone();
                let ghost before = store@;
                store.set(i, (key, description));
                assert(distinct_keys(store@)) by {
                    assert forall|a: int, b: int| 0 <= a < store@.len() && 0 <= b < store@.len() && a != b
                        implies #[trigger] store@[a].0@ != #[trigger] store@[b].0@ by {
                        assert(store@[a].0@ == before[a].0@);
                        assert(store@[b].0@ == before[b].0@);
                    }
                }
                self.store = store;
                assert forall|k: int| 0 <= k < old_pairs.len() implies #[trigger] self.pairs()[k] == (
                    if old_pairs[k].0 == command@ { (command@, description@) } else { old_pairs[k] }) by {
                    if k != i {
                        assert(before[k].0@ != before[i as int].0@);
                    }
                }
                assert(old_pairs[i as int].0 == command@);
                assert(self.pairs().len() == old_pairs.len());
                proof {
                    lemma_pairs_map_update(old_pairs, i as int, description@);
                    assert(self.pairs() == old_pairs.update(i as int, (old_pairs[i as int].0, description@)));
                }
                return;
            }
            i += 1;
        }
        store.push((command, description));
        assert(distinct_keys(store@)) by {
            assert forall|a: int, b: int| 0 <= a < store@.len() && 0 <= b < store@.len() && a != b
                implies #[trigger] store@[a].0@ != #[trigger] store@[b].0@ by {
                if a < n && b < n {
                } else if a == n {
                    assert(store@[b].0@ != command@);
                } else {
                    assert(store@[a].0@ != command@);
                }
            }
        }
        self.store = store;
        assert(self.pairs() == old_pairs.push((command@, description@)));
        assert(self.pairs().drop_last() == old_pairs);
        assert(!(exists|k: int| 0 <= k < old_pairs.len() && #[trigger] old_pairs[k].0 == command@)) by {
            if exists|k: int| 0 <= k < old_pairs.len() && #[trigger] old_pairs[k].0 == command@ {
                let k = choose|k: int| 0 <= k < old_pairs.len() && #[trigger] old_pairs[k].0 == command@;
                assert(self.store@[k].0@ == command@);
            }
        }
    }

    /// The value of variable `command`, if it is declared.
    pub fn get(&self, command: &String) -> (r: Option<&String>)
        ensures
            match r {
                Some(v) => self.vars().contains_key(command@) && v@ == self.vars()[command@],
                None => !self.vars().contains_key(command@),
            },
            distinct_names_of(self.pairs()),
    {
        proof {
            use_type_invariant(self);
            self.lemma_distinct();
            lemma_pairs_map(self.pairs(), command@);
        }
        let mut i: usize = 0;
        while i < self.store.len()
            invariant
                i <= self.store@.len(),
                distinct_keys(self.store@),
                forall|k: int| 0 <= k < i ==> #[trigger] self.store@[k].0@ != command@,
            decreases self.store@.len() - i,
        {
            if str_eq(self.store[i].0.as_str(), command.as_str()) {
                proof {
                    let ps = self.pairs();
                    assert(ps[i as int].0 == command@);
                    assert(ps[i as int].1 == self.store@[i as int].1@);
                    self.lemma_distinct();
                    lemma_pairs_map(ps, command@);
                    let j = choose|j: int| 0 <= j < ps.len() && #[trigger] ps[j].0 == command@;
                    if j != i {
                        assert(self.store@[j].0@ != self.store@[i as int].0@);
                    }
                }
                return Some(&self.store[i].1);
            }
            i += 1;
        }
        proof {
            let ps = self.pairs();
            assert(!(exists|j: int| 0 <= j < ps.len() && #[trigger] ps[j].0 == command@)) by {
                if exists|j: int| 0 <= j < ps.len() && #[trigger] ps[j].0 == command@ {
                    let j = choose|j: int| 0 <= j < ps.len() && #[trigger] ps[j].0 == command@;
                    assert(self.store@[j].0@ == command@);
                }
            }
        }
        None
    }

    /// Substitutes the variables in one word (see `substitute_word`).
    fn substitute_in(&self, comm: String) -> (r: String)
        ensures
            r@ == substitute_word(self.pairs(), comm@),
    {
        let ghost ps = self.pairs();
        let mut i: usize = 0;
        proof {
            assert(ps.skip(0) == ps);
        }
        while i < self.store.len()
            invariant
                ps == self.pairs(),
                i <= ps.len(),
                substitute_word(ps, comm@) == substitute_word(ps.skip(i as int), comm@),
            decreases ps.len() - i,
        {
            proof {
                assert(ps.skip(i as int).drop_first() == ps.skip(i + 1));
                assert(ps.skip(i as int)[0] == ps[i as int]);
            }
            let mut key_with_sign = String::new();
            crate::text::push_char(&mut key_with_sign, '$');
            key_with_sign.append(self.store[i].0.as_str());
            assert(key_with_sign@ == reference(ps[i as int].0));
            if contains_text(comm.as_str(), key_with_sign.as_str()) {
                return replace_text(comm.as_str(), key_with_sign.as_str(), self.store[i].1.as_str());
            }
            i += 1;
        }
        proof {
            assert(ps.skip(ps.len() as int) == Seq::<(Seq<char>, Seq<char>)>::empty());
        }
        comm
    }

    /// Substitutes the variables in every word of every command (see
    /// `substitute_word`).
    pub fn substitute_variables(&self, commands: Vec<Vec<String>>) -> (r: Vec<Vec<String>>)
        ensures
            r@.len() == commands@.len(),
            forall|i: int| 0 <= i < r@.len() ==> #[trigger] views(r@[i]@) == views(commands@[i]@).map_values(
                |w: Seq<char>| substitute_word(self.pairs(), w),
            ),
            distinct_names_of(self.pairs()),
            forall|i: int, j: int|
                0 <= i < r@.len() && 0 <= j < r@[i]@.len() ==> substituted_by_declared(
                    self.vars(),
                    commands@[i]@[j]@,
                    #[trigger] r@[i]@[j]@,
                ),
    {
        proof {
            use_type_invariant(self);
            self.lemma_distinct();
        }
        let mut new_vector: Vec<Vec<String>> = Vec::new();
        let mut i: usize = 0;
        while i < commands.len()
            invariant
                i <= commands@.len(),
                new_vector@.len() == i,
                forall|k: int| 0 <= k < i ==> #[trigger] views(new_vector@[k]@) == views(commands@[k]@).map_values(
                    |w: Seq<char>| substitute_word(self.pairs(), w),
                ),
            decreases commands@.len() - i,
        {
            let part = &commands[i];
            let mut new_part: Vec<String> = Vec::new();
            let mut j: usize = 0;
            while j < part.len()
                invariant
                    j <= part@.len(),
                    views(new_part@) == views(part@).take(j as int).map_values(
                        |w: Seq<char>| substitute_word(self.pairs(), w),
                    ),
                decreases part@.len() - j,
            {
                let w = self.substitute_in(part[j].clone());
                let ghost prev = views(new_part@);
                new_part.push(w);
                assert(views(new_part@) == prev.push(substitute_word(self.pairs(), part@[j as int]@)));
                assert(views(part@).take(j + 1) == views(part@).take(j as int).push(part@[j as int]@));
                j += 1;
            }
            assert(views(part@).take(part@.len() as int) == views(part@));
            new_vector.push(new_part);
            i += 1;
        }
        proof {
            assert forall|i: int, j: int|
                0 <= i < new_vector@.len() && 0 <= j < new_vector@[i]@.len() implies substituted_by_declared(
                self.vars(),
                commands@[i]@[j]@,
                #[trigger] new_vector@[i]@[j]@,
            ) by {
                let w = commands@[i]@[j]@;
                assert(views(new_vector@[i]@)[j] == new_vector@[i]@[j]@);
                assert(views(commands@[i]@)[j] == w);
                assert(new_vector@[i]@[j]@ == substitute_word(self.pairs(), w));
                lemma_substituted_by_declared(self.pairs(), w);
            }
        }
        new_vector
    }
}


/// A word without `$` is left unchanged by substitution, whatever the variables.
pub proof fn law_word_without_reference_unchanged(vars: Seq<(Seq<char>, Seq<char>)>, w: Seq<char>)
    requires
        !w.contains('$'),
    ensures
        substitute_word(vars, w) == w,
    decreases vars.len(),
{
    if vars.len() > 0 {
        assert(!occurs(w, reference(vars[0].0))) by {
            if occurs(w, reference(vars[0].0)) {
                let i = choose|i: int| crate::text::occurs_at(w, reference(vars[0].0), i);
                assert(w.subrange(i, i + reference(vars[0].0).len())[0] == '$');
                assert(w[i] == '$');
            }
        }
        law_word_without_reference_unchanged(vars.drop_first(), w);
    }
}

/// After `name` is declared with `value` (what `register` ensures), reading `name`
/// gives `value`, and every other name reads as before.
pub proof fn law_read_after_declare(
    before: DeclaredVariables,
    after: DeclaredVariables,
    name: Seq<char>,
    value: Seq<char>,
    other: Seq<char>,
)
    requires
        after.vars() == before.vars().insert(name, value),
    ensures
        after.vars().contains_key(name),
        after.vars()[name] == value,
        other != name ==> after.vars().contains_key(other) == before.vars().contains_key(other),
        other != name && before.vars().contains_key(other) ==> after.vars()[other] == before.vars()[other],
{
}

} // verus!
