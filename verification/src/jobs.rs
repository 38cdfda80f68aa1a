//! Commands started in the background, and the listing that `jobs` prints.

use vstd::prelude::*;
use std::collections::HashMap;
use vstd::std_specs::iter::IteratorSpec;
use crate::text::{views, join, join_all, decimal, decimal_string, push_char};

verus! {

broadcast use vstd::string::group_string_axioms, vstd::std_specs::hash::group_hash_axioms;

/// Whether a background job still runs.
pub enum Status {
    Running,
    Done,
}

/// The word that names a status.
pub open spec fn status_name(s: Status) -> Seq<char> {
    match s {
        Status::Running => "Running"@,
        Status::Done => "Done"@,
    }
}

/// A status name followed by spaces up to 24 characters.
pub open spec fn padded_status(s: Status) -> Seq<char> {
    status_name(s) + Seq::new((24 - status_name(s).len()) as nat, |i: int| ' ')
}

impl Status {
    /// The word that names the status.
    pub fn string(&self) -> (r: String)
        ensures
            r@ == status_name(*self),
    {
        match self {
            Status::Running => String::from_str("Running"),
            Status::Done => String::from_str("Done"),
        }
    }
}

/// A background job: its process id, its job number, its status and its command line.
pub struct Job {
    pid: u32,
    number: usize,
    status: Status,
    command: String,
}

/// The line that `jobs` prints for `job` at position `i` of `n` listed jobs: the
/// number in brackets, `+` on the last line and `-` on the one before it, then the
/// padded status and the command line.
pub open spec fn job_line(job: Job, i: int, n: int) -> Seq<char> {
    seq!['['] + decimal(job.number() as nat) + seq![']']
        + (if i == n - 1 { seq!['+'] } else { Seq::empty() })
        + (if n >= 2 && i == n - 2 { seq!['-'] } else { Seq::empty() })
        + seq![' ', ' '] + padded_status(job.status()) + job.command()
}

/// The lines that `jobs` prints for the jobs `m` walked in the order `ks`: one line
/// per job number of `ks` (see `job_line`).
pub open spec fn job_listing(m: Map<usize, Job>, ks: Seq<usize>) -> Seq<Seq<char>> {
    Seq::new(ks.len(), |i: int| job_line(m[ks[i]], i, ks.len() as int))
}

/// In a listing of `n` jobs, every line is the job number in brackets, a marker, two
/// spaces, the status padded to 24 characters and the command line; the marker is `+`
/// on the last line, `-` on the line before it (when there are at least two jobs),
/// and nothing on the others.
pub proof fn law_job_listing_marks_last_two(m: Map<usize, Job>, ks: Seq<usize>, i: int)
    requires
        0 <= i < ks.len(),
    ensures
        ({
            let n = ks.len() as int;
            let job = m[ks[i]];
            let marker = if i == n - 1 { seq!['+'] } else if i == n - 2 { seq!['-'] } else { Seq::<char>::empty() };
            job_listing(m, ks)[i] == seq!['['] + decimal(job.number() as nat) + seq![']'] + marker + seq![' ', ' ']
                + padded_status(job.status()) + job.command()
        }),
{
    let n = ks.len() as int;
    let job = m[ks[i]];
    let head = seq!['['] + decimal(job.number() as nat) + seq![']'];
    assert(head + Seq::<char>::empty() == head);
    assert(job_listing(m, ks)[i] == job_line(job, i, n));
}

/// `lines` is a listing of the jobs `m` as `jobs` prints it: one line per job (see
/// `job_line`), in some order that visits each job number once.
pub open spec fn is_job_listing(m: Map<usize, Job>, lines: Seq<Seq<char>>) -> bool {
    exists|ks: Seq<usize>| {
        &&& ks.no_duplicates()
        &&& ks.to_set() == m.dom()
        &&& lines.len() == ks.len()
        &&& forall|i: int| 0 <= i < ks.len() ==> #[trigger] lines[i] == job_line(m[ks[i]], i, ks.len() as int)
    }
}

impl Job {
    /// The process id.
    pub closed spec fn pid(&self) -> u32 {
        self.pid
    }

    /// The job number.
    pub closed spec fn number(&self) -> usize {
        self.number
    }

    /// The status.
    pub closed spec fn status(&self) -> Status {
        self.status
    }

    /// The command line: the command, a space and the arguments separated by spaces.
    pub closed spec fn command(&self) -> Seq<char> {
        self.command@
    }

    /// A running job for `command` with `arguments`.
    pub fn new(pid: u32, number: usize, command: String, arguments: &Vec<String>) -> (j: Job)
        ensures
            j.pid() == pid,
            j.number() == number,
            j.status() == Status::Running,
            j.command() == command@ + seq![' '] + join(views(arguments@), seq![' ']),
    {
        let mut line = command;
        push_char(&mut line, ' ');
        let args = join_all(arguments, " ");
        proof {
            reveal_strlit(" ");
            assert(" "@ == seq![' ']);
        }
        line.append(args.as_str());
        Job { pid, number, status: Status::Running, command: line }
    }

    /// The status name padded with spaces to 24 characters.
    pub fn status_string(&self) -> (r: String)
        ensures
            r@ == padded_status(self.status()),
    {
        let total_length: usize = 24;
        let status = self.status.string();
        proof {
            reveal_strlit("Running");
            reveal_strlit("Done");
        }
        let number_of_spaces = total_length - status.as_str().unicode_len();
        let mut result = String::new();
        result.append(status.as_str());
        let mut k: usize = 0;
        while k < number_of_spaces
            invariant
                k <= number_of_spaces,
                result@ == status@ + Seq::new(k as nat, |i: int| ' '),
            decreases number_of_spaces - k,
        {
            push_char(&mut result, ' ');
            assert(status@ + Seq::new((k + 1) as nat, |i: int| ' ') == (status@ + Seq::new(k as nat, |i: int| ' ')).push(' '));
            k += 1;
        }
        result
    }
}

/// The background jobs by job number.
pub struct Jobs {
    active_jobs: HashMap<usize, Job>,
}

impl Jobs {
    /// The jobs by number.
    pub closed spec fn jobs(&self) -> Map<usize, Job> {
        self.active_jobs@
    }

    /// The walk over the job numbers of the table (`HashMap::keys`): its `remaining()`
    /// visits every number once, in the same order for as long as the table is
    /// unchanged.
    pub closed spec fn key_walk(&self) -> std::collections::hash_map::Keys<'_, usize, Job> {
        vstd::std_specs::hash::spec_keys_iter(&self.active_jobs)
    }

    /// Each job is filed under its own number.
    #[verifier::type_invariant]
    closed spec fn filed_by_number(&self) -> bool {
        forall|k: usize| #[trigger] self.active_jobs@.contains_key(k) ==> self.active_jobs@[k].number == k
    }

    /// No job.
    pub fn new() -> (r: Jobs)
        ensures
            r.jobs() == Map::<usize, Job>::empty(),
    {
        Jobs { active_jobs: HashMap::new() }
    }

    /// Files `job` under its number, replacing a job with the same number.
    pub fn add_job(&mut self, job: Job)
        ensures
            final(self).jobs() == old(self).jobs().insert(job.number(), job),
    {
        proof {
            use_type_invariant(&*self);
        }
        let mut jobs: HashMap<usize, Job> = HashMap::new();
        std::mem::swap(&mut jobs, &mut self.active_jobs);
        let n = job.number;
        jobs.insert(n, job);
        self.active_jobs = jobs;
    }

    /// The number for the next job: one more than the number of jobs (saturating).
    pub fn get_next_job_number(&self) -> (r: usize)
        ensures
            r == (if self.jobs().dom().len() < usize::MAX { (self.jobs().dom().len() + 1) as usize } else { usize::MAX }),
    {
        self.active_jobs.len().saturating_add(1)
    }

    /// The lines that `jobs` prints, one per job, in the order in which the table walks
    /// its job numbers (see `job_listing` and `key_walk`).
    pub fn get_all_jobs(&self) -> (r: Vec<String>)
        ensures
            views(r@) == job_listing(self.jobs(), self.key_walk().remaining().unref()),
            self.key_walk().remaining().unref().no_duplicates(),
            self.key_walk().remaining().unref().to_set() == self.jobs().dom(),
            is_job_listing(self.jobs(), views(r@)),
    {
        let mut keys: Vec<usize> = Vec::new();
        let ghost all = vstd::std_specs::hash::spec_keys_iter(&self.active_jobs).remaining().unref();
        for k in it: self.active_jobs.keys()
            invariant
                keys@ == it.seq().unref().take(it.index()),
                it.seq().unref() == all,
        {
            keys.push(*k);
            assert(it.seq().unref().take(it.index() + 1) == it.seq().unref().take(it.index()).push(*k));
        }
        assert(keys@ == all);
        assert(keys@.no_duplicates());
        assert(keys@.to_set() == self.jobs().dom());
        let n = keys.len();
        let mut result: Vec<String> = Vec::new();
        let mut i: usize = 0;
        while i < n
            invariant
                n == keys@.len(),
                keys@.to_set() == self.jobs().dom(),
                i <= n,
                result@.len() == i,
                forall|k: int| 0 <= k < i ==> #[trigger] result@[k]@ == job_line(self.jobs()[keys@[k]], k, n as int),
            decreases n - i,
        {
            assert(keys@.to_set().contains(keys@[i as int]));
            let job = self.active_jobs.get(&keys[i]).unwrap();
            let mut line = String::new();
            push_char(&mut line, '[');
            let num = decimal_string(job.number);
            line.append(num.as_str());
            push_char(&mut line, ']');
            if i == n - 1 {
                push_char(&mut line, '+');
            }
            if n >= 2 && i == n - 2 {
                push_char(&mut line, '-');
            }
            push_char(&mut line, ' ');
            push_char(&mut line, ' ');
            let status = job.status_string();
            line.append(status.as_str());
            line.append(job.command.as_str());
            assert(line@ == job_line(*job, i as int, n as int));
            result.push(line);
            i += 1;
        }
        assert(forall|k: int| 0 <= k < n ==> #[trigger] views(result@)[k] == result@[k]@);
        assert(keys@ == self.key_walk().remaining().unref());
        assert(views(result@) == job_listing(self.jobs(), self.key_walk().remaining().unref()));
        result
    }
}

} // verus!
