//! The shell context: job table, aliases, shell-scoped variables and the
//! record of the previous command.
use std::collections::HashMap;
use vstd::prelude::*;
use vstd::string::*;

use crate::strs::{chars_of, ends_with, ends_with_exec, eq_str, owned};
use crate::types::Job;

verus! {

broadcast use {vstd::std_specs::hash::group_hash_axioms, vstd::std_specs::vec::group_vec_axioms};

/// What a non-blocking wait reported for one child.
#[derive(Clone, Copy, Debug, PartialEq, Eq, Structural)]
pub enum ChildEvent {
    Exited(i32),
    Signaled(i32),
    Stopped,
    Continued,
}

/// Job ids are looked up in `1..=MAX_JOB_ID`.
pub const MAX_JOB_ID: i32 = 65534;

/// The shell's state for the life of the process: jobs by id, aliases and
/// shell-scoped variables (later bindings shadow earlier ones), the line
/// being run, and the previous line with its status and directory.
pub struct Shell {
    pub jobs: HashMap<i32, Job>,
    pub alias: Vec<(String, String)>,
    pub envs: Vec<(String, String)>,
    pub cmd: String,
    pub previous_dir: String,
    pub previous_cmd: String,
    pub previous_status: i32,
}

/// The job table's invariant: every job is stored under its own id, ids lie
/// in `1..=MAX_JOB_ID`, every job holds at least one pid, and no two jobs
/// share a process group.
pub open spec fn jobs_wf(m: Map<i32, Job>) -> bool {
    &&& forall|k: i32|
        #![trigger m[k]]
        m.contains_key(k) ==> 1 <= k <= MAX_JOB_ID && m[k].id == k && m[k].pids@.len() >= 1
    &&& forall|k1: i32, k2: i32|
        #![trigger m[k1], m[k2]]
        m.contains_key(k1) && m.contains_key(k2) && m[k1].gid == m[k2].gid ==> k1 == k2
}

/// The id of some job of process group `gid`, if any.
pub open spec fn has_gid(m: Map<i32, Job>, gid: i32) -> bool {
    exists|k: i32| m.contains_key(k) && #[trigger] m[k].gid == gid
}

/// `k` is the smallest positive integer that is not a job id.
pub open spec fn is_lowest_free_id(m: Map<i32, Job>, k: i32) -> bool {
    &&& k >= 1
    &&& !m.contains_key(k)
    &&& forall|j: i32| 1 <= j < k ==> m.contains_key(j)
}

/// `s` without the first occurrence of `x`.
pub open spec fn remove_first(s: Seq<i32>, x: i32) -> Seq<i32>
    decreases s.len(),
{
    if s.len() == 0 {
        s
    } else if s[0] == x {
        s.drop_first()
    } else {
        seq![s[0]] + remove_first(s.drop_first(), x)
    }
}

/// The command text stored for a job that runs in the background.
pub open spec fn job_cmd(cmd: Seq<char>, bg: bool) -> Seq<char> {
    if bg && !ends_with(cmd, seq!['&']) {
        cmd + seq![' ', '&']
    } else {
        cmd
    }
}

/// The command text after a job is resumed.
pub open spec fn resumed_cmd(cmd: Seq<char>, bg: bool) -> Seq<char> {
    if bg && !ends_with(cmd, seq![' ', '&']) {
        cmd + seq![' ', '&']
    } else {
        cmd
    }
}

/// `n` is the table `o` after the job of process group `gid`, if any, is
/// resumed (`bg`: in the background).
pub open spec fn resumed(o: Map<i32, Job>, n: Map<i32, Job>, gid: i32, bg: bool) -> bool {
    &&& !has_gid(o, gid) ==> n == o
    &&& has_gid(o, gid) ==> exists|k: i32|
        {
            &&& o.contains_key(k)
            &&& o[k].gid == gid
            &&& n.remove(k) == o.remove(k)
            &&& n.contains_key(k)
            &&& #[trigger] n[k].status@ == seq!['R', 'u', 'n', 'n', 'i', 'n', 'g']
            &&& n[k].report == bg
            &&& n[k].cmd@ == resumed_cmd(o[k].cmd@, bg)
            &&& n[k].id == o[k].id
            &&& n[k].gid == gid
            &&& n[k].pids == o[k].pids
        }
}

/// `n` is the table `o` after the job of process group `gid`, if any, is
/// marked stopped.
pub open spec fn stopped(o: Map<i32, Job>, n: Map<i32, Job>, gid: i32) -> bool {
    &&& !has_gid(o, gid) ==> n == o
    &&& has_gid(o, gid) ==> exists|k: i32|
        {
            &&& o.contains_key(k)
            &&& o[k].gid == gid
            &&& n.remove(k) == o.remove(k)
            &&& n.contains_key(k)
            &&& #[trigger] n[k].status@ == seq!['S', 't', 'o', 'p', 'p', 'e', 'd']
            &&& n[k].report == o[k].report
            &&& n[k].cmd == o[k].cmd
            &&& n[k].id == o[k].id
            &&& n[k].gid == gid
            &&& n[k].pids == o[k].pids
        }
}

/// `n` and `r` are the table `o` and the result after `pid` leaves the job
/// of process group `gid`: a job left with no pid leaves the table and is
/// the result.
pub open spec fn pid_removed(
    o: Map<i32, Job>,
    n: Map<i32, Job>,
    gid: i32,
    pid: i32,
    r: Option<Job>,
) -> bool {
    &&& !has_gid(o, gid) ==> n == o && r is None
    &&& has_gid(o, gid) ==> exists|k: i32|
        {
            let job = o[k];
            let left = remove_first(job.pids@, pid);
            &&& o.contains_key(k)
            &&& #[trigger] o[k].gid == gid
            &&& left.len() == 0 ==> {
                &&& n == o.remove(k)
                &&& r matches Some(j) && j.pids@ == left && j.id == k && j.gid == gid && j.cmd
                    == job.cmd && j.status == job.status && j.report == job.report
            }
            &&& left.len() > 0 ==> {
                &&& r is None
                &&& n.remove(k) == o.remove(k)
                &&& n.contains_key(k)
                &&& n[k].pids@ == left
                &&& n[k].id == k
                &&& n[k].gid == gid
                &&& n[k].cmd == job.cmd
                &&& n[k].status == job.status
                &&& n[k].report == job.report
            }
        }
}

proof fn lemma_remove_first_index(s: Seq<i32>, x: i32, j: int)
    requires
        0 <= j < s.len(),
        s[j] == x,
        forall|k: int| 0 <= k < j ==> s[k] != x,
    ensures
        remove_first(s, x) == s.remove(j),
    decreases s.len(),
{
    if j == 0 {
        assert(s.drop_first() =~= s.remove(0));
    } else {
        lemma_remove_first_index(s.drop_first(), x, j - 1);
        assert(seq![s[0]] + s.drop_first().remove(j - 1) =~= s.remove(j));
    }
}

proof fn lemma_remove_first_absent(s: Seq<i32>, x: i32)
    requires
        forall|k: int| 0 <= k < s.len() ==> s[k] != x,
    ensures
        remove_first(s, x) == s,
    decreases s.len(),
{
    if s.len() > 0 {
        lemma_remove_first_absent(s.drop_first(), x);
        assert(seq![s[0]] + s.drop_first() =~= s);
    }
}

/// If every id in `1..=n` is taken, the table holds at least `n` jobs.
proof fn lemma_ids_cover(m: Map<i32, Job>, n: i32)
    requires
        0 <= n <= MAX_JOB_ID,
        m.dom().finite(),
        forall|j: i32| 1 <= j <= n ==> m.contains_key(j),
    ensures
        m.dom().len() >= n,
{
    let ids = Set::<i32>::range(1, (n + 1) as i32);
    vstd::set_lib::range_set_properties::<i32>(1, (n + 1) as i32);
    assert(ids.subset_of(m.dom()));
    vstd::set_lib::lemma_len_subset(ids, m.dom());
}

/// Storing a job under its own id keeps the table well formed when no
/// other job has its process group.
proof fn lemma_wf_insert(m: Map<i32, Job>, k: i32, job: Job)
    requires
        jobs_wf(m),
        1 <= k <= MAX_JOB_ID,
        job.id == k,
        job.pids@.len() >= 1,
        forall|k2: i32| #[trigger] m.contains_key(k2) && k2 != k ==> m[k2].gid != job.gid,
    ensures
        jobs_wf(m.insert(k, job)),
{
    let m2 = m.insert(k, job);
    assert forall|k1: i32, k2: i32|
        m2.contains_key(k1) && m2.contains_key(k2) && #[trigger] m2[k1].gid == #[trigger] m2[k2].gid
        implies k1 == k2 by {
        if k1 != k && k2 != k {
            assert(m[k1].gid == m[k2].gid);
        }
    }
}

proof fn lemma_wf_remove(m: Map<i32, Job>, k: i32)
    requires
        jobs_wf(m),
    ensures
        jobs_wf(m.remove(k)),
{
    let m2 = m.remove(k);
    assert forall|k1: i32, k2: i32|
        m2.contains_key(k1) && m2.contains_key(k2) && #[trigger] m2[k1].gid == #[trigger] m2[k2].gid
        implies k1 == k2 by {
        assert(m[k1].gid == m[k2].gid);
    }
    assert forall|k1: i32| #[trigger] m2.contains_key(k1) implies 1 <= k1 <= MAX_JOB_ID
        && m2[k1].id == k1 && m2[k1].pids@.len() >= 1 by {
        assert(m[k1].id == k1);
    }
}

/// The value bound to `k` by the list of bindings `v`; a later binding
/// shadows an earlier one.
pub open spec fn lookup(v: Seq<(String, String)>, k: Seq<char>) -> Option<Seq<char>>
    decreases v.len(),
{
    if v.len() == 0 {
        None
    } else if v.last().0@ == k {
        Some(v.last().1@)
    } else {
        lookup(v.drop_last(), k)
    }
}

/// The bindings `v` after binding `k` to `val`.
pub open spec fn bound(v: Seq<(String, String)>, k: Seq<char>, val: Seq<char>, q: Seq<char>) -> Option<
    Seq<char>,
> {
    if q == k {
        Some(val)
    } else {
        lookup(v, q)
    }
}

proof fn lemma_lookup_update(v: Seq<(String, String)>, j: int, p: (String, String), q: Seq<char>)
    requires
        0 <= j < v.len(),
        v[j].0@ == p.0@,
        forall|m: int| j < m < v.len() ==> v[m].0@ != p.0@,
    ensures
        lookup(v.update(j, p), q) == bound(v, p.0@, p.1@, q),
    decreases v.len(),
{
    let w = v.update(j, p);
    if j == v.len() - 1 {
        assert(w.drop_last() =~= v.drop_last());
    } else {
        assert(w.drop_last() =~= v.drop_last().update(j, p));
        assert(v.last().0@ != p.0@);
        if v.last().0@ != q {
            lemma_lookup_update(v.drop_last(), j, p, q);
        }
    }
}

/// Index of the last binding of `name`.
pub(crate) fn find_binding(v: &Vec<(String, String)>, name: &str) -> (r: Option<usize>)
    ensures
        match r {
            Some(j) => {
                &&& j < v@.len()
                &&& v@[j as int].0@ == name@
                &&& lookup(v@, name@) == Some(v@[j as int].1@)
                &&& forall|m: int| j < m < v@.len() ==> v@[m].0@ != name@
            },
            None => lookup(v@, name@) is None,
        },
{
    let mut i: usize = v.len();
    assert(v@.subrange(0, i as int) =~= v@);
    while i > 0
        invariant
            i <= v@.len(),
            lookup(v@, name@) == lookup(v@.subrange(0, i as int), name@),
            forall|m: int| i <= m < v@.len() ==> v@[m].0@ != name@,
        decreases i,
    {
        let ghost w = v@.subrange(0, i as int);
        if eq_str(&v[i - 1].0, name) {
            return Some(i - 1);
        }
        assert(w.drop_last() =~= v@.subrange(0, i - 1));
        i = i - 1;
    }
    None
}

/// Binds `name` to `value` in `v`, replacing an earlier binding.
fn bind(v: &mut Vec<(String, String)>, name: &str, value: &str)
    ensures
        forall|q: Seq<char>| #[trigger]
            lookup(final(v)@, q) == bound(old(v)@, name@, value@, q),
{
    let p = (owned(name), owned(value));
    match find_binding(v, name) {
        Some(j) => {
            let ghost before = v@;
            v.set(j, p);
            assert forall|q: Seq<char>| #[trigger]
                lookup(v@, q) == bound(before, name@, value@, q) by {
                lemma_lookup_update(before, j as int, p, q);
            }
        },
        None => {
            let ghost before = v@;
            v.push(p);
            assert forall|q: Seq<char>| #[trigger]
                lookup(v@, q) == bound(before, name@, value@, q) by {
                assert(v@.drop_last() =~= before);
            }
        },
    }
}

impl Shell {
    pub open spec fn wf(&self) -> bool {
        jobs_wf(self.jobs@)
    }

    /// The line being run and the previous line, its status and directory
    /// are the same in `self` and `o`.
    pub open spec fn same_record(&self, o: &Shell) -> bool {
        &&& self.cmd == o.cmd
        &&& self.previous_dir == o.previous_dir
        &&& self.previous_cmd == o.previous_cmd
        &&& self.previous_status == o.previous_status
    }

    pub fn new() -> (r: Shell)
        ensures
            r.wf(),
            r.jobs@ == Map::<i32, Job>::empty(),
            r.alias@.len() == 0,
            r.envs@.len() == 0,
            r.cmd@.len() == 0,
            r.previous_dir@.len() == 0,
            r.previous_cmd@.len() == 0,
            r.previous_status == 0,
    {
        Shell {
            jobs: HashMap::new(),
            alias: Vec::new(),
            envs: Vec::new(),
            cmd: String::new(),
            previous_dir: String::new(),
            previous_cmd: String::new(),
            previous_status: 0,
        }
    }

    /// The id of the job of process group `gid`.
    fn find_gid(&self, gid: i32) -> (r: Option<i32>)
        requires
            self.wf(),
        ensures
            match r {
                Some(k) => self.jobs@.contains_key(k) && self.jobs@[k].gid == gid,
                None => !has_gid(self.jobs@, gid),
            },
    {
        let mut i: i32 = 1;
        while i <= MAX_JOB_ID
            invariant
                1 <= i <= MAX_JOB_ID + 1,
                self.wf(),
                forall|k: i32|
                    1 <= k < i && #[trigger] self.jobs@.contains_key(k) ==> self.jobs@[k].gid
                        != gid,
            decreases MAX_JOB_ID + 1 - i,
        {
            match self.jobs.get(&i) {
                Some(x) => {
                    if x.gid == gid {
                        return Some(i);
                    }
                },
                None => {},
            }
            i = i + 1;
        }
        assert forall|k: i32| self.jobs@.contains_key(k) implies #[trigger] self.jobs@[k].gid
            != gid by {
            assert(self.jobs@[k].id == k);
        }
        None
    }

    /// The smallest positive integer that is not a job id.
    fn lowest_free_id(&self) -> (r: i32)
        requires
            self.wf(),
            self.jobs@.dom().len() < MAX_JOB_ID,
        ensures
            is_lowest_free_id(self.jobs@, r),
            r <= MAX_JOB_ID,
    {
        let mut i: i32 = 1;
        loop
            invariant
                1 <= i <= MAX_JOB_ID,
                self.wf(),
                self.jobs@.dom().len() < MAX_JOB_ID,
                forall|j: i32| 1 <= j < i ==> self.jobs@.contains_key(j),
            decreases MAX_JOB_ID - i,
        {
            if !self.jobs.contains_key(&i) {
                return i;
            }
            proof {
                if i == MAX_JOB_ID {
                    assert(self.jobs@.dom().finite());
                    lemma_ids_cover(self.jobs@, MAX_JOB_ID);
                }
            }
            i = i + 1;
        }
    }

    /// Records `pid` in the job of process group `gid`, or creates that job
    /// under the lowest free id; the table must have room for one more job.
    /// A background job's command gets a trailing ` &`.
    pub fn insert_job(&mut self, gid: i32, pid: i32, cmd: &str, status: &str, bg: bool)
        requires
            old(self).wf(),
            old(self).jobs@.dom().len() < MAX_JOB_ID,
        ensures
            final(self).wf(),
            final(self).alias == old(self).alias,
            final(self).envs == old(self).envs,
            final(self).same_record(old(self)),
            final(self).same_record(old(self)),
            has_gid(old(self).jobs@, gid) ==> exists|k: i32|
                {
                    &&& old(self).jobs@.contains_key(k)
                    &&& old(self).jobs@[k].gid == gid
                    &&& final(self).jobs@.remove(k) == old(self).jobs@.remove(k)
                    &&& final(self).jobs@.contains_key(k)
                    &&& #[trigger] final(self).jobs@[k].pids@ == old(self).jobs@[k].pids@.push(pid)
                    &&& final(self).jobs@[k].cmd == old(self).jobs@[k].cmd
                    &&& final(self).jobs@[k].gid == gid
                    &&& final(self).jobs@[k].status == old(self).jobs@[k].status
                    &&& final(self).jobs@[k].report == old(self).jobs@[k].report
                },
            !has_gid(old(self).jobs@, gid) ==> exists|k: i32|
                {
                    &&& is_lowest_free_id(old(self).jobs@, k)
                    &&& final(self).jobs@.remove(k) == old(self).jobs@
                    &&& final(self).jobs@.contains_key(k)
                    &&& #[trigger] final(self).jobs@[k].id == k
                    &&& final(self).jobs@[k].gid == gid
                    &&& final(self).jobs@[k].pids@ == seq![pid]
                    &&& final(self).jobs@[k].cmd@ == job_cmd(cmd@, bg)
                    &&& final(self).jobs@[k].status@ == status@
                    &&& final(self).jobs@[k].report == bg
                },
    {
        match self.find_gid(gid) {
            Some(k) => {
                let ghost before = self.jobs@;
                let mut job = self.jobs.remove(&k).unwrap();
                job.pids.push(pid);
                let ghost j = job;
                proof {
                    assert(before[k].id == k);
                    lemma_wf_insert(before, k, job);
                }
                self.jobs.insert(k, job);
                assert(self.jobs@ == before.remove(k).insert(k, j));
                assert(self.jobs@ =~= before.insert(k, j));
                assert(self.jobs@.remove(k) =~= before.remove(k));
                assert(self.jobs@[k].pids@ == before[k].pids@.push(pid));
            },
            None => {
                let k = self.lowest_free_id();
                let mut c = owned(cmd);
                let amp = chars_of("&");
                let cv = chars_of(cmd);
                proof {
                    reveal_strlit("&");
                    reveal_strlit(" &");
                    assert(amp@ =~= seq!['&']);
                }
                if bg && !ends_with_exec(&cv, &amp) {
                    c.append(" &");
                    assert(" &"@ =~= seq![' ', '&']);
                }
                let job = Job {
                    cmd: c,
                    id: k,
                    gid: gid,
                    pids: vec![pid],
                    status: owned(status),
                    report: bg,
                };
                let ghost before = self.jobs@;
                let ghost j = job;
                proof {
                    lemma_wf_insert(before, k, job);
                }
                self.jobs.insert(k, job);
                assert(self.jobs@ == before.insert(k, j));
                assert(self.jobs@.remove(k) =~= before);
                assert(self.jobs@[k].id == k);
            },
        }
    }

    pub fn get_job_by_id(&self, job_id: i32) -> (r: Option<&Job>)
        ensures
            match r {
                Some(j) => self.jobs@.contains_key(job_id) && *j == self.jobs@[job_id],
                None => !self.jobs@.contains_key(job_id),
            },
    {
        self.jobs.get(&job_id)
    }

    pub fn get_job_by_gid(&self, gid: i32) -> (r: Option<&Job>)
        requires
            self.wf(),
        ensures
            match r {
                Some(j) => j.gid == gid && exists|k: i32|
                    self.jobs@.contains_key(k) && *j == #[trigger] self.jobs@[k],
                None => !has_gid(self.jobs@, gid),
            },
    {
        match self.find_gid(gid) {
            Some(k) => self.jobs.get(&k),
            None => None,
        }
    }

    pub fn mark_job_as_running(&mut self, gid: i32, bg: bool)
        requires
            old(self).wf(),
        ensures
            final(self).wf(),
            final(self).alias == old(self).alias,
            final(self).envs == old(self).envs,
            final(self).same_record(old(self)),
            resumed(old(self).jobs@, final(self).jobs@, gid, bg),
    {
        match self.find_gid(gid) {
            Some(k) => {
                let ghost before = self.jobs@;
                let mut job = self.jobs.remove(&k).unwrap();
                job.status = owned("Running");
                job.report = bg;
                let suffix = chars_of(" &");
                let cv = chars_of(job.cmd.as_str());
                proof {
                    reveal_strlit(" &");
                    reveal_strlit("Running");
                    assert(suffix@ =~= seq![' ', '&']);
                    assert("Running"@ =~= seq!['R', 'u', 'n', 'n', 'i', 'n', 'g']);
                }
                if bg && !ends_with_exec(&cv, &suffix) {
                    job.cmd.append(" &");
                }
                let ghost j = job;
                proof {
                    assert(before[k].id == k);
                    lemma_wf_insert(before, k, job);
                }
                self.jobs.insert(k, job);
                assert(self.jobs@ =~= before.insert(k, j));
                assert(self.jobs@.remove(k) =~= before.remove(k));
                assert(self.jobs@[k].status@ == seq!['R', 'u', 'n', 'n', 'i', 'n', 'g']);
            },
            None => {},
        }
    }

    pub fn mark_job_as_stopped(&mut self, gid: i32)
        requires
            old(self).wf(),
        ensures
            final(self).wf(),
            final(self).alias == old(self).alias,
            final(self).envs == old(self).envs,
            final(self).same_record(old(self)),
            stopped(old(self).jobs@, final(self).jobs@, gid),
    {
        match self.find_gid(gid) {
            Some(k) => {
                let ghost before = self.jobs@;
                let mut job = self.jobs.remove(&k).unwrap();
                job.status = owned("Stopped");
                proof {
                    reveal_strlit("Stopped");
                    assert("Stopped"@ =~= seq!['S', 't', 'o', 'p', 'p', 'e', 'd']);
                }
                let ghost j = job;
                proof {
                    assert(before[k].id == k);
                    lemma_wf_insert(before, k, job);
                }
                self.jobs.insert(k, job);
                assert(self.jobs@ =~= before.insert(k, j));
                assert(self.jobs@.remove(k) =~= before.remove(k));
                assert(self.jobs@[k].status@ == seq!['S', 't', 'o', 'p', 'p', 'e', 'd']);
            },
            None => {},
        }
    }

    /// Takes `pid` out of the job of process group `gid`; once the job has
    /// no pid left it leaves the table and is returned.
    pub fn remove_pid_from_job(&mut self, gid: i32, pid: i32) -> (r: Option<Job>)
        requires
            old(self).wf(),
        ensures
            final(self).wf(),
            final(self).alias == old(self).alias,
            final(self).envs == old(self).envs,
            final(self).same_record(old(self)),
            pid_removed(old(self).jobs@, final(self).jobs@, gid, pid, r),
    {
        match self.find_gid(gid) {
            Some(k) => {
                let ghost before = self.jobs@;
                let mut job = self.jobs.remove(&k).unwrap();
                let ghost old_pids = job.pids@;
                let mut i: usize = 0;
                while i < job.pids.len() && job.pids[i] != pid
                    invariant
                        i <= job.pids@.len(),
                        job.pids@ == old_pids,
                        forall|m: int| 0 <= m < i ==> old_pids[m] != pid,
                    decreases job.pids@.len() - i,
                {
                    i = i + 1;
                }
                if i < job.pids.len() {
                    proof {
                        lemma_remove_first_index(old_pids, pid, i as int);
                    }
                    job.pids.remove(i);
                } else {
                    proof {
                        lemma_remove_first_absent(old_pids, pid);
                    }
                }
                assert(job.pids@ == remove_first(before[k].pids@, pid));
                if job.pids.len() == 0 {
                    assert(self.jobs@ == before.remove(k));
                    proof {
                        lemma_wf_remove(before, k);
                    }
                    Some(job)
                } else {
                    let ghost j = job;
                    proof {
                        assert(before[k].id == k);
                        lemma_wf_insert(before, k, job);
                    }
                    self.jobs.insert(k, job);
                    assert(self.jobs@ =~= before.insert(k, j));
                    assert(self.jobs@.remove(k) =~= before.remove(k));
                    None
                }
            },
            None => None,
        }
    }

    /// The reaper's step for one reaped child `pid` of process group `gid`:
    /// a stop marks its job stopped, a continue marks it running in the
    /// background, and an exit or a fatal signal takes the pid out of its
    /// job, which comes back once it has no pid left.
    pub fn on_child_event(&mut self, gid: i32, pid: i32, ev: ChildEvent) -> (r: Option<Job>)
        requires
            old(self).wf(),
        ensures
            final(self).wf(),
            final(self).alias == old(self).alias,
            final(self).envs == old(self).envs,
            final(self).same_record(old(self)),
            ev == ChildEvent::Stopped ==> stopped(old(self).jobs@, final(self).jobs@, gid)
                && r is None,
            ev == ChildEvent::Continued ==> resumed(old(self).jobs@, final(self).jobs@, gid, true)
                && r is None,
            (ev is Exited || ev is Signaled) ==> pid_removed(
                old(self).jobs@,
                final(self).jobs@,
                gid,
                pid,
                r,
            ),
    {
        match ev {
            ChildEvent::Stopped => {
                self.mark_job_as_stopped(gid);
                None
            },
            ChildEvent::Continued => {
                self.mark_job_as_running(gid, true);
                None
            },
            _ => self.remove_pid_from_job(gid, pid),
        }
    }

    /// Binds the shell-scoped variable `name`.
    pub fn set_env(&mut self, name: &str, value: &str)
        ensures
            forall|q: Seq<char>| #[trigger]
                lookup(final(self).envs@, q) == bound(old(self).envs@, name@, value@, q),
            final(self).jobs == old(self).jobs,
            final(self).alias == old(self).alias,
            final(self).same_record(old(self)),
    {
        bind(&mut self.envs, name, value);
    }

    /// Writes variable `name`. When the process environment already has it
    /// (`in_os_env`), the shell is left as it is and `true` says that the
    /// caller writes the process environment; otherwise the shell's own
    /// binding is set and `false` comes back.
    pub fn set_var(&mut self, name: &str, value: &str, in_os_env: bool) -> (r: bool)
        ensures
            r == in_os_env,
            in_os_env ==> final(self).envs == old(self).envs,
            !in_os_env ==> forall|q: Seq<char>| #[trigger]
                lookup(final(self).envs@, q) == bound(old(self).envs@, name@, value@, q),
            final(self).jobs == old(self).jobs,
            final(self).alias == old(self).alias,
            final(self).same_record(old(self)),
    {
        if !in_os_env {
            self.set_env(name, value);
        }
        in_os_env
    }

    pub fn get_env(&self, name: &str) -> (r: Option<String>)
        ensures
            match lookup(self.envs@, name@) {
                Some(v) => r matches Some(x) && x@ == v,
                None => r is None,
            },
    {
        match find_binding(&self.envs, name) {
            Some(j) => Some(self.envs[j].1.clone()),
            None => None,
        }
    }

    pub fn add_alias(&mut self, name: &str, value: &str)
        ensures
            forall|q: Seq<char>| #[trigger]
                lookup(final(self).alias@, q) == bound(old(self).alias@, name@, value@, q),
            final(self).jobs == old(self).jobs,
            final(self).envs == old(self).envs,
            final(self).same_record(old(self)),
    {
        bind(&mut self.alias, name, value);
    }

    pub fn is_alias(&self, name: &str) -> (r: bool)
        ensures
            r == lookup(self.alias@, name@) is Some,
    {
        find_binding(&self.alias, name).is_some()
    }

    /// The text an alias stands for, unless it is empty.
    pub fn get_alias_content(&self, name: &str) -> (r: Option<String>)
        ensures
            match lookup(self.alias@, name@) {
                Some(v) => if v.len() > 0 {
                    r matches Some(x) && x@ == v
                } else {
                    r is None
                },
                None => r is None,
            },
    {
        match find_binding(&self.alias, name) {
            Some(j) => {
                let x = self.alias[j].1.clone();
                if x.as_str().unicode_len() == 0 {
                    None
                } else {
                    Some(x)
                }
            },
            None => None,
        }
    }
}

/// The status a shell reports for a process killed by signal `sig`.
pub fn signal_status(sig: i32) -> (r: i32)
    requires
        0 <= sig <= 127,
    ensures
        r == 128 + sig,
{
    128 + sig
}

} // verus!
