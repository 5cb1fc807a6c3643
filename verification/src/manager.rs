//! The store and its reconciliation logic: upserting jobs and assignments,
//! pruning, fuzzy lookup by link name, the changed-set computation, the
//! merge/catch-up pass, and the choice of which changes to forward.

use vstd::prelude::*;

use crate::model::Assignment;
use crate::model::AssignmentView;
use crate::model::Job;
use crate::model::JobView;
use crate::model::char_match;
use crate::model::identity_eq;
use crate::model::link_matches;
use crate::model::past_due_at;
use crate::model::slug_of;
use crate::model::sync_due_at;
use crate::model::with_fixed_link;
use crate::model::with_synced_true;

verus! {

/// The views of a sequence of assignments, element for element.
pub open spec fn views_of(s: Seq<Assignment>) -> Seq<AssignmentView> {
    s.map_values(|a: Assignment| a@)
}

/// The first job of the given name, scanning in order.
pub open spec fn first_job_named(jobs: Seq<JobView>, name: Seq<char>) -> Option<JobView>
    decreases jobs.len(),
{
    if jobs.len() == 0 {
        Option::None
    } else if jobs.first().name == name {
        Option::Some(jobs.first())
    } else {
        first_job_named(jobs.drop_first(), name)
    }
}

/// The first assignment identity-equal to `c`, scanning in order.
pub open spec fn find_identity(s: Seq<AssignmentView>, c: AssignmentView) -> Option<AssignmentView>
    decreases s.len(),
{
    if s.len() == 0 {
        Option::None
    } else if identity_eq(s.first(), c) {
        Option::Some(s.first())
    } else {
        find_identity(s.drop_first(), c)
    }
}

/// The first assignment whose name matches `link` under the fuzzy rule,
/// scanning in order.
pub open spec fn first_link_match(s: Seq<AssignmentView>, link: Seq<char>) -> Option<AssignmentView>
    decreases s.len(),
{
    if s.len() == 0 {
        Option::None
    } else if link_matches(s.first().name, link) {
        Option::Some(s.first())
    } else {
        first_link_match(s.drop_first(), link)
    }
}

/// A candidate must be forwarded: it is new to the store, or the stored
/// assignment with the same identity carries a different due date.
pub open spec fn changed_wrt(s: Seq<AssignmentView>, c: AssignmentView) -> bool {
    match find_identity(s, c) {
        Option::None => true,
        Option::Some(a) => a.due != c.due,
    }
}

/// Upserting one assignment: every identity-equal entry is removed and the
/// new one is appended at the end.
pub open spec fn upsert(s: Seq<AssignmentView>, a: AssignmentView) -> Seq<AssignmentView> {
    s.filter(|x: AssignmentView| !identity_eq(x, a)).push(a)
}

/// Upserting a list of assignments, left to right.
pub open spec fn upsert_all(s: Seq<AssignmentView>, cs: Seq<AssignmentView>) -> Seq<AssignmentView>
    decreases cs.len(),
{
    if cs.len() == 0 {
        s
    } else {
        upsert_all(upsert(s, cs.first()), cs.drop_first())
    }
}

/// An assignment the catch-up pass re-queues: never successfully notified,
/// or marked done.
pub open spec fn needs_push(a: AssignmentView) -> bool {
    a.synced != Option::Some(true) || a.done
}

/// What the catch-up pass appends to the changed set, given the store after
/// the merge: each re-queued assignment as it stood before its synced flag
/// was forced on, so the dispatch decision still sees the old flag.
pub open spec fn catch_up_extras(s: Seq<AssignmentView>) -> Seq<AssignmentView> {
    s.filter(|a: AssignmentView| needs_push(a))
}

/// The store after the catch-up pass: every assignment marked synced.
pub open spec fn all_synced(s: Seq<AssignmentView>) -> Seq<AssignmentView> {
    s.map_values(|a: AssignmentView| with_synced_true(a))
}

/// Assignments are in non-decreasing due order.
pub open spec fn sorted_by_due(s: Seq<AssignmentView>) -> bool {
    forall|i: int, j: int| 0 <= i <= j < s.len() ==> s[i].due <= s[j].due
}

/// The merged job a name collision produces: the mutable fields come from
/// the new job, the run history stays, and the next run is rescheduled one
/// new interval after the last one.
pub open spec fn merged_job(cur: JobView, j: JobView) -> JobView {
    JobView {
        path: j.path,
        sync_to_google: j.sync_to_google,
        sync_interval: j.sync_interval,
        next_sync: (cur.last_sync + j.sync_interval) as u64,
        ..cur
    }
}

/// Upserting a job by name: the first job of the same name is merged in
/// place; with no name collision the job is appended.
pub open spec fn upsert_job(jobs: Seq<JobView>, j: JobView) -> Seq<JobView>
    decreases jobs.len(),
{
    if jobs.len() == 0 {
        seq![j]
    } else if jobs.first().name == j.name {
        seq![merged_job(jobs.first(), j)] + jobs.drop_first()
    } else {
        seq![jobs.first()] + upsert_job(jobs.drop_first(), j)
    }
}

/// A changed assignment qualifies for dispatch downstream when its owning
/// job exists and wants forwarding, and its copy was not already marked
/// synced before this cycle's catch-up pass — or it is completed, which is
/// re-sent every cycle so downstream stays informed of completion state.
pub open spec fn should_notify(jobs: Seq<JobView>, a: AssignmentView) -> bool {
    match a.job_name {
        Option::None => false,
        Option::Some(jn) => match first_job_named(jobs, jn) {
            Option::None => false,
            Option::Some(j) => j.sync_to_google && (a.synced != Option::Some(true) || a.done),
        },
    }
}

/// Some element of `s` shares the given assignment's identity.
pub open spec fn contains_identity(s: Seq<AssignmentView>, a: AssignmentView) -> bool {
    exists|k: int| 0 <= k < s.len() && identity_eq(#[trigger] s[k], a)
}

/// What one cycle dispatches, given the changed set in order: each
/// qualifying assignment, but each identity at most once, so the same work
/// item is never sent twice within one cycle.
pub open spec fn dispatch_list(jobs: Seq<JobView>, s: Seq<AssignmentView>) -> Seq<AssignmentView>
    decreases s.len(),
{
    if s.len() == 0 {
        Seq::empty()
    } else {
        let rest = dispatch_list(jobs, s.drop_last());
        if should_notify(jobs, s.last()) && !contains_identity(rest, s.last()) {
            rest.push(s.last())
        } else {
            rest
        }
    }
}

/// Filtering commutes with appending one element at the end.
pub proof fn lemma_filter_push<A>(s: Seq<A>, x: A, p: spec_fn(A) -> bool)
    ensures
        s.push(x).filter(p) == (if p(x) {
            s.filter(p).push(x)
        } else {
            s.filter(p)
        }),
{
    reveal(Seq::filter);
    assert(s.push(x).drop_last() =~= s);
}

/// Upserting a whole list one element at a time, from the left, is the same
/// as upserting all but the last and then the last.
pub proof fn lemma_upsert_all_snoc(s: Seq<AssignmentView>, cs: Seq<AssignmentView>, c: AssignmentView)
    ensures
        upsert_all(s, cs.push(c)) == upsert(upsert_all(s, cs), c),
    decreases cs.len(),
{
    if cs.len() == 0 {
        assert(cs.push(c).first() == c);
        assert(cs.push(c).drop_first() =~= Seq::<AssignmentView>::empty());
        assert(upsert_all(s, cs.push(c)) == upsert_all(
            upsert(s, c),
            Seq::<AssignmentView>::empty(),
        ));
        assert(upsert_all(upsert(s, c), Seq::<AssignmentView>::empty()) == upsert(s, c));
        assert(upsert_all(s, cs) == s);
    } else {
        assert(cs.push(c).first() == cs.first());
        assert(cs.push(c).drop_first() =~= cs.drop_first().push(c));
        assert(upsert_all(s, cs.push(c)) == upsert_all(
            upsert(s, cs.first()),
            cs.drop_first().push(c),
        ));
        lemma_upsert_all_snoc(upsert(s, cs.first()), cs.drop_first(), c);
        assert(upsert_all(s, cs) == upsert_all(upsert(s, cs.first()), cs.drop_first()));
    }
}

/// Inserting an element anywhere in a sequence adds exactly it to the
/// sequence's multiset.
pub proof fn lemma_to_multiset_insert(s: Seq<AssignmentView>, pos: int, a: AssignmentView)
    requires
        0 <= pos <= s.len(),
    ensures
        s.insert(pos, a).to_multiset() == s.to_multiset().insert(a),
{
    broadcast use vstd::seq_lib::group_to_multiset_ensures;
    broadcast use vstd::multiset::group_multiset_axioms;

    let t = s.insert(pos, a);
    s.insert_ensures(pos, a);
    assert(t.remove(pos) =~= s);
    assert(t.to_multiset().remove(a) =~= s.to_multiset());
    assert(t.contains(a)) by {
        assert(t[pos] == a);
    }
    assert(t.to_multiset().count(a) > 0);
    assert(t.to_multiset() =~= s.to_multiset().insert(a)) by {
        assert(forall|x: AssignmentView|
            x != a ==> #[trigger] t.to_multiset().count(x) == t.to_multiset().remove(a).count(x));
        assert(s.to_multiset().insert(a).count(a) == s.to_multiset().count(a) + 1);
        assert(t.to_multiset().remove(a).count(a) == t.to_multiset().count(a) - 1);
    }
}

/// Whether the list already holds an assignment of the same identity.
fn contains_identity_exec(v: &Vec<Assignment>, a: &Assignment) -> (r: bool)
    ensures
        r == contains_identity(views_of(v@), a@),
{
    let n = v.len();
    let mut i: usize = 0;
    while i < n
        invariant
            n == v@.len(),
            i <= n,
            forall|k: int| 0 <= k < i ==> !identity_eq(#[trigger] views_of(v@)[k], a@),
        decreases n - i,
    {
        proof {
            assert(views_of(v@)[i as int] == v@[i as int]@);
        }
        if v[i] == *a {
            proof {
                assert(identity_eq(views_of(v@)[i as int], a@));
            }
            return true;
        }
        i += 1;
    }
    false
}

/// The in-memory store: the configured jobs, the tracked assignments, and
/// the path its persisted copy lives at.
pub struct Manager {
    pub jobs: Vec<Job>,
    pub assignments: Vec<Assignment>,
    pub save_file: String,
}

#[verifier::ext_equal]
pub struct ManagerView {
    pub jobs: Seq<JobView>,
    pub assignments: Seq<AssignmentView>,
    pub save_file: Seq<char>,
}

impl View for Manager {
    type V = ManagerView;

    open spec fn view(&self) -> ManagerView {
        ManagerView {
            jobs: self.jobs@.map_values(|j: Job| j@),
            assignments: views_of(self.assignments@),
            save_file: self.save_file@,
        }
    }
}

impl Manager {
    /// A store with no jobs, no assignments and no chosen save location yet.
    pub fn empty() -> (r: Self)
        ensures
            r@.jobs == Seq::<JobView>::empty(),
            r@.assignments == Seq::<AssignmentView>::empty(),
            r@.save_file == Seq::<char>::empty(),
    {
        let r = Manager { jobs: Vec::new(), assignments: Vec::new(), save_file: String::new() };
        proof {
            assert(r@.jobs =~= Seq::<JobView>::empty());
            assert(r@.assignments =~= Seq::<AssignmentView>::empty());
        }
        r
    }

    /// Upsert a job by name: an existing job of the same name keeps its run
    /// history but takes the new path, forwarding choice and interval, and
    /// its next run is rescheduled; otherwise the job is appended.
    #[verifier::loop_isolation(false)]
    pub fn add_job(&mut self, job: Job)
        requires
            forall|i: int|
                0 <= i < old(self)@.jobs.len() && old(self)@.jobs[i].name == job@.name
                    ==> old(self)@.jobs[i].last_sync + job@.sync_interval <= u64::MAX,
        ensures
            final(self)@.jobs == upsert_job(old(self)@.jobs, job@),
            final(self)@.assignments == old(self)@.assignments,
            final(self)@.save_file == old(self)@.save_file,
    {
        let ghost m0 = self@;
        let ghost jobs0 = self@.jobs;
        let n = self.jobs.len();
        let mut i: usize = 0;
        proof {
            assert(jobs0.skip(0) =~= jobs0);
            assert(jobs0.subrange(0, 0) + upsert_job(jobs0, job@) =~= upsert_job(jobs0, job@));
        }
        while i < n
            invariant
                n == jobs0.len(),
                n == self.jobs@.len(),
                i <= n,
                self@ == m0,
                upsert_job(jobs0, job@) == jobs0.subrange(0, i as int) + upsert_job(
                    jobs0.skip(i as int),
                    job@,
                ),
                forall|k: int| 0 <= k < i ==> jobs0[k].name != job@.name,
            decreases n - i,
        {
            if self.jobs[i].name == job.name {
                let cur = self.jobs[i].clone();
                proof {
                    assert(self@.jobs[i as int] == self.jobs@[i as int]@);
                    assert(jobs0[i as int] == self@.jobs[i as int]);
                    assert(jobs0[i as int].name == job@.name);
                    assert(jobs0[i as int].last_sync + job@.sync_interval <= u64::MAX);
                }
                let next_sync = cur.last_sync + job.sync_interval;
                let merged = Job {
                    name: cur.name,
                    path: job.path,
                    sync_to_google: job.sync_to_google,
                    next_sync,
                    last_sync: cur.last_sync,
                    sync_interval: job.sync_interval,
                };
                proof {
                    let s = jobs0.skip(i as int);
                    assert(s.len() > 0);
                    assert(s.first() == jobs0[i as int]);
                    assert(merged@ == merged_job(jobs0[i as int], job@));
                    assert(s.drop_first() =~= jobs0.skip(i as int + 1));
                    assert(upsert_job(s, job@) == seq![merged_job(s.first(), job@)]
                        + s.drop_first());
                    assert(jobs0.subrange(0, i as int) + (seq![
                        merged_job(jobs0[i as int], job@),
                    ] + jobs0.skip(i as int + 1)) =~= jobs0.update(
                        i as int,
                        merged_job(jobs0[i as int], job@),
                    ));
                }
                self.jobs[i] = merged;
                proof {
                    assert(self@.jobs =~= jobs0.update(
                        i as int,
                        merged_job(jobs0[i as int], job@),
                    ));
                }
                return ;
            }
            proof {
                let s = jobs0.skip(i as int);
                assert(s.len() > 0);
                assert(s.first() == jobs0[i as int]);
                assert(self@.jobs[i as int] == self.jobs@[i as int]@);
                assert(jobs0[i as int] == self@.jobs[i as int]);
                assert(s.first().name != job@.name);
                assert(upsert_job(s, job@) == seq![s.first()] + upsert_job(s.drop_first(), job@));
                assert(s.drop_first() =~= jobs0.skip(i as int + 1));
                assert(jobs0.subrange(0, i as int) + (seq![jobs0[i as int]] + upsert_job(
                    jobs0.skip(i as int + 1),
                    job@,
                )) =~= jobs0.subrange(0, i as int + 1) + upsert_job(jobs0.skip(i as int + 1), job@));
            }
            i += 1;
        }
        proof {
            assert(jobs0.skip(n as int) =~= Seq::<JobView>::empty());
            assert(upsert_job(Seq::<JobView>::empty(), job@) == seq![job@]);
            assert(jobs0.subrange(0, n as int) + seq![job@] =~= jobs0.push(job@));
        }
        self.jobs.push(job);
        proof {
            assert(self@.jobs =~= jobs0.push(job@));
        }
    }

    /// Upsert an assignment: any identity-equal entry is removed, and the
    /// new one is appended at the end.
    #[verifier::loop_isolation(false)]
    pub fn add_assignment(&mut self, assignment: Assignment)
        ensures
            final(self)@.assignments == upsert(old(self)@.assignments, assignment@),
            final(self)@.jobs == old(self)@.jobs,
            final(self)@.save_file == old(self)@.save_file,
    {
        let ghost m0 = self@;
        let ghost s0 = self@.assignments;
        let ghost p = |x: AssignmentView| !identity_eq(x, assignment@);
        let n = self.assignments.len();
        let mut kept: Vec<Assignment> = Vec::new();
        let mut i: usize = 0;
        proof {
            reveal(Seq::filter);
            assert(s0.subrange(0, 0).filter(p) =~= Seq::<AssignmentView>::empty());
            assert(views_of(kept@) =~= Seq::<AssignmentView>::empty());
        }
        while i < n
            invariant
                n == s0.len(),
                n == self.assignments@.len(),
                i <= n,
                self@ == m0,
                views_of(kept@) == s0.subrange(0, i as int).filter(p),
            decreases n - i,
        {
            let ghost kept0 = views_of(kept@);
            let keep = !(self.assignments[i] == assignment);
            if keep {
                kept.push(self.assignments[i].clone());
            }
            proof {
                assert(self@.assignments[i as int] == self.assignments@[i as int]@);
                assert(s0[i as int] == self@.assignments[i as int]);
                assert(s0.subrange(0, i as int + 1) =~= s0.subrange(0, i as int).push(
                    s0[i as int],
                ));
                lemma_filter_push(s0.subrange(0, i as int), s0[i as int], p);
                if keep {
                    assert(views_of(kept@) =~= kept0.push(s0[i as int]));
                } else {
                    assert(views_of(kept@) =~= kept0);
                }
            }
            i += 1;
        }
        kept.push(assignment);
        self.assignments = kept;
        proof {
            assert(s0.subrange(0, n as int) =~= s0);
            assert(self@.assignments =~= upsert(s0, assignment@));
        }
    }

    /// Remove every job of the given name.
    #[verifier::loop_isolation(false)]
    pub fn remove_job(&mut self, name: &String)
        ensures
            final(self)@.jobs == old(self)@.jobs.filter((|j: JobView| j.name != name@)),
            final(self)@.assignments == old(self)@.assignments,
            final(self)@.save_file == old(self)@.save_file,
    {
        let ghost m0 = self@;
        let ghost jobs0 = self@.jobs;
        let ghost p = |j: JobView| j.name != name@;
        let n = self.jobs.len();
        let mut kept: Vec<Job> = Vec::new();
        let mut i: usize = 0;
        proof {
            reveal(Seq::filter);
            assert(jobs0.subrange(0, 0).filter(p) =~= Seq::<JobView>::empty());
            assert(kept@.map_values(|j: Job| j@) =~= Seq::<JobView>::empty());
        }
        while i < n
            invariant
                n == jobs0.len(),
                n == self.jobs@.len(),
                i <= n,
                self@ == m0,
                kept@.map_values(|j: Job| j@) == jobs0.subrange(0, i as int).filter(p),
            decreases n - i,
        {
            let ghost kept0 = kept@.map_values(|j: Job| j@);
            let keep = !(self.jobs[i].name == *name);
            if keep {
                kept.push(self.jobs[i].clone());
            }
            proof {
                assert(self@.jobs[i as int] == self.jobs@[i as int]@);
                assert(jobs0[i as int] == self@.jobs[i as int]);
                assert(jobs0.subrange(0, i as int + 1) =~= jobs0.subrange(0, i as int).push(
                    jobs0[i as int],
                ));
                lemma_filter_push(jobs0.subrange(0, i as int), jobs0[i as int], p);
                if keep {
                    assert(kept@.map_values(|j: Job| j@) =~= kept0.push(jobs0[i as int]));
                } else {
                    assert(kept@.map_values(|j: Job| j@) =~= kept0);
                }
            }
            i += 1;
        }
        self.jobs = kept;
        proof {
            assert(jobs0.subrange(0, n as int) =~= jobs0);
        }
    }

    /// Remove every assignment whose stored link name equals the given one.
    #[verifier::loop_isolation(false)]
    pub fn remove_assignment(&mut self, link_name: &String)
        ensures
            final(self)@.assignments == old(self)@.assignments.filter(
                (|a: AssignmentView| a.link_name != link_name@),
            ),
            final(self)@.jobs == old(self)@.jobs,
            final(self)@.save_file == old(self)@.save_file,
    {
        let ghost m0 = self@;
        let ghost s0 = self@.assignments;
        let ghost p = |a: AssignmentView| a.link_name != link_name@;
        let n = self.assignments.len();
        let mut kept: Vec<Assignment> = Vec::new();
        let mut i: usize = 0;
        proof {
            reveal(Seq::filter);
            assert(s0.subrange(0, 0).filter(p) =~= Seq::<AssignmentView>::empty());
            assert(views_of(kept@) =~= Seq::<AssignmentView>::empty());
        }
        while i < n
            invariant
                n == s0.len(),
                n == self.assignments@.len(),
                i <= n,
                self@ == m0,
                views_of(kept@) == s0.subrange(0, i as int).filter(p),
            decreases n - i,
        {
            let ghost kept0 = views_of(kept@);
            let keep = !(self.assignments[i].link_name == *link_name);
            if keep {
                kept.push(self.assignments[i].clone());
            }
            proof {
                assert(self@.assignments[i as int] == self.assignments@[i as int]@);
                assert(s0[i as int] == self@.assignments[i as int]);
                assert(s0.subrange(0, i as int + 1) =~= s0.subrange(0, i as int).push(
                    s0[i as int],
                ));
                lemma_filter_push(s0.subrange(0, i as int), s0[i as int], p);
                if keep {
                    assert(views_of(kept@) =~= kept0.push(s0[i as int]));
                } else {
                    assert(views_of(kept@) =~= kept0);
                }
            }
            i += 1;
        }
        self.assignments = kept;
        proof {
            assert(s0.subrange(0, n as int) =~= s0);
        }
    }

    /// Drop every assignment already past due at `now_ms`.
    #[verifier::loop_isolation(false)]
    pub fn clear_past_due(&mut self, now_ms: u64)
        ensures
            final(self)@.assignments == old(self)@.assignments.filter(
                (|a: AssignmentView| !past_due_at(a, now_ms)),
            ),
            final(self)@.jobs == old(self)@.jobs,
            final(self)@.save_file == old(self)@.save_file,
    {
        let ghost m0 = self@;
        let ghost s0 = self@.assignments;
        let ghost p = |a: AssignmentView| !past_due_at(a, now_ms);
        let n = self.assignments.len();
        let mut kept: Vec<Assignment> = Vec::new();
        let mut i: usize = 0;
        proof {
            reveal(Seq::filter);
            assert(s0.subrange(0, 0).filter(p) =~= Seq::<AssignmentView>::empty());
            assert(views_of(kept@) =~= Seq::<AssignmentView>::empty());
        }
        while i < n
            invariant
                n == s0.len(),
                n == self.assignments@.len(),
                i <= n,
                self@ == m0,
                views_of(kept@) == s0.subrange(0, i as int).filter(p),
            decreases n - i,
        {
            let ghost kept0 = views_of(kept@);
            let keep = !self.assignments[i].past_due(now_ms);
            if keep {
                kept.push(self.assignments[i].clone());
            }
            proof {
                assert(self@.assignments[i as int] == self.assignments@[i as int]@);
                assert(s0[i as int] == self@.assignments[i as int]);
                assert(s0.subrange(0, i as int + 1) =~= s0.subrange(0, i as int).push(
                    s0[i as int],
                ));
                lemma_filter_push(s0.subrange(0, i as int), s0[i as int], p);
                if keep {
                    assert(views_of(kept@) =~= kept0.push(s0[i as int]));
                } else {
                    assert(views_of(kept@) =~= kept0);
                }
            }
            i += 1;
        }
        self.assignments = kept;
        proof {
            assert(s0.subrange(0, n as int) =~= s0);
        }
    }

    /// Whether any job is due to run at `now_ms`.
    pub fn should_sync(&self, now_ms: u64) -> (r: bool)
        ensures
            r == exists|i: int|
                0 <= i < self@.jobs.len() && sync_due_at(#[trigger] self@.jobs[i], now_ms),
    {
        let n = self.jobs.len();
        let mut i: usize = 0;
        while i < n
            invariant
                n == self@.jobs.len(),
                n == self.jobs@.len(),
                i <= n,
                forall|k: int| 0 <= k < i ==> !sync_due_at(#[trigger] self@.jobs[k], now_ms),
            decreases n - i,
        {
            if self.jobs[i].sync_due(now_ms) {
                proof {
                    assert(sync_due_at(self@.jobs[i as int], now_ms));
                }
                return true;
            }
            i += 1;
        }
        false
    }

    /// The first job of the given name, if any.
    pub fn get_job(&self, name: String) -> (r: Option<&Job>)
        ensures
            match r {
                Option::Some(j) => first_job_named(self@.jobs, name@) == Option::Some(j@),
                Option::None => first_job_named(self@.jobs, name@) is None,
            },
    {
        let n = self.jobs.len();
        let mut i: usize = 0;
        proof {
            assert(self@.jobs.skip(0) =~= self@.jobs);
        }
        while i < n
            invariant
                n == self@.jobs.len(),
                n == self.jobs@.len(),
                i <= n,
                first_job_named(self@.jobs, name@) == first_job_named(
                    self@.jobs.skip(i as int),
                    name@,
                ),
            decreases n - i,
        {
            proof {
                assert(self@.jobs.skip(i as int).first() == self@.jobs[i as int]);
                assert(self@.jobs.skip(i as int).drop_first() =~= self@.jobs.skip(i as int + 1));
            }
            if self.jobs[i].name == name {
                return Option::Some(&self.jobs[i]);
            }
            i += 1;
        }
        proof {
            assert(self@.jobs.skip(n as int) =~= Seq::<JobView>::empty());
        }
        Option::None
    }

    /// Whether every position from `i` on matches under the fuzzy rule.
    /// The scan is iterative, so long names cost no stack depth.
    pub fn assignment_match_link_name2(name1: &String, name2: &String, i: usize) -> (r: bool)
        requires
            name1@.len() == name2@.len(),
            i <= name1@.len(),
        ensures
            r == forall|j: int|
                i <= j < name1@.len() ==> char_match(#[trigger] name1@[j], name2@[j]),
    {
        let n = name1.as_str().unicode_len();
        let mut k: usize = i;
        while k < n
            invariant
                n == name1@.len(),
                name1@.len() == name2@.len(),
                i <= k <= n,
                forall|j: int| i <= j < k ==> char_match(#[trigger] name1@[j], name2@[j]),
            decreases n - k,
        {
            let left_char = name1.as_str().get_char(k);
            let right_char = name2.as_str().get_char(k);
            if left_char != right_char && left_char != '.' && left_char != ' ' && left_char != '/'
                && right_char != '-' {
                return false;
            }
            k += 1;
        }
        true
    }

    /// Whether two strings match under the fuzzy equivalence: equal length,
    /// and every position matches under `char_match`.
    pub fn assignment_match_link_name(name1: &String, name2: &String) -> (r: bool)
        ensures
            r == link_matches(name1@, name2@),
    {
        if name1.as_str().unicode_len() != name2.as_str().unicode_len() {
            return false;
        }
        Self::assignment_match_link_name2(name1, name2, 0)
    }

    /// The first assignment whose name matches the given link name under the
    /// fuzzy rule, if any.
    pub fn get_assignment_from_link_name(&self, name: String) -> (r: Option<&Assignment>)
        ensures
            match r {
                Option::Some(a) => first_link_match(self@.assignments, name@) == Option::Some(a@),
                Option::None => first_link_match(self@.assignments, name@) is None,
            },
    {
        let n = self.assignments.len();
        let mut i: usize = 0;
        proof {
            assert(self@.assignments.skip(0) =~= self@.assignments);
        }
        while i < n
            invariant
                n == self@.assignments.len(),
                n == self.assignments@.len(),
                i <= n,
                first_link_match(self@.assignments, name@) == first_link_match(
                    self@.assignments.skip(i as int),
                    name@,
                ),
            decreases n - i,
        {
            proof {
                assert(self@.assignments.skip(i as int).first() == self@.assignments[i as int]);
                assert(self@.assignments.skip(i as int).drop_first() =~= self@.assignments.skip(
                    i as int + 1,
                ));
            }
            if Self::assignment_match_link_name(&self.assignments[i].name, &name) {
                return Option::Some(&self.assignments[i]);
            }
            i += 1;
        }
        proof {
            assert(self@.assignments.skip(n as int) =~= Seq::<AssignmentView>::empty());
        }
        Option::None
    }

    /// Mark the first assignment resolving to the given link name as done,
    /// upserting the updated copy; with no match the store is unchanged.
    pub fn mark_done(&mut self, link_name: String)
        ensures
            match first_link_match(old(self)@.assignments, link_name@) {
                Option::None => final(self)@ == old(self)@,
                Option::Some(av) => {
                    &&& final(self)@.assignments == upsert(
                        old(self)@.assignments,
                        (AssignmentView { done: true, ..av }),
                    )
                    &&& final(self)@.jobs == old(self)@.jobs
                    &&& final(self)@.save_file == old(self)@.save_file
                },
            },
    {
        let found = match self.get_assignment_from_link_name(link_name) {
            Option::Some(assignment) => Option::Some(assignment.clone()),
            Option::None => Option::None,
        };
        match found {
            Option::Some(mut assignment) => {
                assignment.mark_done();
                self.add_assignment(assignment);
            },
            Option::None => {},
        }
    }

    /// Edit the first assignment of exactly the given name in place: its
    /// due date and course are replaced, its identity, link name and flags
    /// stay. Returns whether such an assignment existed.
    #[verifier::loop_isolation(false)]
    pub fn edit_assignment(&mut self, name: &String, due: u64, course: String) -> (r: bool)
        ensures
            final(self)@.jobs == old(self)@.jobs,
            final(self)@.save_file == old(self)@.save_file,
            r == exists|i: int|
                0 <= i < old(self)@.assignments.len() && (#[trigger] old(
                    self,
                )@.assignments[i]).name == name@,
            !r ==> final(self)@.assignments == old(self)@.assignments,
            r ==> exists|i: int|
                {
                    &&& 0 <= i < old(self)@.assignments.len()
                    &&& (#[trigger] old(self)@.assignments[i]).name == name@
                    &&& (forall|k: int| 0 <= k < i ==> old(self)@.assignments[k].name != name@)
                    &&& final(self)@.assignments == old(self)@.assignments.update(
                        i,
                        (AssignmentView { due: due, course: course@, ..old(self)@.assignments[i] }),
                    )
                },
    {
        let ghost s0 = self@.assignments;
        let n = self.assignments.len();
        let mut i: usize = 0;
        while i < n
            invariant
                n == s0.len(),
                n == self.assignments@.len(),
                i <= n,
                self@ == old(self)@,
                forall|k: int| 0 <= k < i ==> s0[k].name != name@,
            decreases n - i,
        {
            proof {
                assert(self@.assignments[i as int] == self.assignments@[i as int]@);
            }
            if self.assignments[i].name == *name {
                let mut updated = self.assignments[i].clone();
                updated.due = due;
                updated.course = course;
                proof {
                    assert(updated@ == (AssignmentView {
                        due: due,
                        course: course@,
                        ..s0[i as int]
                    }));
                }
                self.assignments[i] = updated;
                proof {
                    assert(self@.assignments =~= s0.update(
                        i as int,
                        (AssignmentView { due: due, course: course@, ..s0[i as int] }),
                    ));
                }
                return true;
            }
            i += 1;
        }
        false
    }

    /// Request an immediate run of the first job of the given name on the
    /// next loop tick, by forcing its next run into the past. Returns
    /// whether such a job existed.
    #[verifier::loop_isolation(false)]
    pub fn request_run(&mut self, name: &String) -> (r: bool)
        ensures
            final(self)@.assignments == old(self)@.assignments,
            final(self)@.save_file == old(self)@.save_file,
            r == exists|i: int|
                0 <= i < old(self)@.jobs.len() && (#[trigger] old(self)@.jobs[i]).name == name@,
            !r ==> final(self)@.jobs == old(self)@.jobs,
            r ==> exists|i: int|
                {
                    &&& 0 <= i < old(self)@.jobs.len()
                    &&& (#[trigger] old(self)@.jobs[i]).name == name@
                    &&& (forall|k: int| 0 <= k < i ==> old(self)@.jobs[k].name != name@)
                    &&& final(self)@.jobs == old(self)@.jobs.update(
                        i,
                        (JobView { next_sync: 0, ..old(self)@.jobs[i] }),
                    )
                },
    {
        let ghost jobs0 = self@.jobs;
        let n = self.jobs.len();
        let mut i: usize = 0;
        while i < n
            invariant
                n == jobs0.len(),
                n == self.jobs@.len(),
                i <= n,
                self@ == old(self)@,
                forall|k: int| 0 <= k < i ==> jobs0[k].name != name@,
            decreases n - i,
        {
            proof {
                assert(self@.jobs[i as int] == self.jobs@[i as int]@);
            }
            if self.jobs[i].name == *name {
                let mut updated = self.jobs[i].clone();
                updated.next_sync = 0;
                proof {
                    assert(updated@ == (JobView { next_sync: 0, ..jobs0[i as int] }));
                }
                self.jobs[i] = updated;
                proof {
                    assert(self@.jobs =~= jobs0.update(
                        i as int,
                        (JobView { next_sync: 0, ..jobs0[i as int] }),
                    ));
                }
                return true;
            }
            i += 1;
        }
        false
    }

    /// The first assignment in the store identity-equal to the candidate.
    fn find_identity_in_store(&self, c: &Assignment) -> (r: Option<&Assignment>)
        ensures
            match r {
                Option::Some(a) => find_identity(self@.assignments, c@) == Option::Some(a@),
                Option::None => find_identity(self@.assignments, c@) is None,
            },
    {
        let n = self.assignments.len();
        let mut i: usize = 0;
        proof {
            assert(self@.assignments.skip(0) =~= self@.assignments);
        }
        while i < n
            invariant
                n == self@.assignments.len(),
                n == self.assignments@.len(),
                i <= n,
                find_identity(self@.assignments, c@) == find_identity(
                    self@.assignments.skip(i as int),
                    c@,
                ),
            decreases n - i,
        {
            proof {
                assert(self@.assignments.skip(i as int).first() == self@.assignments[i as int]);
                assert(self@.assignments.skip(i as int).drop_first() =~= self@.assignments.skip(
                    i as int + 1,
                ));
                assert(self@.assignments[i as int] == self.assignments@[i as int]@);
            }
            if self.assignments[i] == *c {
                return Option::Some(&self.assignments[i]);
            }
            i += 1;
        }
        proof {
            assert(self@.assignments.skip(n as int) =~= Seq::<AssignmentView>::empty());
        }
        Option::None
    }

    /// The candidates that must be forwarded: each one that is new to the
    /// store or whose stored counterpart carries a different due date.
    #[verifier::loop_isolation(false)]
    pub fn get_changed_assignments(&self, assignments: Vec<Assignment>) -> (r: Vec<Assignment>)
        ensures
            views_of(r@) == views_of(assignments@).filter(
                (|c: AssignmentView| changed_wrt(self@.assignments, c)),
            ),
    {
        let ghost cv = views_of(assignments@);
        let ghost pred = |c: AssignmentView| changed_wrt(self@.assignments, c);
        let mut changed: Vec<Assignment> = Vec::new();
        let n = assignments.len();
        let mut i: usize = 0;
        proof {
            reveal(Seq::filter);
            assert(cv.subrange(0, 0).filter(pred) =~= Seq::<AssignmentView>::empty());
            assert(views_of(changed@) =~= Seq::<AssignmentView>::empty());
        }
        while i < n
            invariant
                n == assignments@.len(),
                i <= n,
                views_of(changed@) == cv.subrange(0, i as int).filter(pred),
            decreases n - i,
        {
            let ghost ch0 = views_of(changed@);
            let candidate = &assignments[i];
            let push_it = match self.find_identity_in_store(candidate) {
                Option::Some(a) => a.due != candidate.due,
                Option::None => true,
            };
            if push_it {
                changed.push(candidate.clone());
            }
            proof {
                assert(cv[i as int] == assignments@[i as int]@);
                assert(pred(cv[i as int]) == push_it);
                assert(cv.subrange(0, i as int + 1) =~= cv.subrange(0, i as int).push(
                    cv[i as int],
                ));
                lemma_filter_push(cv.subrange(0, i as int), cv[i as int], pred);
                if push_it {
                    assert(views_of(changed@) =~= ch0.push(cv[i as int]));
                } else {
                    assert(views_of(changed@) =~= ch0);
                }
            }
            i += 1;
        }
        proof {
            assert(cv.subrange(0, n as int) =~= cv);
        }
        changed
    }

    /// One reconciliation pass: merge every changed candidate into the
    /// store, then run the catch-up pass, which marks every stored
    /// assignment synced and re-queues each one that had never been
    /// notified or is marked done. Returns the full changed set.
    #[verifier::loop_isolation(false)]
    pub fn reconcile(&mut self, candidates: Vec<Assignment>) -> (changed: Vec<Assignment>)
        ensures
            ({
                let s0 = old(self)@.assignments;
                let ch0 = views_of(candidates@).filter((|c: AssignmentView| changed_wrt(s0, c)));
                let s1 = upsert_all(s0, ch0);
                &&& final(self)@.assignments == all_synced(s1)
                &&& final(self)@.jobs == old(self)@.jobs
                &&& final(self)@.save_file == old(self)@.save_file
                &&& views_of(changed@) == ch0 + catch_up_extras(s1)
            }),
    {
        let ghost s0 = self@.assignments;
        let mut changed = self.get_changed_assignments(candidates);
        let ghost ch0 = views_of(changed@);
        let n = changed.len();
        let mut i: usize = 0;
        proof {
            assert(ch0.subrange(0, 0) =~= Seq::<AssignmentView>::empty());
        }
        while i < n
            invariant
                n == changed@.len(),
                i <= n,
                views_of(changed@) == ch0,
                self@.assignments == upsert_all(s0, ch0.subrange(0, i as int)),
                self@.jobs == old(self)@.jobs,
                self@.save_file == old(self)@.save_file,
            decreases n - i,
        {
            let a = changed[i].clone();
            proof {
                assert(ch0[i as int] == changed@[i as int]@);
                assert(ch0.subrange(0, i as int + 1) =~= ch0.subrange(0, i as int).push(
                    ch0[i as int],
                ));
                lemma_upsert_all_snoc(s0, ch0.subrange(0, i as int), ch0[i as int]);
            }
            self.add_assignment(a);
            i += 1;
        }
        let ghost s1 = upsert_all(s0, ch0);
        proof {
            assert(ch0.subrange(0, n as int) =~= ch0);
            reveal(Seq::filter);
            assert(s1.subrange(0, 0).filter(|a: AssignmentView| needs_push(a)) =~= Seq::<
                AssignmentView,
            >::empty());
            assert(catch_up_extras(s1.subrange(0, 0)) =~= Seq::<AssignmentView>::empty());
            assert(all_synced(s1.subrange(0, 0)) =~= Seq::<AssignmentView>::empty());
            assert(views_of(changed@) =~= ch0 + catch_up_extras(s1.subrange(0, 0)));
        }
        let m = self.assignments.len();
        let mut updated: Vec<Assignment> = Vec::new();
        let mut i: usize = 0;
        while i < m
            invariant
                m == self.assignments@.len(),
                i <= m,
                self@.assignments == s1,
                self@.jobs == old(self)@.jobs,
                self@.save_file == old(self)@.save_file,
                views_of(updated@) == all_synced(s1.subrange(0, i as int)),
                views_of(changed@) == ch0 + catch_up_extras(s1.subrange(0, i as int)),
            decreases m - i,
        {
            let ghost up0 = views_of(updated@);
            let ghost chv0 = views_of(changed@);
            let b = self.assignments[i].clone();
            let needs_sync = match b.synced {
                Option::Some(true) => false,
                _ => true,
            };
            let flag = needs_sync || b.done;
            if flag {
                // queued with the flag as it stood, so the dispatch
                // decision still sees whether it had ever been notified
                changed.push(b.clone());
            }
            let mut u = b;
            u.synced = Option::Some(true);
            updated.push(u);
            proof {
                let q = |a: AssignmentView| needs_push(a);
                assert(s1[i as int] == self.assignments@[i as int]@);
                assert(s1.subrange(0, i as int + 1) =~= s1.subrange(0, i as int).push(
                    s1[i as int],
                ));
                lemma_filter_push(s1.subrange(0, i as int), s1[i as int], q);
                assert(flag == needs_push(s1[i as int]));
                assert(views_of(updated@) =~= up0.push(with_synced_true(s1[i as int])));
                assert(all_synced(s1.subrange(0, i as int + 1)) =~= all_synced(
                    s1.subrange(0, i as int),
                ).push(with_synced_true(s1[i as int])));
                if flag {
                    assert(catch_up_extras(s1.subrange(0, i as int + 1)) =~= catch_up_extras(
                        s1.subrange(0, i as int),
                    ).push(s1[i as int]));
                    assert(views_of(changed@) =~= chv0.push(s1[i as int]));
                    assert(views_of(changed@) =~= ch0 + catch_up_extras(
                        s1.subrange(0, i as int + 1),
                    ));
                } else {
                    assert(catch_up_extras(s1.subrange(0, i as int + 1)) =~= catch_up_extras(
                        s1.subrange(0, i as int),
                    ));
                }
            }
            i += 1;
        }
        self.assignments = updated;
        proof {
            assert(s1.subrange(0, m as int) =~= s1);
        }
        changed
    }

    /// The changed assignments that are actually dispatched downstream:
    /// those whose owning job exists and forwards and that qualify under
    /// `should_notify`, each identity at most once per cycle, in
    /// first-appearance order.
    #[verifier::loop_isolation(false)]
    pub fn to_notify(&self, changed: &Vec<Assignment>) -> (r: Vec<Assignment>)
        ensures
            views_of(r@) == dispatch_list(self@.jobs, views_of(changed@)),
    {
        let ghost cv = views_of(changed@);
        let mut r: Vec<Assignment> = Vec::new();
        let n = changed.len();
        let mut i: usize = 0;
        proof {
            assert(cv.subrange(0, 0) =~= Seq::<AssignmentView>::empty());
            assert(views_of(r@) =~= Seq::<AssignmentView>::empty());
            assert(views_of(r@) =~= dispatch_list(self@.jobs, cv.subrange(0, 0)));
        }
        while i < n
            invariant
                n == changed@.len(),
                i <= n,
                views_of(r@) == dispatch_list(self@.jobs, cv.subrange(0, i as int)),
            decreases n - i,
        {
            let ghost r0 = views_of(r@);
            let a = &changed[i];
            let qualifies = match &a.job_name {
                Option::Some(jn) => match self.get_job(jn.clone()) {
                    Option::Some(job) => {
                        if job.sync_to_google {
                            a.done || match a.synced {
                                Option::Some(true) => false,
                                _ => true,
                            }
                        } else {
                            false
                        }
                    },
                    Option::None => false,
                },
                Option::None => false,
            };
            let send = qualifies && !contains_identity_exec(&r, a);
            if send {
                r.push(a.clone());
            }
            proof {
                assert(cv[i as int] == changed@[i as int]@);
                assert(should_notify(self@.jobs, cv[i as int]) == qualifies);
                assert(cv.subrange(0, i as int + 1).drop_last() =~= cv.subrange(0, i as int));
                assert(cv.subrange(0, i as int + 1).last() == cv[i as int]);
                if send {
                    assert(views_of(r@) =~= r0.push(cv[i as int]));
                }
                assert(views_of(r@) =~= dispatch_list(
                    self@.jobs,
                    cv.subrange(0, i as int + 1),
                ));
            }
            i += 1;
        }
        proof {
            assert(cv.subrange(0, n as int) =~= cv);
        }
        r
    }

    /// Sort the assignments into non-decreasing due order; nothing is added
    /// or lost.
    #[verifier::loop_isolation(false)]
    pub fn sort_by_due(&mut self)
        ensures
            sorted_by_due(final(self)@.assignments),
            final(self)@.assignments.to_multiset() == old(self)@.assignments.to_multiset(),
            final(self)@.jobs == old(self)@.jobs,
            final(self)@.save_file == old(self)@.save_file,
    {
        proof {
            broadcast use vstd::seq_lib::group_to_multiset_ensures;

        }
        let ghost s0 = self@.assignments;
        let mut out: Vec<Assignment> = Vec::new();
        let n = self.assignments.len();
        let mut i: usize = 0;
        proof {
            assert(s0.subrange(0, 0) =~= Seq::<AssignmentView>::empty());
            assert(views_of(out@) =~= Seq::<AssignmentView>::empty());
            assert(views_of(out@).to_multiset() =~= s0.subrange(0, 0).to_multiset());
        }
        while i < n
            invariant
                n == self.assignments@.len(),
                self@.assignments == s0,
                i <= n,
                sorted_by_due(views_of(out@)),
                views_of(out@).to_multiset() == s0.subrange(0, i as int).to_multiset(),
            decreases n - i,
        {
            let ghost out0 = views_of(out@);
            let a = self.assignments[i].clone();
            let m = out.len();
            let mut k: usize = 0;
            while k < m && out[k].due <= a.due
                invariant
                    m == out@.len(),
                    k <= m,
                    forall|t: int| 0 <= t < k ==> views_of(out@)[t].due <= a@.due,
                decreases m - k,
            {
                proof {
                    assert(views_of(out@)[k as int] == out@[k as int]@);
                }
                k += 1;
            }
            out.insert(k, a);
            proof {
                broadcast use vstd::seq_lib::group_to_multiset_ensures;

                assert(s0[i as int] == self.assignments@[i as int]@);
                assert(views_of(out@) =~= out0.insert(k as int, s0[i as int]));
                out0.insert_ensures(k as int, s0[i as int]);
                assert(sorted_by_due(views_of(out@))) by {
                    let t = views_of(out@);
                    assert(forall|u: int| 0 <= u < k ==> t[u] == out0[u]);
                    assert(forall|u: int| k < u < t.len() ==> t[u] == out0[u - 1]);
                    assert(t[k as int] == s0[i as int]);
                    assert(forall|u: int| 0 <= u < k ==> t[u].due <= s0[i as int].due);
                    assert(k < m ==> s0[i as int].due < out0[k as int].due);
                }
                lemma_to_multiset_insert(out0, k as int, s0[i as int]);
                assert(s0.subrange(0, i as int + 1) =~= s0.subrange(0, i as int).push(
                    s0[i as int],
                ));
                assert(s0.subrange(0, i as int).push(s0[i as int]).to_multiset()
                    =~= s0.subrange(0, i as int).to_multiset().insert(s0[i as int]));
            }
            i += 1;
        }
        self.assignments = out;
        proof {
            assert(s0.subrange(0, n as int) =~= s0);
        }
    }

    /// The fixup every load performs: recompute each link name from the
    /// current name, drop everything already past due at `now_ms`, and sort
    /// by due date.
    #[verifier::loop_isolation(false)]
    pub fn normalize(&mut self, now_ms: u64)
        ensures
            final(self)@.jobs == old(self)@.jobs,
            final(self)@.save_file == old(self)@.save_file,
            sorted_by_due(final(self)@.assignments),
            final(self)@.assignments.to_multiset() == old(self)@.assignments.map_values(
                (|a: AssignmentView| with_fixed_link(a)),
            ).filter((|a: AssignmentView| !past_due_at(a, now_ms))).to_multiset(),
            forall|i: int|
                0 <= i < final(self)@.assignments.len() ==> {
                    let a = #[trigger] final(self)@.assignments[i];
                    a.link_name == slug_of(a.name) && !past_due_at(a, now_ms)
                },
    {
        let ghost s0 = self@.assignments;
        let ghost fixed = s0.map_values(|a: AssignmentView| with_fixed_link(a));
        let ghost pred = |a: AssignmentView| !past_due_at(a, now_ms);
        let n = self.assignments.len();
        let mut kept: Vec<Assignment> = Vec::new();
        let mut i: usize = 0;
        proof {
            reveal(Seq::filter);
            assert(fixed.subrange(0, 0).filter(pred) =~= Seq::<AssignmentView>::empty());
            assert(views_of(kept@) =~= Seq::<AssignmentView>::empty());
        }
        while i < n
            invariant
                n == self.assignments@.len(),
                self@.assignments == s0,
                i <= n,
                views_of(kept@) == fixed.subrange(0, i as int).filter(pred),
                forall|t: int|
                    0 <= t < views_of(kept@).len() ==> {
                        let a = #[trigger] views_of(kept@)[t];
                        a.link_name == slug_of(a.name) && !past_due_at(a, now_ms)
                    },
            decreases n - i,
        {
            let ghost kept0 = views_of(kept@);
            let a = self.assignments[i].fix_link_name();
            let keep = !a.past_due(now_ms);
            if keep {
                kept.push(a);
            }
            proof {
                assert(s0[i as int] == self.assignments@[i as int]@);
                assert(fixed[i as int] == with_fixed_link(s0[i as int]));
                assert(fixed.subrange(0, i as int + 1) =~= fixed.subrange(0, i as int).push(
                    fixed[i as int],
                ));
                lemma_filter_push(fixed.subrange(0, i as int), fixed[i as int], pred);
                if keep {
                    assert(views_of(kept@) =~= kept0.push(fixed[i as int]));
                } else {
                    assert(views_of(kept@) =~= kept0);
                }
            }
            i += 1;
        }
        self.assignments = kept;
        let ghost pre_sort = self@.assignments;
        proof {
            assert(fixed.subrange(0, n as int) =~= fixed);
        }
        self.sort_by_due();
        proof {
            broadcast use vstd::seq_lib::group_to_multiset_ensures;

            assert forall|t: int| 0 <= t < self@.assignments.len() implies {
                let a = #[trigger] self@.assignments[t];
                a.link_name == slug_of(a.name) && !past_due_at(a, now_ms)
            } by {
                let a = self@.assignments[t];
                assert(self@.assignments.contains(a));
                assert(self@.assignments.to_multiset().count(a) > 0);
                assert(pre_sort.to_multiset().count(a) > 0);
                assert(pre_sort.contains(a));
                let u = choose|u: int| 0 <= u < pre_sort.len() && pre_sort[u] == a;
                assert(pre_sort[u] == a);
            }
        }
    }
}

} // verus!
