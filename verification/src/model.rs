//! Data model: jobs, assignments, and the slug / fuzzy-match rules that tie
//! an assignment's human name to its URL-safe link name.

use vstd::prelude::*;

verus! {

/// How one character of a name appears in the derived link name: spaces,
/// slashes and dots become dashes, every other character is kept.
pub open spec fn slug_char(c: char) -> char {
    if c == ' ' || c == '/' || c == '.' {
        '-'
    } else {
        c
    }
}

/// The link name derived from a name: a character-for-character substitution,
/// so the result always has the same length as the input.
pub open spec fn slug_of(s: Seq<char>) -> Seq<char> {
    s.map_values(|c: char| slug_char(c))
}

/// One position of the fuzzy match: the characters agree, or the left one is
/// a character that slug derivation rewrites, or the right one is a dash.
pub open spec fn char_match(l: char, r: char) -> bool {
    l == r || l == '.' || l == ' ' || l == '/' || r == '-'
}

/// The fuzzy equivalence under which a link name resolves back to a name:
/// equal length, and every position matches under `char_match`.
pub open spec fn link_matches(a: Seq<char>, b: Seq<char>) -> bool {
    a.len() == b.len() && forall|i: int| 0 <= i < a.len() ==> char_match(a[i], b[i])
}

/// Relies on `String::push`: appends the given character at the end.
#[verifier::external_body]
fn push_char(s: &mut String, c: char)
    ensures
        final(s)@ == old(s)@.push(c),
{
    s.push(c);
}

/// One entry of a producer's output: a bare (course, due, name) triple.
pub struct ScriptAssignment {
    pub course: String,
    pub due: u64,
    pub name: String,
}

#[verifier::ext_equal]
pub struct ScriptAssignmentView {
    pub course: Seq<char>,
    pub due: u64,
    pub name: Seq<char>,
}

impl View for ScriptAssignment {
    type V = ScriptAssignmentView;

    open spec fn view(&self) -> ScriptAssignmentView {
        ScriptAssignmentView { course: self.course@, due: self.due, name: self.name@ }
    }
}

impl Clone for ScriptAssignment {
    fn clone(&self) -> (r: Self)
        ensures
            r@ == self@,
    {
        ScriptAssignment { course: self.course.clone(), due: self.due, name: self.name.clone() }
    }
}

/// A due-dated work item. Identity (for dedup) is the triple
/// (course, name, job_name); due date, link name and the flags are state.
pub struct Assignment {
    pub course: String,
    pub due: u64,
    pub name: String,
    pub job_name: Option<String>,
    pub synced: Option<bool>,
    pub link_name: String,
    pub done: bool,
}

#[verifier::ext_equal]
pub struct AssignmentView {
    pub course: Seq<char>,
    pub due: u64,
    pub name: Seq<char>,
    pub job_name: Option<Seq<char>>,
    pub synced: Option<bool>,
    pub link_name: Seq<char>,
    pub done: bool,
}

impl View for Assignment {
    type V = AssignmentView;

    open spec fn view(&self) -> AssignmentView {
        AssignmentView {
            course: self.course@,
            due: self.due,
            name: self.name@,
            job_name: match self.job_name {
                Option::Some(s) => Option::Some(s@),
                Option::None => Option::None,
            },
            synced: self.synced,
            link_name: self.link_name@,
            done: self.done,
        }
    }
}

/// Two assignments are the same work item: equal course, name and source job.
pub open spec fn identity_eq(a: AssignmentView, b: AssignmentView) -> bool {
    a.course == b.course && a.name == b.name && a.job_name == b.job_name
}

/// An assignment is past due at `now_ms` (unix milliseconds) when its due
/// time, in milliseconds, lies strictly before `now_ms`.
pub open spec fn past_due_at(a: AssignmentView, now_ms: u64) -> bool {
    a.due * 1000 < now_ms
}

/// `a` with its link name recomputed from its current name.
pub open spec fn with_fixed_link(a: AssignmentView) -> AssignmentView {
    AssignmentView { link_name: slug_of(a.name), ..a }
}

/// `a` with its synced flag forced on.
pub open spec fn with_synced_true(a: AssignmentView) -> AssignmentView {
    AssignmentView { synced: Option::Some(true), ..a }
}

fn opt_string_eq(a: &Option<String>, b: &Option<String>) -> (r: bool)
    ensures
        r == (match (a, b) {
            (Option::Some(x), Option::Some(y)) => x@ == y@,
            (Option::None, Option::None) => true,
            _ => false,
        }),
{
    match (a, b) {
        (Option::Some(x), Option::Some(y)) => *x == *y,
        (Option::None, Option::None) => true,
        _ => false,
    }
}

impl Clone for Assignment {
    fn clone(&self) -> (r: Self)
        ensures
            r@ == self@,
    {
        Assignment {
            course: self.course.clone(),
            due: self.due,
            name: self.name.clone(),
            job_name: match &self.job_name {
                Option::Some(s) => Option::Some(s.clone()),
                Option::None => Option::None,
            },
            synced: self.synced,
            link_name: self.link_name.clone(),
            done: self.done,
        }
    }
}

impl PartialEq for Assignment {
    fn eq(&self, other: &Self) -> (r: bool) {
        self.course == other.course && self.name == other.name && opt_string_eq(
            &self.job_name,
            &other.job_name,
        )
    }
}

impl vstd::std_specs::cmp::PartialEqSpecImpl for Assignment {
    open spec fn obeys_eq_spec() -> bool {
        true
    }

    open spec fn eq_spec(&self, other: &Assignment) -> bool {
        identity_eq(self@, other@)
    }
}

impl Assignment {
    /// The URL-safe link name for a given name: spaces, slashes and dots
    /// become dashes, character for character.
    pub fn get_link_name(name: String) -> (r: String)
        ensures
            r@ == slug_of(name@),
    {
        let n = name.as_str().unicode_len();
        let mut r = String::new();
        let mut i: usize = 0;
        while i < n
            invariant
                n == name@.len(),
                i <= n,
                r@ == slug_of(name@).subrange(0, i as int),
            decreases n - i,
        {
            let c = name.as_str().get_char(i);
            let s = if c == ' ' || c == '/' || c == '.' {
                '-'
            } else {
                c
            };
            push_char(&mut r, s);
            i += 1;
            proof {
                assert(slug_of(name@).subrange(0, i as int) =~= slug_of(name@).subrange(
                    0,
                    i - 1,
                ).push(slug_char(name@[i - 1])));
            }
        }
        proof {
            assert(r@ =~= slug_of(name@));
        }
        r
    }

    /// A fresh assignment produced on behalf of a job: not yet synced, not
    /// done, with the link name derived from the given name.
    pub fn new(course: String, due: u64, name: String, job_name: String) -> (r: Self)
        ensures
            r@ == (AssignmentView {
                course: course@,
                due: due,
                name: name@,
                job_name: Option::Some(job_name@),
                synced: Option::None,
                link_name: slug_of(name@),
                done: false,
            }),
    {
        let link_name = Self::get_link_name(name.clone());
        Assignment {
            course,
            due,
            name,
            job_name: Option::Some(job_name),
            synced: Option::None,
            link_name,
            done: false,
        }
    }

    /// Whether this assignment's due time lies before `now_ms` (unix
    /// milliseconds).
    pub fn past_due(&self, now_ms: u64) -> (r: bool)
        ensures
            r == past_due_at(self@, now_ms),
    {
        (self.due as u128) * 1000 < (now_ms as u128)
    }

    pub fn mark_done(&mut self)
        ensures
            final(self)@ == (AssignmentView { done: true, ..old(self)@ }),
    {
        self.done = true;
    }

    /// A copy of this assignment with its link name recomputed from its
    /// current name.
    pub fn fix_link_name(&self) -> (r: Assignment)
        ensures
            r@ == with_fixed_link(self@),
    {
        let mut ret = self.clone();
        ret.link_name = Self::get_link_name(ret.name.clone());
        ret
    }
}

impl ScriptAssignment {
    /// The full assignment a producer triple stands for, tagged with the
    /// name of the job that produced it.
    pub fn to_assignment(&self, job_name: String) -> (r: Assignment)
        ensures
            r@ == (AssignmentView {
                course: self@.course,
                due: self@.due,
                name: self@.name,
                job_name: Option::Some(job_name@),
                synced: Option::None,
                link_name: slug_of(self@.name),
                done: false,
            }),
    {
        Assignment::new(self.course.clone(), self.due, self.name.clone(), job_name)
    }
}

/// The assignment one producer triple stands for, tagged with the name of
/// the job it came from.
pub open spec fn assignment_of_script(s: ScriptAssignmentView, job_name: Seq<char>) -> AssignmentView {
    AssignmentView {
        course: s.course,
        due: s.due,
        name: s.name,
        job_name: Option::Some(job_name),
        synced: Option::None,
        link_name: slug_of(s.name),
        done: false,
    }
}

/// A configured periodic source of assignments, bound to an external
/// producer program in its directory.
pub struct Job {
    pub name: String,
    pub path: String,
    pub sync_to_google: bool,
    pub next_sync: u64,
    pub last_sync: u64,
    pub sync_interval: u64,
}

#[verifier::ext_equal]
pub struct JobView {
    pub name: Seq<char>,
    pub path: Seq<char>,
    pub sync_to_google: bool,
    pub next_sync: u64,
    pub last_sync: u64,
    pub sync_interval: u64,
}

impl View for Job {
    type V = JobView;

    open spec fn view(&self) -> JobView {
        JobView {
            name: self.name@,
            path: self.path@,
            sync_to_google: self.sync_to_google,
            next_sync: self.next_sync,
            last_sync: self.last_sync,
            sync_interval: self.sync_interval,
        }
    }
}

impl Clone for Job {
    fn clone(&self) -> (r: Self)
        ensures
            r@ == self@,
    {
        Job {
            name: self.name.clone(),
            path: self.path.clone(),
            sync_to_google: self.sync_to_google,
            next_sync: self.next_sync,
            last_sync: self.last_sync,
            sync_interval: self.sync_interval,
        }
    }
}

/// A job is due at `now_ms` (unix milliseconds) when its next scheduled run,
/// in milliseconds, lies strictly before `now_ms`.
pub open spec fn sync_due_at(j: JobView, now_ms: u64) -> bool {
    j.next_sync * 1000 < now_ms
}

/// A path with every '~' replaced by the home directory's path.
pub open spec fn expand_home(path: Seq<char>, home: Seq<char>) -> Seq<char>
    decreases path.len(),
{
    if path.len() == 0 {
        Seq::empty()
    } else {
        (if path.first() == '~' {
            home
        } else {
            seq![path.first()]
        }) + expand_home(path.drop_first(), home)
    }
}

/// Expansion grows one character at a time from the left.
proof fn lemma_expand_home_snoc(s: Seq<char>, c: char, home: Seq<char>)
    ensures
        expand_home(s.push(c), home) == expand_home(s, home) + (if c == '~' {
            home
        } else {
            seq![c]
        }),
    decreases s.len(),
{
    let unit = if c == '~' {
        home
    } else {
        seq![c]
    };
    if s.len() == 0 {
        assert(s.push(c).first() == c);
        assert(s.push(c).drop_first() =~= Seq::<char>::empty());
        assert(expand_home(Seq::<char>::empty(), home) =~= Seq::<char>::empty());
        assert(expand_home(s.push(c), home) =~= unit + Seq::<char>::empty());
        assert(expand_home(s, home) =~= Seq::<char>::empty());
        assert(unit + Seq::<char>::empty() =~= Seq::<char>::empty() + unit);
        assert(expand_home(s.push(c), home) =~= expand_home(s, home) + unit);
    } else {
        assert(s.push(c).first() == s.first());
        assert(s.push(c).drop_first() =~= s.drop_first().push(c));
        lemma_expand_home_snoc(s.drop_first(), c, home);
        let head = if s.first() == '~' {
            home
        } else {
            seq![s.first()]
        };
        assert(head + (expand_home(s.drop_first(), home) + unit) =~= (head + expand_home(
            s.drop_first(),
            home,
        )) + unit);
    }
}

impl Job {
    /// The given path with every '~' replaced by the home directory's path,
    /// which the caller looks up.
    pub fn fix_home(path: String, home: &str) -> (r: String)
        ensures
            r@ == expand_home(path@, home@),
    {
        let n = path.as_str().unicode_len();
        let mut r = String::new();
        let mut i: usize = 0;
        proof {
            assert(path@.subrange(0, 0) =~= Seq::<char>::empty());
        }
        while i < n
            invariant
                n == path@.len(),
                i <= n,
                r@ == expand_home(path@.subrange(0, i as int), home@),
            decreases n - i,
        {
            let ghost r0 = r@;
            let c = path.as_str().get_char(i);
            if c == '~' {
                r.append(home);
            } else {
                push_char(&mut r, c);
            }
            proof {
                assert(path@.subrange(0, i as int + 1) =~= path@.subrange(0, i as int).push(
                    path@[i as int],
                ));
                lemma_expand_home_snoc(path@.subrange(0, i as int), path@[i as int], home@);
                if c == '~' {
                    assert(r@ =~= r0 + home@);
                } else {
                    assert(r@ =~= r0 + seq![c]);
                }
            }
            i += 1;
        }
        proof {
            assert(path@.subrange(0, n as int) =~= path@);
        }
        r
    }

    /// A fresh job that has never run: both schedule marks at zero, so its
    /// first run is immediately due.
    pub fn new(name: String, path: String, sync_to_google: bool, sync_interval: u64) -> (r: Self)
        ensures
            r@ == (JobView {
                name: name@,
                path: path@,
                sync_to_google: sync_to_google,
                next_sync: 0,
                last_sync: 0,
                sync_interval: sync_interval,
            }),
    {
        Job { name, path, sync_to_google, next_sync: 0, last_sync: 0, sync_interval }
    }

    /// Whether this job's next scheduled run lies before `now_ms` (unix
    /// milliseconds).
    pub fn sync_due(&self, now_ms: u64) -> (r: bool)
        ensures
            r == sync_due_at(self@, now_ms),
    {
        (self.next_sync as u128) * 1000 < (now_ms as u128)
    }

    /// The assignments a producer's parsed output stands for: each triple in
    /// order, tagged with this job's name.
    pub fn convert_output(&self, scripts: Vec<ScriptAssignment>) -> (r: Vec<Assignment>)
        ensures
            r@.len() == scripts@.len(),
            forall|i: int|
                0 <= i < scripts@.len() ==> (#[trigger] r@[i])@ == assignment_of_script(
                    scripts@[i]@,
                    self@.name,
                ),
    {
        let n = scripts.len();
        let mut r: Vec<Assignment> = Vec::new();
        let mut i: usize = 0;
        while i < n
            invariant
                n == scripts@.len(),
                i <= n,
                r@.len() == i,
                forall|k: int|
                    0 <= k < i ==> (#[trigger] r@[k])@ == assignment_of_script(
                        scripts@[k]@,
                        self@.name,
                    ),
            decreases n - i,
        {
            r.push(scripts[i].to_assignment(self.name.clone()));
            i += 1;
        }
        r
    }

    /// What one producer run contributes: its parsed triples, tagged with
    /// this job's name, when the process exited successfully and its output
    /// parsed; nothing on a failing exit code or unparseable output — both
    /// are soft failures, scoped to this job and this cycle.
    pub fn sync_outcome(&self, exit_success: bool, parsed: Option<Vec<ScriptAssignment>>) -> (r:
        Vec<Assignment>)
        ensures
            !exit_success || parsed is None ==> r@.len() == 0,
            exit_success ==> match parsed {
                Option::Some(scripts) => {
                    &&& r@.len() == scripts@.len()
                    &&& forall|i: int|
                        0 <= i < scripts@.len() ==> (#[trigger] r@[i])@ == assignment_of_script(
                            scripts@[i]@,
                            self@.name,
                        )
                },
                Option::None => r@.len() == 0,
            },
    {
        if !exit_success {
            return Vec::new();
        }
        match parsed {
            Option::Some(scripts) => self.convert_output(scripts),
            Option::None => Vec::new(),
        }
    }

    /// Record that a run starts at `now_s` (unix seconds): the last run is
    /// set to now and the next one is scheduled an interval later, before the
    /// producer is invoked, so a hung or failing producer is not retried on
    /// the very next tick.
    pub fn begin_sync(&mut self, now_s: u64)
        requires
            now_s + old(self).sync_interval <= u64::MAX,
        ensures
            final(self)@ == (JobView {
                last_sync: now_s,
                next_sync: (now_s + old(self)@.sync_interval) as u64,
                ..old(self)@
            }),
    {
        self.last_sync = now_s;
        self.next_sync = now_s + self.sync_interval;
    }
}

} // verus!
