use calendarthing::manager::Manager;
use calendarthing::model::Assignment;
use calendarthing::model::Job;
use calendarthing::model::ScriptAssignment;

fn store_with_cron_job(sync_to_google: bool) -> Manager {
    let mut m = Manager::empty();
    m.add_job(Job::new(
        "cron".to_string(),
        "/tmp/cron".to_string(),
        sync_to_google,
        3600,
    ));
    m
}

#[test]
fn empty_store_has_nothing() {
    let m = Manager::empty();
    assert_eq!(m.jobs.len(), 0);
    assert_eq!(m.assignments.len(), 0);
    assert_eq!(m.save_file, "");
}

#[test]
fn new_job_is_immediately_due() {
    let j = Job::new("cron".to_string(), "/tmp".to_string(), true, 60);
    assert_eq!(j.next_sync, 0);
    assert_eq!(j.last_sync, 0);
    assert!(j.sync_due(1));
    assert!(!j.sync_due(0));
}

#[test]
fn begin_sync_advances_schedule() {
    let mut j = Job::new("cron".to_string(), "/tmp".to_string(), true, 3600);
    j.begin_sync(1_700_000_000);
    assert_eq!(j.last_sync, 1_700_000_000);
    assert_eq!(j.next_sync, 1_700_003_600);
}

#[test]
fn failed_producer_still_advances_schedule() {
    // The schedule is advanced before the producer runs, so a producer that
    // exits with a failure code leaves next_sync advanced by the interval
    // and merges nothing.
    let mut m = store_with_cron_job(true);
    m.jobs[0].begin_sync(1_700_000_000);
    assert_eq!(m.jobs[0].next_sync, 1_700_003_600);
    let changed = m.reconcile(Vec::new());
    assert_eq!(changed.len(), 0);
    assert_eq!(m.assignments.len(), 0);
}

#[test]
fn add_job_with_same_name_merges() {
    let mut m = Manager::empty();
    let mut first = Job::new("cron".to_string(), "/a".to_string(), false, 10);
    first.last_sync = 500;
    m.add_job(first);
    m.add_job(Job::new("cron".to_string(), "/b".to_string(), true, 100));
    assert_eq!(m.jobs.len(), 1);
    assert_eq!(m.jobs[0].path, "/b");
    assert!(m.jobs[0].sync_to_google);
    assert_eq!(m.jobs[0].sync_interval, 100);
    assert_eq!(m.jobs[0].last_sync, 500);
    assert_eq!(m.jobs[0].next_sync, 600);
}

#[test]
fn remove_job_by_name() {
    let mut m = Manager::empty();
    m.add_job(Job::new("a".to_string(), "/a".to_string(), false, 10));
    m.add_job(Job::new("b".to_string(), "/b".to_string(), false, 10));
    m.remove_job(&"a".to_string());
    assert_eq!(m.jobs.len(), 1);
    assert_eq!(m.jobs[0].name, "b");
}

#[test]
fn upsert_assignment_replaces_by_identity() {
    let mut m = Manager::empty();
    m.add_assignment(Assignment::new(
        "CS101".to_string(),
        100,
        "HW 1".to_string(),
        "cron".to_string(),
    ));
    m.add_assignment(Assignment::new(
        "CS101".to_string(),
        999,
        "HW 1".to_string(),
        "cron".to_string(),
    ));
    assert_eq!(m.assignments.len(), 1);
    assert_eq!(m.assignments[0].due, 999);
}

#[test]
fn different_identities_both_kept() {
    let mut m = Manager::empty();
    m.add_assignment(Assignment::new(
        "CS101".to_string(),
        100,
        "HW 1".to_string(),
        "cron".to_string(),
    ));
    m.add_assignment(Assignment::new(
        "CS102".to_string(),
        100,
        "HW 1".to_string(),
        "cron".to_string(),
    ));
    assert_eq!(m.assignments.len(), 2);
}

#[test]
fn remove_assignment_by_link_name() {
    let mut m = Manager::empty();
    m.add_assignment(Assignment::new(
        "CS101".to_string(),
        100,
        "HW 1".to_string(),
        "cron".to_string(),
    ));
    m.remove_assignment(&"HW-1".to_string());
    assert_eq!(m.assignments.len(), 0);
}

#[test]
fn slug_substitutes_character_for_character() {
    assert_eq!(
        Assignment::get_link_name("Lab 2/Part A.pdf".to_string()),
        "Lab-2-Part-A-pdf"
    );
    assert_eq!(Assignment::get_link_name("plain".to_string()), "plain");
    assert_eq!(Assignment::get_link_name("".to_string()), "");
}

#[test]
fn slug_resolves_back_to_original_assignment() {
    let mut m = Manager::empty();
    m.add_assignment(Assignment::new(
        "CS101".to_string(),
        100,
        "Lab 2/Part A.pdf".to_string(),
        "cron".to_string(),
    ));
    let found = m.get_assignment_from_link_name("Lab-2-Part-A-pdf".to_string());
    assert!(found.is_some());
    assert_eq!(found.unwrap().name, "Lab 2/Part A.pdf");
    assert!(m
        .get_assignment_from_link_name("Lab-2-Part-A-pdg".to_string())
        .is_none());
}

#[test]
fn matcher_requires_equal_length() {
    let a = "abc".to_string();
    let b = "abcd".to_string();
    assert!(!Manager::assignment_match_link_name(&a, &b));
}

#[test]
fn matcher_tolerates_rewritten_characters() {
    assert!(Manager::assignment_match_link_name(
        &"a.b c/d".to_string(),
        &"a-b-c-d".to_string()
    ));
    assert!(Manager::assignment_match_link_name(
        &"x".to_string(),
        &"-".to_string()
    ));
    assert!(!Manager::assignment_match_link_name(
        &"ab".to_string(),
        &"cb".to_string()
    ));
}

#[test]
fn past_due_is_strict() {
    let a = Assignment::new("C".to_string(), 1, "n".to_string(), "j".to_string());
    assert!(!a.past_due(1000));
    assert!(a.past_due(1001));
}

#[test]
fn normalize_prunes_past_due() {
    let mut m = Manager::empty();
    m.add_assignment(Assignment::new(
        "C".to_string(),
        1,
        "old".to_string(),
        "j".to_string(),
    ));
    m.add_assignment(Assignment::new(
        "C".to_string(),
        5_000_000,
        "new".to_string(),
        "j".to_string(),
    ));
    m.normalize(2_000_000);
    assert_eq!(m.assignments.len(), 1);
    assert_eq!(m.assignments[0].name, "new");
}

#[test]
fn normalize_sorts_by_due_and_fixes_links() {
    let mut m = Manager::empty();
    m.add_assignment(Assignment::new(
        "C".to_string(),
        5,
        "c c".to_string(),
        "j".to_string(),
    ));
    m.add_assignment(Assignment::new(
        "C".to_string(),
        1,
        "a".to_string(),
        "j".to_string(),
    ));
    m.add_assignment(Assignment::new(
        "C".to_string(),
        3,
        "b".to_string(),
        "j".to_string(),
    ));
    // a stale link name is recomputed from the current name on load
    m.assignments[0].link_name = "stale".to_string();
    m.normalize(0);
    let dues: Vec<u64> = m.assignments.iter().map(|a| a.due).collect();
    assert_eq!(dues, vec![1, 3, 5]);
    let with_c = m.assignments.iter().find(|a| a.name == "c c").unwrap();
    assert_eq!(with_c.link_name, "c-c");
}

#[test]
fn changed_set_keeps_new_and_redated_drops_unchanged() {
    let mut m = Manager::empty();
    m.add_assignment(Assignment::new(
        "C".to_string(),
        100,
        "same".to_string(),
        "j".to_string(),
    ));
    m.add_assignment(Assignment::new(
        "C".to_string(),
        100,
        "moves".to_string(),
        "j".to_string(),
    ));
    let cands = vec![
        Assignment::new("C".to_string(), 100, "same".to_string(), "j".to_string()),
        Assignment::new("C".to_string(), 200, "moves".to_string(), "j".to_string()),
        Assignment::new("C".to_string(), 300, "fresh".to_string(), "j".to_string()),
    ];
    let changed = m.get_changed_assignments(cands);
    let names: Vec<&str> = changed.iter().map(|a| a.name.as_str()).collect();
    assert_eq!(names, vec!["moves", "fresh"]);
}

#[test]
fn one_cycle_updates_due_and_notifies_once() {
    // Store holds a notified copy; the producer reports a new due date.
    // Expected: the due date is updated, the merged copy is re-marked
    // synced by the catch-up pass, and exactly one notification goes out.
    let mut m = store_with_cron_job(true);
    let mut stored = Assignment::new(
        "CS101".to_string(),
        1_700_000_000,
        "HW 1".to_string(),
        "cron".to_string(),
    );
    stored.synced = Some(true);
    m.add_assignment(stored);
    let script = ScriptAssignment {
        course: "CS101".to_string(),
        due: 1_700_003_600,
        name: "HW 1".to_string(),
    };
    let cand = script.to_assignment("cron".to_string());
    let changed = m.reconcile(vec![cand]);
    assert_eq!(m.assignments.len(), 1);
    assert_eq!(m.assignments[0].due, 1_700_003_600);
    assert_eq!(m.assignments[0].synced, Some(true));
    let notify = m.to_notify(&changed);
    assert_eq!(notify.len(), 1);
    assert_eq!(notify[0].due, 1_700_003_600);
}

#[test]
fn reconcile_twice_is_idempotent() {
    let mut m = store_with_cron_job(true);
    let cands = vec![
        Assignment::new("C".to_string(), 100, "a".to_string(), "cron".to_string()),
        Assignment::new("C".to_string(), 200, "b".to_string(), "cron".to_string()),
    ];
    let first = m.reconcile(cands.clone());
    assert!(!first.is_empty());
    let second = m.reconcile(cands.clone());
    assert!(second.is_empty());
    let third = m.reconcile(Vec::new());
    assert!(third.is_empty());
}

#[test]
fn done_assignments_are_requeued_every_cycle() {
    let mut m = store_with_cron_job(true);
    let mut a = Assignment::new("C".to_string(), 100, "a".to_string(), "cron".to_string());
    a.synced = Some(true);
    a.done = true;
    m.add_assignment(a);
    let changed = m.reconcile(Vec::new());
    assert_eq!(changed.len(), 1);
    assert!(changed[0].done);
    // ... and re-sent downstream, so it stays informed of completion state.
    assert_eq!(m.to_notify(&changed).len(), 1);
}

#[test]
fn never_notified_assignment_is_dispatched_by_catch_up() {
    // At-least-once delivery: an assignment that was merged but never
    // notified (say the process crashed between merge and notify) is
    // re-queued by the catch-up pass and actually dispatched.
    let mut m = store_with_cron_job(true);
    m.add_assignment(Assignment::new(
        "C".to_string(),
        100,
        "a".to_string(),
        "cron".to_string(),
    ));
    let changed = m.reconcile(Vec::new());
    assert_eq!(changed.len(), 1);
    let sent = m.to_notify(&changed);
    assert_eq!(sent.len(), 1);
    assert_eq!(sent[0].name, "a");
    // the store copy is now marked synced, so the next cycle sends nothing
    let changed = m.reconcile(Vec::new());
    assert_eq!(m.to_notify(&changed).len(), 0);
}

#[test]
fn same_identity_is_dispatched_at_most_once_per_cycle() {
    let mut m = store_with_cron_job(true);
    let a = Assignment::new("C".to_string(), 100, "a".to_string(), "cron".to_string());
    let changed = vec![a.clone(), a.clone()];
    assert_eq!(m.to_notify(&changed).len(), 1);
}

#[test]
fn sync_outcome_follows_producer_policy() {
    let j = Job::new("cron".to_string(), "/tmp".to_string(), true, 60);
    let scripts = vec![ScriptAssignment {
        course: "C".to_string(),
        due: 9,
        name: "n".to_string(),
    }];
    // failing exit code: zero assignments, even with parseable output
    assert_eq!(j.sync_outcome(false, Some(scripts.clone())).len(), 0);
    // unparseable output: zero assignments
    assert_eq!(j.sync_outcome(true, None).len(), 0);
    let out = j.sync_outcome(true, Some(scripts));
    assert_eq!(out.len(), 1);
    assert_eq!(out[0].due, 9);
    assert_eq!(out[0].job_name, Some("cron".to_string()));
}

#[test]
fn notifier_skips_disabled_and_manual() {
    let mut m = store_with_cron_job(false);
    let by_disabled_job =
        Assignment::new("C".to_string(), 100, "a".to_string(), "cron".to_string());
    let by_unknown_job =
        Assignment::new("C".to_string(), 100, "b".to_string(), "manual".to_string());
    let changed = vec![by_disabled_job, by_unknown_job];
    assert_eq!(m.to_notify(&changed).len(), 0);
    m.jobs[0].sync_to_google = true;
    assert_eq!(m.to_notify(&changed).len(), 1);
}

#[test]
fn mark_done_replaces_resolved_assignment() {
    let mut m = Manager::empty();
    m.add_assignment(Assignment::new(
        "C".to_string(),
        100,
        "HW 1".to_string(),
        "j".to_string(),
    ));
    m.mark_done("HW-1".to_string());
    assert_eq!(m.assignments.len(), 1);
    assert!(m.assignments[0].done);
    // an unknown link name changes nothing
    m.mark_done("none such".to_string());
    assert_eq!(m.assignments.len(), 1);
}

#[test]
fn should_sync_finds_any_due_job() {
    let mut m = Manager::empty();
    assert!(!m.should_sync(u64::MAX));
    let mut j = Job::new("a".to_string(), "/a".to_string(), false, 10);
    j.next_sync = 10;
    m.add_job(j);
    assert!(!m.should_sync(10_000));
    assert!(m.should_sync(10_001));
}

#[test]
fn get_job_finds_first_by_name() {
    let mut m = Manager::empty();
    m.add_job(Job::new("a".to_string(), "/a".to_string(), false, 10));
    assert!(m.get_job("a".to_string()).is_some());
    assert!(m.get_job("b".to_string()).is_none());
}

#[test]
fn fix_home_expands_tilde() {
    assert_eq!(
        Job::fix_home("~/work".to_string(), "/home/u"),
        "/home/u/work"
    );
    assert_eq!(Job::fix_home("/abs".to_string(), "/home/u"), "/abs");
    assert_eq!(Job::fix_home("~~".to_string(), "/h"), "/h/h");
}

#[test]
fn fix_link_name_recomputes_from_name() {
    let mut a = Assignment::new("C".to_string(), 1, "a b".to_string(), "j".to_string());
    a.link_name = "wrong".to_string();
    let fixed = a.fix_link_name();
    assert_eq!(fixed.link_name, "a-b");
    assert_eq!(fixed.name, "a b");
}

#[test]
fn convert_output_tags_each_triple() {
    let j = Job::new("cron".to_string(), "/tmp".to_string(), true, 60);
    let scripts = vec![
        ScriptAssignment {
            course: "C1".to_string(),
            due: 1,
            name: "a b".to_string(),
        },
        ScriptAssignment {
            course: "C2".to_string(),
            due: 2,
            name: "c".to_string(),
        },
    ];
    let out = j.convert_output(scripts);
    assert_eq!(out.len(), 2);
    assert_eq!(out[0].job_name, Some("cron".to_string()));
    assert_eq!(out[0].link_name, "a-b");
    assert_eq!(out[1].course, "C2");
    assert_eq!(out[1].due, 2);
}

#[test]
fn edit_assignment_updates_due_and_course_in_place() {
    let mut m = Manager::empty();
    m.add_assignment(Assignment::new(
        "C1".to_string(),
        100,
        "HW 1".to_string(),
        "j".to_string(),
    ));
    m.add_assignment(Assignment::new(
        "C1".to_string(),
        200,
        "HW 2".to_string(),
        "j".to_string(),
    ));
    assert!(m.edit_assignment(&"HW 1".to_string(), 150, "C9".to_string()));
    assert_eq!(m.assignments[0].due, 150);
    assert_eq!(m.assignments[0].course, "C9");
    assert_eq!(m.assignments[0].name, "HW 1");
    assert_eq!(m.assignments[1].due, 200);
    assert!(!m.edit_assignment(&"HW 9".to_string(), 1, "X".to_string()));
}

#[test]
fn request_run_forces_next_sync_to_zero() {
    let mut m = Manager::empty();
    let mut j = Job::new("a".to_string(), "/a".to_string(), false, 10);
    j.next_sync = 999;
    m.add_job(j);
    assert!(m.request_run(&"a".to_string()));
    assert_eq!(m.jobs[0].next_sync, 0);
    assert!(!m.request_run(&"b".to_string()));
}

#[test]
fn script_assignment_becomes_tagged_assignment() {
    let s = ScriptAssignment {
        course: "C".to_string(),
        due: 7,
        name: "n.x".to_string(),
    };
    let a = s.to_assignment("job".to_string());
    assert_eq!(a.course, "C");
    assert_eq!(a.due, 7);
    assert_eq!(a.job_name, Some("job".to_string()));
    assert_eq!(a.synced, None);
    assert_eq!(a.link_name, "n-x");
    assert!(!a.done);
}
