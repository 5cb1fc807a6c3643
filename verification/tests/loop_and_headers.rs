use calendarthing::network::Header;
use calendarthing::network::Headers;
use calendarthing::scheduler::sched_step;
use calendarthing::scheduler::SchedAction;
use calendarthing::scheduler::SchedState;

#[test]
fn headers_contains_by_name() {
    let h = Headers::new(vec![
        Header::new("hx-request".to_string(), "true".to_string()),
        Header::new("accept".to_string(), "text/html".to_string()),
    ]);
    assert!(h.contains("hx-request".to_string()));
    assert!(h.contains("accept".to_string()));
    assert!(!h.contains("content-type".to_string()));
    let none = Headers::new(Vec::new());
    assert!(!none.contains("hx-request".to_string()));
}

#[test]
fn loop_runs_one_cycle_then_sleeps() {
    let (s, a) = sched_step(SchedState::Idle, false);
    assert_eq!(s, SchedState::Running);
    assert_eq!(a, SchedAction::Cycle);
    let (s, a) = sched_step(s, false);
    assert_eq!(s, SchedState::Sleeping { remaining: 10 });
    assert_eq!(a, SchedAction::Sleep { seconds: 1 });
}

#[test]
fn loop_sleeps_in_ticks_then_wakes() {
    let mut s = SchedState::Sleeping { remaining: 10 };
    let mut ticks = 0;
    loop {
        let (next, action) = sched_step(s, false);
        s = next;
        match action {
            SchedAction::Sleep { seconds } => {
                assert_eq!(seconds, 1);
                ticks += 1;
            }
            SchedAction::Pass => break,
            _ => panic!("unexpected action"),
        }
    }
    assert_eq!(ticks, 9);
    assert_eq!(s, SchedState::Idle);
}

#[test]
fn shutdown_is_observed_within_one_tick() {
    let (s, a) = sched_step(SchedState::Sleeping { remaining: 7 }, true);
    assert_eq!(s, SchedState::Shutdown);
    assert_eq!(a, SchedAction::Exit);
    let (s, a) = sched_step(SchedState::Shutdown, false);
    assert_eq!(s, SchedState::Shutdown);
    assert_eq!(a, SchedAction::Exit);
}
