use serve::Action;
use serve::Coordinator;
use serve::Event;
use serve::Phase;

#[test]
fn coordinator_drains_clean() {
    let mut c = Coordinator::new();
    assert_eq!(c.phase(), Phase::Accepting);
    assert!(matches!(c.step(Event::Accepted), Action::Admit(0)));
    assert!(matches!(c.step(Event::Accepted), Action::Admit(1)));
    assert!(matches!(c.step(Event::Accepted), Action::Admit(2)));
    assert_eq!(c.live_count(), 3);

    assert!(matches!(c.step(Event::Interrupted), Action::BeginDrain));
    assert_eq!(c.phase(), Phase::Draining);

    assert!(matches!(c.step(Event::ConnDone(1)), Action::Ignore));
    assert!(matches!(c.step(Event::ConnDone(0)), Action::Ignore));
    assert!(matches!(c.step(Event::ConnDone(2)), Action::ExitClean));

    assert_eq!(c.phase(), Phase::Terminated);
    assert_eq!(c.live_count(), 0);
    assert!(!c.was_forced());
    assert_eq!(c.exit_code(), 0);
}

#[test]
fn coordinator_forced_on_grace_timeout() {
    let mut c = Coordinator::new();
    assert!(matches!(c.step(Event::Accepted), Action::Admit(0)));
    assert!(matches!(c.step(Event::Accepted), Action::Admit(1)));
    assert!(matches!(c.step(Event::TimerElapsed), Action::BeginDrain));
    assert!(matches!(c.step(Event::ConnDone(0)), Action::Ignore));

    // one connection is still live when the grace period runs out
    assert!(matches!(c.step(Event::GraceElapsed), Action::ExitForced));
    assert_eq!(c.phase(), Phase::Terminated);
    assert_eq!(c.live_count(), 1);
    assert!(c.was_forced());
    assert_eq!(c.exit_code(), 1);
}

#[test]
fn coordinator_admits_nothing_after_trigger() {
    let mut c = Coordinator::new();
    assert!(matches!(c.step(Event::Accepted), Action::Admit(0)));
    assert!(matches!(c.step(Event::Interrupted), Action::BeginDrain));

    // acceptance readiness after the trigger is never admitted
    assert!(matches!(c.step(Event::Accepted), Action::Ignore));
    assert!(matches!(c.step(Event::Accepted), Action::Ignore));
    assert_eq!(c.live_count(), 1);
    assert_eq!(c.phase(), Phase::Draining);

    assert!(matches!(c.step(Event::ConnDone(0)), Action::ExitClean));
    assert!(matches!(c.step(Event::Accepted), Action::Ignore));
    assert_eq!(c.live_count(), 0);
    assert_eq!(c.phase(), Phase::Terminated);
}

#[test]
fn coordinator_trigger_with_nothing_live_exits_clean() {
    let mut c = Coordinator::new();
    assert!(matches!(c.step(Event::Interrupted), Action::ExitClean));
    assert_eq!(c.phase(), Phase::Terminated);
    assert!(!c.was_forced());
    assert_eq!(c.exit_code(), 0);
}

#[test]
fn run_exits_zero_when_all_drain() {
    let events = vec![
        Event::Accepted,
        Event::Accepted,
        Event::Interrupted,
        Event::ConnDone(0),
        Event::ConnDone(1),
    ];
    let report = serve::run_events(true, &events);
    assert!(report.exited);
    assert_eq!(report.exit_code, 0);
    assert_eq!(report.admitted, 2);
}

#[test]
fn run_exits_nonzero_on_grace_timeout() {
    let events = vec![
        Event::Accepted,
        Event::Accepted,
        Event::TimerElapsed,
        Event::ConnDone(1),
        Event::GraceElapsed,
    ];
    let report = serve::run_events(true, &events);
    assert!(report.exited);
    assert_eq!(report.exit_code, 1);
    assert_eq!(report.admitted, 2);
}

#[test]
fn run_without_trigger_keeps_running() {
    let events = vec![Event::Accepted, Event::Accepted, Event::ConnDone(0)];
    let report = serve::run_events(true, &events);
    assert!(!report.exited);
    assert_eq!(report.exit_code, 0);
    assert_eq!(report.admitted, 2);
}

#[test]
fn bind_failure_precedes_any_accept() {
    // the listener could not be bound: the run is over before the accept
    // loop ever sees a connection
    let events = vec![Event::Accepted, Event::Accepted, Event::Interrupted];
    let report = serve::run_events(false, &events);
    assert!(report.exited);
    assert_eq!(report.exit_code, 1);
    assert_eq!(report.admitted, 0);
}
