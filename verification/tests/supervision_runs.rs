use supervise::guard::PortForwardGuard;
use supervise::supervisor::convert_status;
use supervise::supervisor::Event;
use supervise::supervisor::ExitStatus;
use supervise::supervisor::Phase;
use supervise::supervisor::Supervisor;
use supervise::supervisor::INTERRUPT_SIGNAL;
use supervise::supervisor::LAUNCH_FAILURE_CODE;

#[test]
fn convert_status_distinguishes_signals() {
    assert_eq!(convert_status(ExitStatus::Exited(5)), 5);
    assert_eq!(convert_status(ExitStatus::Exited(0)), 0);
    assert_eq!(convert_status(ExitStatus::Signaled(9)), 137);
    assert_eq!(convert_status(ExitStatus::Signaled(15)), 143);
}

#[test]
fn first_clean_exit_stops_the_others() {
    // Two host-net children; `a` exits first with code 0: the result code is
    // 0 and `b` is sent the terminate signal.
    let mut sup = Supervisor::new();
    sup.note_spawned(10, "a".to_string());
    sup.note_spawned(11, "b".to_string());
    let act = sup.finish_launch();
    assert_eq!(sup.phase(), Phase::Running);
    assert!(act.signal.is_empty());
    assert!(act.finished.is_none());

    let act = sup.step(&Event::ChildDeath(vec![(10, ExitStatus::Exited(0))]));
    assert_eq!(act.signal, vec![11]);
    assert!(act.finished.is_none());
    let (child, status) = act.report.unwrap();
    assert_eq!(child.name, "a");
    assert_eq!(child.pid, 10);
    assert_eq!(status, ExitStatus::Exited(0));
    assert_eq!(sup.phase(), Phase::Draining);
    assert_eq!(sup.result_code(), 0);

    let act = sup.step(&Event::ChildDeath(vec![(11, ExitStatus::Signaled(15))]));
    assert_eq!(act.finished, Some(0));
    assert_eq!(sup.phase(), Phase::Drained);
    assert_eq!(sup.result_code(), 0);
    assert_eq!(sup.tracked_count(), 0);
}

#[test]
fn failed_spawn_still_attempts_the_rest_and_reports_launch_failure() {
    // `a` fails to spawn, `b` is still attempted and starts; the final
    // result code is the launch-failure code.
    let mut sup = Supervisor::new();
    sup.note_spawn_failed();
    sup.note_spawned(7, "b".to_string());
    assert_eq!(sup.tracked_count(), 1);
    let act = sup.finish_launch();
    assert_eq!(act.signal, vec![7]);
    assert!(act.finished.is_none());
    assert_eq!(sup.phase(), Phase::Draining);
    assert_eq!(sup.result_code(), LAUNCH_FAILURE_CODE);

    let act = sup.step(&Event::ChildDeath(vec![(7, ExitStatus::Signaled(15))]));
    assert_eq!(act.finished, Some(LAUNCH_FAILURE_CODE));
    assert_eq!(sup.phase(), Phase::Drained);
    assert_eq!(sup.result_code(), 127);
}

#[test]
fn nothing_spawned_and_a_failure_is_drained_at_once() {
    let mut sup = Supervisor::new();
    sup.note_spawn_failed();
    let act = sup.finish_launch();
    assert!(act.signal.is_empty());
    assert_eq!(act.finished, Some(LAUNCH_FAILURE_CODE));
    assert_eq!(sup.phase(), Phase::Drained);
}

#[test]
fn interrupt_drains_without_extra_signalling() {
    // A networked child and the bridge run; an interrupt arrives while
    // Running: nobody needs an extra signal, the result code is 128 + the
    // interrupt number, and the run is drained once both are reaped.
    let mut sup = Supervisor::new();
    sup.note_spawned(5, "api".to_string());
    sup.note_spawned(6, "router".to_string());
    sup.finish_launch();
    assert_eq!(sup.phase(), Phase::Running);

    let act = sup.step(&Event::Interrupt);
    assert!(act.signal.is_empty());
    assert!(act.finished.is_none());
    assert_eq!(sup.phase(), Phase::Draining);
    assert_eq!(sup.result_code(), 128 + INTERRUPT_SIGNAL);

    let act = sup.step(&Event::ChildDeath(vec![(5, ExitStatus::Signaled(2))]));
    assert!(act.finished.is_none());
    let act = sup.step(&Event::ChildDeath(vec![(6, ExitStatus::Signaled(2))]));
    assert_eq!(act.finished, Some(128 + INTERRUPT_SIGNAL));
    assert_eq!(sup.phase(), Phase::Drained);
}

#[test]
fn terminate_is_forwarded_to_every_child() {
    let mut sup = Supervisor::new();
    sup.note_spawned(21, "a".to_string());
    sup.note_spawned(22, "b".to_string());
    sup.finish_launch();

    let act = sup.step(&Event::Terminate);
    assert_eq!(act.signal, vec![21, 22]);
    assert!(act.finished.is_none());
    assert_eq!(sup.phase(), Phase::Draining);
    assert_eq!(sup.result_code(), 128 + INTERRUPT_SIGNAL);

    // A later terminate while draining re-signals whoever is left.
    let act = sup.step(&Event::ChildDeath(vec![(21, ExitStatus::Signaled(15))]));
    assert!(act.finished.is_none());
    let act = sup.step(&Event::Terminate);
    assert_eq!(act.signal, vec![22]);
    let act = sup.step(&Event::ChildDeath(vec![(22, ExitStatus::Signaled(15))]));
    assert_eq!(act.finished, Some(128 + INTERRUPT_SIGNAL));
}

#[test]
fn interrupt_while_draining_is_ignored() {
    let mut sup = Supervisor::new();
    sup.note_spawned(41, "a".to_string());
    sup.note_spawned(42, "b".to_string());
    sup.finish_launch();
    sup.step(&Event::ChildDeath(vec![(41, ExitStatus::Exited(2))]));
    assert_eq!(sup.phase(), Phase::Draining);

    let act = sup.step(&Event::Interrupt);
    assert!(act.signal.is_empty());
    assert!(act.report.is_none());
    assert!(act.finished.is_none());
    assert_eq!(sup.phase(), Phase::Draining);
    assert_eq!(sup.result_code(), 2);

    let act = sup.step(&Event::ChildDeath(vec![(42, ExitStatus::Signaled(15))]));
    assert_eq!(act.finished, Some(2));
}

#[test]
fn fatal_signal_of_the_first_exit_shapes_the_result_code() {
    // One networked child dies of an uncaught fatal signal: the result code
    // reflects the signal termination, not a plain exit code.
    let mut sup = Supervisor::new();
    sup.note_spawned(9, "api".to_string());
    sup.finish_launch();

    let act = sup.step(&Event::ChildDeath(vec![(9, ExitStatus::Signaled(9))]));
    assert_eq!(act.finished, Some(137));
    assert_eq!(sup.result_code(), 137);
    assert_ne!(sup.result_code(), 9);
    assert_eq!(sup.phase(), Phase::Drained);
}

#[test]
fn one_sweep_reaps_every_listed_child_exactly_once() {
    // Both children die before the supervisor wakes up: the sweep reports
    // the first tracked child as the trigger, removes both, and the run is
    // drained with the trigger's code.
    let mut sup = Supervisor::new();
    sup.note_spawned(1, "a".to_string());
    sup.note_spawned(2, "b".to_string());
    sup.finish_launch();

    let act = sup.step(&Event::ChildDeath(vec![
        (1, ExitStatus::Exited(3)),
        (2, ExitStatus::Exited(4)),
    ]));
    let (child, status) = act.report.unwrap();
    assert_eq!(child.name, "a");
    assert_eq!(status, ExitStatus::Exited(3));
    assert!(act.signal.is_empty());
    assert_eq!(act.finished, Some(3));
    assert_eq!(sup.tracked_count(), 0);
    assert_eq!(sup.phase(), Phase::Drained);
}

#[test]
fn unknown_pids_in_a_sweep_are_ignored() {
    let mut sup = Supervisor::new();
    sup.note_spawned(31, "a".to_string());
    sup.finish_launch();

    let act = sup.step(&Event::ChildDeath(vec![(99, ExitStatus::Exited(1))]));
    assert!(act.report.is_none());
    assert!(act.finished.is_none());
    assert_eq!(sup.phase(), Phase::Running);
    assert_eq!(sup.tracked_count(), 1);
    assert!(sup.contains_pid(31));
    assert!(!sup.contains_pid(99));
}

#[test]
fn guard_hands_out_rules_once_and_release_is_idempotent() {
    let mut g = PortForwardGuard::new("10.0.0.1".to_string(), vec![8080, 8443]);
    assert_eq!(g.ip(), "10.0.0.1");
    assert_eq!(g.ports(), &vec![8080, 8443]);
    let installed = g.start_forwarding();
    assert_eq!(installed, vec![8080, 8443]);
    let removed = g.release();
    assert_eq!(removed, vec![8080, 8443]);
    let removed_again = g.release();
    assert!(removed_again.is_empty());
    let removed_third = g.release();
    assert!(removed_third.is_empty());
}

#[test]
fn guard_never_started_releases_nothing() {
    let mut g = PortForwardGuard::new("10.0.0.1".to_string(), vec![8080]);
    let removed = g.release();
    assert!(removed.is_empty());
    let removed_again = g.release();
    assert!(removed_again.is_empty());
}
