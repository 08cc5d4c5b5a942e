use round_robin_dispatcher::process::{Process, ProcessState, SchedulerResult};

#[test]
fn new_process_has_not_entered_the_system() {
    let p = Process::new(3, 7, 11, 2);
    assert_eq!(p.pid, 3);
    assert_eq!(p.arrival_time, 7);
    assert_eq!(p.burst_time, 11);
    assert_eq!(p.priority, 2);
    assert_eq!(p.exit_time, None);
    assert!(matches!(p.state, ProcessState::NotInSystem));
    assert_eq!(p.progress, 0);
}

#[test]
fn run_for_advances_progress() {
    let mut p = Process::new(0, 0, 10, 0);
    assert_eq!(p.run_for(3), 3);
    assert_eq!(p.progress, 3);
    assert!(!matches!(p.state, ProcessState::Finished));
    assert_eq!(p.time_to_complete(), 7);
}

#[test]
fn run_for_zero_ticks_is_a_no_op() {
    let mut p = Process::new(0, 0, 10, 0);
    p.run_for(4);
    assert_eq!(p.run_for(0), 4);
    assert_eq!(p.progress, 4);
    assert!(!matches!(p.state, ProcessState::Finished));
}

#[test]
fn run_for_clamps_at_burst_and_finishes() {
    let mut p = Process::new(0, 0, 5, 0);
    p.run_for(4);
    assert_eq!(p.run_for(4), 5);
    assert_eq!(p.progress, 5);
    assert!(matches!(p.state, ProcessState::Finished));
    assert_eq!(p.time_to_complete(), 0);
}

#[test]
fn derived_values_unavailable_before_exit() {
    let mut p = Process::new(0, 2, 5, 0);
    assert_eq!(p.turnaround_time(), None);
    assert_eq!(p.wait_time(), None);
    p.run_for(5);
    // `run_for` alone does not set the exit time; the dispatcher does.
    assert_eq!(p.turnaround_time(), None);
}

#[test]
fn derived_values_are_idempotent() {
    let mut p = Process::new(0, 2, 5, 0);
    p.run_for(5);
    p.exit_time = Some(9);
    let t1 = p.turnaround_time();
    let t2 = p.turnaround_time();
    assert_eq!(t1, Some(7));
    assert_eq!(t1, t2);
    let w1 = p.wait_time();
    let w2 = p.wait_time();
    assert_eq!(w1, Some(2));
    assert_eq!(w1, w2);
}

#[test]
fn process_equality_is_by_id_alone() {
    let a = Process::new(4, 0, 10, 0);
    let b = Process::new(4, 99, 1, 7);
    let c = Process::new(5, 0, 10, 0);
    assert!(a == b);
    assert!(a != c);
}

#[test]
fn scheduler_result_fields_are_plain_data() {
    let r = SchedulerResult {
        total_wait_time: 33,
        total_turnaround_time: 55,
        process_count: 4,
        gantt: Vec::new(),
    };
    let s = r.clone();
    assert_eq!(r, s);
    assert_eq!(s.total_wait_time, 33);
    assert_eq!(s.total_turnaround_time, 55);
}
