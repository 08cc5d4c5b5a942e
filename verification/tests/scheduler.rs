use round_robin_dispatcher::gantt::GanttNode;
use round_robin_dispatcher::process::Process;
use round_robin_dispatcher::{RoundRobinDispatcher, ScheduleError};

fn dispatcher_with(specs: &[(usize, usize)], quantum: usize) -> RoundRobinDispatcher {
    let mut d = RoundRobinDispatcher::new();
    d.set_quantum(quantum);
    for (i, &(arrival, burst)) in specs.iter().enumerate() {
        d.add_process(Process::new(i, arrival, burst, 0));
    }
    d
}

fn exit_times(d: &RoundRobinDispatcher) -> Vec<usize> {
    d.process_list().iter().map(|p| p.exit_time.unwrap()).collect()
}

#[test]
fn reference_scenario() {
    // Processes {id=0, arrival=0, burst=10}, {id=1, arrival=1, burst=6},
    // {id=2, arrival=3, burst=2}, {id=3, arrival=5, burst=4}, quantum 2.
    let mut d = dispatcher_with(&[(0, 10), (1, 6), (3, 2), (5, 4)], 2);
    assert!(d.run().is_ok());
    assert_eq!(exit_times(&d), vec![22, 16, 8, 18]);

    let r = d.result().unwrap();
    assert_eq!(r.process_count, 4);
    assert_eq!(r.total_turnaround_time, 22 + 15 + 5 + 13);
    assert_eq!(r.total_wait_time, 12 + 9 + 3 + 9);
    let avg_tat = r.total_turnaround_time as f64 / r.process_count as f64;
    let avg_wait = r.total_wait_time as f64 / r.process_count as f64;
    assert_eq!(avg_tat, 13.75);
    assert_eq!(avg_wait, 8.25);
}

#[test]
fn reference_scenario_turnaround_and_wait() {
    let mut d = dispatcher_with(&[(0, 10), (1, 6), (3, 2), (5, 4)], 2);
    assert!(d.run().is_ok());
    let ps = d.process_list();
    let turnarounds: Vec<usize> = ps.iter().map(|p| p.turnaround_time().unwrap()).collect();
    let waits: Vec<usize> = ps.iter().map(|p| p.wait_time().unwrap()).collect();
    assert_eq!(turnarounds, vec![22, 15, 5, 13]);
    assert_eq!(waits, vec![12, 9, 3, 9]);
}

#[test]
fn single_process_partial_final_quantum() {
    // One process, arrival 0, burst 5, quantum 2: two full quanta and one
    // partial one; the exit time is not rounded up.
    let mut d = dispatcher_with(&[(0, 5)], 2);
    assert!(d.run().is_ok());
    let p = &d.process_list()[0];
    assert_eq!(p.exit_time, Some(5));
    assert_eq!(p.turnaround_time(), Some(5));
    assert_eq!(p.wait_time(), Some(0));
    let r = d.result().unwrap();
    assert_eq!(r.total_turnaround_time as f64 / r.process_count as f64, 5.0);
    assert_eq!(r.total_wait_time as f64 / r.process_count as f64, 0.0);
    assert_eq!(
        r.gantt,
        vec![
            GanttNode { pid: 0, start: 0, end: 2 },
            GanttNode { pid: 0, start: 2, end: 4 },
            GanttNode { pid: 0, start: 4, end: 5 },
        ]
    );
}

#[test]
fn default_quantum_is_two_ticks() {
    let mut d = RoundRobinDispatcher::new();
    d.add_process(Process::new(0, 0, 5, 0));
    assert!(d.run().is_ok());
    assert_eq!(d.process_list()[0].exit_time, Some(5));
    assert_eq!(d.result().unwrap().gantt.len(), 3);
}

#[test]
fn exact_multiple_ends_on_quantum_boundary() {
    // A burst that is an exact multiple of the quantum: the final Gantt
    // interval ends exactly at the exit time and is a whole quantum wide.
    let mut d = dispatcher_with(&[(0, 6)], 2);
    assert!(d.run().is_ok());
    let exit = d.process_list()[0].exit_time.unwrap();
    assert_eq!(exit, 6);
    let r = d.result().unwrap();
    let last = *r.gantt.last().unwrap();
    assert_eq!(last.end, exit);
    assert_eq!(last.end - last.start, 2);
    for node in &r.gantt {
        assert_eq!(node.end - node.start, 2);
    }
}

#[test]
fn conservation_of_work() {
    // Sum of the Gantt durations equals the sum of the bursts, the
    // intervals tile the timeline without gaps, and the final tick equals
    // the same sum.
    let specs = [(0usize, 10usize), (1, 6), (3, 2), (5, 4)];
    let mut d = dispatcher_with(&specs, 2);
    assert!(d.run().is_ok());
    let r = d.result().unwrap();
    let total_burst: usize = specs.iter().map(|&(_, b)| b).sum();
    let total_duration: usize = r.gantt.iter().map(|n| n.end - n.start).sum();
    assert_eq!(total_duration, total_burst);
    assert_eq!(r.gantt[0].start, 0);
    for w in r.gantt.windows(2) {
        assert_eq!(w[1].start, w[0].end);
    }
    assert_eq!(r.gantt.last().unwrap().end, total_burst);
}

#[test]
fn turnaround_at_least_burst_and_wait_nonnegative() {
    let specs = [(0usize, 7usize), (2, 1), (2, 9), (11, 3)];
    let mut d = dispatcher_with(&specs, 3);
    assert!(d.run().is_ok());
    for (p, &(_, burst)) in d.process_list().iter().zip(specs.iter()) {
        let tat = p.turnaround_time().unwrap();
        let wait = p.wait_time().unwrap();
        assert!(tat >= burst);
        assert_eq!(wait, tat - burst);
    }
}

#[test]
fn fairness_round_robin_order() {
    // The process that just ran and did not finish is re-queued behind the
    // processes that arrived in the meantime: the full interleaving of the
    // reference scenario.
    let mut d = dispatcher_with(&[(0, 10), (1, 6), (3, 2), (5, 4)], 2);
    assert!(d.run().is_ok());
    let pids: Vec<usize> = d.result().unwrap().gantt.iter().map(|n| n.pid).collect();
    assert_eq!(pids, vec![0, 1, 0, 2, 1, 3, 0, 1, 3, 0, 0]);
}

#[test]
fn repeated_runs_are_identical() {
    let specs = [(0usize, 10usize), (1, 6), (3, 2), (5, 4)];
    let mut d1 = dispatcher_with(&specs, 2);
    let mut d2 = dispatcher_with(&specs, 2);
    assert!(d1.run().is_ok());
    assert!(d2.run().is_ok());
    assert_eq!(d1.result().unwrap(), d2.result().unwrap());
    assert_eq!(exit_times(&d1), exit_times(&d2));
    assert_eq!(d1.result().unwrap().gantt, d2.result().unwrap().gantt);
}

#[test]
fn quantum_three_scenario() {
    let mut d = dispatcher_with(&[(0, 7), (0, 5)], 3);
    assert!(d.run().is_ok());
    assert_eq!(exit_times(&d), vec![12, 11]);
    let r = d.result().unwrap();
    assert_eq!(
        r.gantt,
        vec![
            GanttNode { pid: 0, start: 0, end: 3 },
            GanttNode { pid: 1, start: 3, end: 6 },
            GanttNode { pid: 0, start: 6, end: 9 },
            GanttNode { pid: 1, start: 9, end: 11 },
            GanttNode { pid: 0, start: 11, end: 12 },
        ]
    );
}

#[test]
fn compaction_merges_three_consecutive_intervals() {
    // Regression for chart compaction across 3+ consecutive intervals of
    // the same process: the merged interval must end at the later
    // interval's end tick.
    let mut d = dispatcher_with(&[(0, 6)], 2);
    d.set_minimize_chart(true);
    assert!(d.run().is_ok());
    let r = d.result().unwrap();
    assert_eq!(r.gantt, vec![GanttNode { pid: 0, start: 0, end: 6 }]);
}

#[test]
fn compaction_keeps_distinct_neighbours() {
    let mut d = dispatcher_with(&[(0, 10), (1, 6), (3, 2), (5, 4)], 2);
    d.set_minimize_chart(true);
    assert!(d.run().is_ok());
    let r = d.result().unwrap();
    let pids: Vec<usize> = r.gantt.iter().map(|n| n.pid).collect();
    assert_eq!(pids, vec![0, 1, 0, 2, 1, 3, 0, 1, 3, 0]);
    assert_eq!(*r.gantt.last().unwrap(), GanttNode { pid: 0, start: 18, end: 22 });
    let totals: usize = r.gantt.iter().map(|n| n.end - n.start).sum();
    assert_eq!(totals, 22);
}

#[test]
fn compaction_does_not_change_averages() {
    let specs = [(0usize, 10usize), (1, 6), (3, 2), (5, 4)];
    let mut plain = dispatcher_with(&specs, 2);
    let mut compacted = dispatcher_with(&specs, 2);
    compacted.set_minimize_chart(true);
    assert!(plain.run().is_ok());
    assert!(compacted.run().is_ok());
    let rp = plain.result().unwrap();
    let rc = compacted.result().unwrap();
    assert_eq!(rp.total_turnaround_time, rc.total_turnaround_time);
    assert_eq!(rp.total_wait_time, rc.total_wait_time);
    assert_eq!(rp.process_count, rc.process_count);
}

#[test]
fn run_with_no_processes_fails() {
    let mut d = RoundRobinDispatcher::new();
    assert_eq!(d.run(), Err(ScheduleError::NoProcesses));
    assert!(d.result().is_none());
}

#[test]
fn unreachable_arrival_time_stalls() {
    // A single process that arrives at tick 5: simulated time never
    // advances past 0, so the admission queue runs empty while the process
    // is unfinished.
    let mut d = dispatcher_with(&[(5, 1)], 2);
    assert_eq!(d.run(), Err(ScheduleError::QueueEmpty));
    assert!(d.result().is_none());
}

#[test]
fn result_before_run_is_none() {
    let d = RoundRobinDispatcher::new();
    assert!(d.result().is_none());
}

#[test]
fn zero_burst_process_finishes_at_admission_tick() {
    let mut d = dispatcher_with(&[(0, 4), (0, 0)], 2);
    assert!(d.run().is_ok());
    let exits = exit_times(&d);
    assert_eq!(exits[1], 2);
    assert_eq!(exits[0], 4);
}
